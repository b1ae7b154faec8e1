//! The record codec: a self-delimiting binary encoding of commands.
//!
//! A record is laid out as
//! `tag (1 byte) . sequencer (16 bytes LE) . key . value-if-Put`,
//! where a string is its character count (8 bytes LE) followed by each
//! character's Unicode scalar value (4 bytes LE). Tag 0 is a `Put`,
//! tag 1 a `Rm`. Records are concatenated with no separator; decoding
//! one record from a position consumes exactly its span.

use vstd::prelude::*;

use crate::command::{CmdV, Command, Sequencer};
use crate::error::KvError;

verus! {

use vstd::bytes::{
    spec_u128_from_le_bytes,
    spec_u128_to_le_bytes,
    spec_u32_from_le_bytes,
    spec_u32_to_le_bytes,
    spec_u64_from_le_bytes,
    spec_u64_to_le_bytes,
    lemma_auto_spec_u128_to_from_le_bytes,
    lemma_auto_spec_u32_to_from_le_bytes,
    lemma_auto_spec_u64_to_from_le_bytes,
    u128_from_le_bytes,
    u32_from_le_bytes,
    u64_from_le_bytes,
    u128_to_le_bytes,
    u32_to_le_bytes,
    u64_to_le_bytes,
};
use vstd::slice::slice_subrange;
use vstd::utf8::is_scalar;

/// Relies on `char::from_u32`: returns the character with the given
/// Unicode scalar value, and `None` exactly on surrogates and values
/// above `char::MAX`, which is what `is_scalar` excludes.
pub assume_specification[ char::from_u32 ](u: u32) -> (r: Option<char>)
    ensures
        r is Some <==> is_scalar(u),
        r matches Some(c) ==> c as u32 == u,
;

/// Relies on `String::push`: appends one character at the end.
#[verifier::external_body]
pub(crate) fn push_char(s: &mut String, c: char)
    ensures
        final(s)@ == old(s)@.push(c),
{
    s.push(c);
}

/// The encoding of a character sequence: four bytes per character.
pub open spec fn enc_chars(s: Seq<char>) -> Seq<u8>
    decreases s.len(),
{
    if s.len() == 0 {
        Seq::empty()
    } else {
        enc_chars(s.drop_last()) + spec_u32_to_le_bytes(s.last() as u32)
    }
}

/// The scalar value stored at `pos`.
pub open spec fn scalar_at(data: Seq<u8>, pos: int) -> u32 {
    spec_u32_from_le_bytes(data.subrange(pos, pos + 4))
}

/// Decodes `n` characters stored from `pos` on; `None` when the bytes
/// run out or a stored value is not a Unicode scalar.
pub open spec fn dec_chars(data: Seq<u8>, pos: int, n: int) -> Option<Seq<char>>
    decreases n,
{
    if n <= 0 {
        Some(Seq::empty())
    } else if 0 <= pos && pos + 4 * n <= data.len() {
        match dec_chars(data, pos, n - 1) {
            Some(s) => {
                let u = scalar_at(data, pos + 4 * (n - 1));
                if is_scalar(u) {
                    Some(s.push(u as char))
                } else {
                    None
                }
            },
            None => None,
        }
    } else {
        None
    }
}

/// Whether a character sequence's length fits the 8-byte count field.
/// Every executable string satisfies this.
pub open spec fn str_fits(s: Seq<char>) -> bool {
    s.len() <= u64::MAX
}

/// The encoding of a string: character count, then the characters.
pub open spec fn enc_str(s: Seq<char>) -> Seq<u8> {
    spec_u64_to_le_bytes(s.len() as u64) + enc_chars(s)
}

/// Decodes one length-prefixed string stored at `pos`; returns the
/// string and the position just after it.
pub open spec fn dec_str(data: Seq<u8>, pos: int) -> Option<(Seq<char>, int)> {
    if 0 <= pos && pos + 8 <= data.len() {
        let n = spec_u64_from_le_bytes(data.subrange(pos, pos + 8)) as int;
        match dec_chars(data, pos + 8, n) {
            Some(s) => Some((s, pos + 8 + 4 * n)),
            None => None,
        }
    } else {
        None
    }
}

/// Whether a command can be encoded: its strings fit the count fields.
/// Every executable command satisfies this.
pub open spec fn cmd_valid(c: CmdV) -> bool {
    match c {
        CmdV::Put { key, value, .. } => str_fits(key) && str_fits(value),
        CmdV::Rm { key, .. } => str_fits(key),
    }
}

/// The encoding of one command.
pub open spec fn enc_cmd(c: CmdV) -> Seq<u8> {
    match c {
        CmdV::Put { key, value, sequencer } => seq![0u8] + spec_u128_to_le_bytes(sequencer)
            + enc_str(key) + enc_str(value),
        CmdV::Rm { key, sequencer } => seq![1u8] + spec_u128_to_le_bytes(sequencer) + enc_str(
            key,
        ),
    }
}

/// Decodes one command stored at `pos`; returns the command and the
/// position just after its span.
pub open spec fn dec_cmd_at(data: Seq<u8>, pos: int) -> Option<(CmdV, int)> {
    if 0 <= pos && pos + 17 <= data.len() {
        let sequencer = spec_u128_from_le_bytes(data.subrange(pos + 1, pos + 17));
        if data[pos] == 0u8 {
            match dec_str(data, pos + 17) {
                Some((key, p2)) => match dec_str(data, p2) {
                    Some((value, p3)) => Some((CmdV::Put { key, value, sequencer }, p3)),
                    None => None,
                },
                None => None,
            }
        } else if data[pos] == 1u8 {
            match dec_str(data, pos + 17) {
                Some((key, p2)) => Some((CmdV::Rm { key, sequencer }, p2)),
                None => None,
            }
        } else {
            None
        }
    } else {
        None
    }
}

pub proof fn lemma_enc_chars_len(s: Seq<char>)
    ensures
        enc_chars(s).len() == 4 * s.len(),
    decreases s.len(),
{
    lemma_auto_spec_u32_to_from_le_bytes();
    if s.len() > 0 {
        lemma_enc_chars_len(s.drop_last());
    }
}

pub proof fn lemma_enc_str_len(s: Seq<char>)
    ensures
        enc_str(s).len() == 8 + 4 * s.len(),
{
    lemma_auto_spec_u64_to_from_le_bytes();
    lemma_enc_chars_len(s);
}

/// The length of an encoded command: 25 bytes of framing plus four per
/// character, with 8 more framing bytes for a `Put`.
pub open spec fn enc_cmd_len(c: CmdV) -> int {
    match c {
        CmdV::Put { key, value, .. } => 33 + 4 * key.len() as int + 4 * value.len() as int,
        CmdV::Rm { key, .. } => 25 + 4 * key.len() as int,
    }
}

pub proof fn lemma_enc_cmd_len(c: CmdV)
    ensures
        enc_cmd(c).len() == enc_cmd_len(c),
        enc_cmd(c).len() >= 25,
{
    lemma_auto_spec_u128_to_from_le_bytes();
    match c {
        CmdV::Put { key, value, .. } => {
            lemma_enc_str_len(key);
            lemma_enc_str_len(value);
        },
        CmdV::Rm { key, .. } => {
            lemma_enc_str_len(key);
        },
    }
}

proof fn lemma_dec_chars_of_enc(data: Seq<u8>, pos: int, s: Seq<char>)
    requires
        0 <= pos,
        pos + 4 * s.len() <= data.len(),
        data.subrange(pos, pos + 4 * s.len()) == enc_chars(s),
    ensures
        dec_chars(data, pos, s.len() as int) == Some(s),
    decreases s.len(),
{
    lemma_auto_spec_u32_to_from_le_bytes();
    lemma_enc_chars_len(s);
    if s.len() == 0 {
        assert(s =~= Seq::<char>::empty());
    } else {
        let n = s.len() as int;
        let whole = data.subrange(pos, pos + 4 * n);
        lemma_enc_chars_len(s.drop_last());
        assert(data.subrange(pos, pos + 4 * (n - 1)) =~= whole.subrange(0, 4 * (n - 1)));
        assert(whole.subrange(0, 4 * (n - 1)) =~= enc_chars(s.drop_last()));
        lemma_dec_chars_of_enc(data, pos, s.drop_last());
        let c = s.last();
        assert(data.subrange(pos + 4 * (n - 1), pos + 4 * n) =~= whole.subrange(
            4 * (n - 1),
            4 * n,
        ));
        assert(whole.subrange(4 * (n - 1), 4 * n) =~= spec_u32_to_le_bytes(c as u32));
        assert(scalar_at(data, pos + 4 * (n - 1)) == c as u32);
        vstd::utf8::char_is_scalar(c);
        vstd::utf8::char_u32_cast(c, scalar_at(data, pos + 4 * (n - 1)));
        assert(s.drop_last().push(c) =~= s);
    }
}

proof fn lemma_dec_chars_exact(data: Seq<u8>, pos: int, n: int)
    requires
        0 <= pos <= data.len(),
        n >= 0,
        dec_chars(data, pos, n) is Some,
    ensures
        dec_chars(data, pos, n)->Some_0.len() == n,
        pos + 4 * n <= data.len(),
        enc_chars(dec_chars(data, pos, n)->Some_0) == data.subrange(pos, pos + 4 * n),
    decreases n,
{
    lemma_auto_spec_u32_to_from_le_bytes();
    let s = dec_chars(data, pos, n)->Some_0;
    if n == 0 {
        assert(enc_chars(s) =~= data.subrange(pos, pos));
    } else {
        lemma_dec_chars_exact(data, pos, n - 1);
        let s0 = dec_chars(data, pos, n - 1)->Some_0;
        let u = scalar_at(data, pos + 4 * (n - 1));
        assert(s == s0.push(u as char));
        assert(s.drop_last() =~= s0);
        assert(s.last() == u as char);
        assert((u as char) as u32 == u);
        assert(enc_chars(s) == enc_chars(s0) + spec_u32_to_le_bytes(u));
        assert(spec_u32_to_le_bytes(u) =~= data.subrange(pos + 4 * (n - 1), pos + 4 * n)) by {
            assert(spec_u32_to_le_bytes(spec_u32_from_le_bytes(data.subrange(
                pos + 4 * (n - 1),
                pos + 4 * n,
            ))) =~= data.subrange(pos + 4 * (n - 1), pos + 4 * n));
        }
        assert(enc_chars(s) =~= data.subrange(pos, pos + 4 * n));
    }
}

proof fn lemma_dec_chars_fail(data: Seq<u8>, pos: int, i: int, n: int)
    requires
        0 <= pos,
        0 <= i < n,
        pos + 4 * n <= data.len(),
        dec_chars(data, pos, i) is Some,
        !is_scalar(scalar_at(data, pos + 4 * i)),
    ensures
        dec_chars(data, pos, n) is None,
    decreases n,
{
    if n - 1 > i {
        lemma_dec_chars_fail(data, pos, i, n - 1);
    }
}

proof fn lemma_dec_str_of_enc(data: Seq<u8>, pos: int, s: Seq<char>)
    requires
        str_fits(s),
        0 <= pos,
        pos + 8 + 4 * s.len() <= data.len(),
        data.subrange(pos, pos + 8 + 4 * s.len()) == enc_str(s),
    ensures
        dec_str(data, pos) == Some((s, pos + 8 + 4 * s.len() as int)),
{
    lemma_auto_spec_u64_to_from_le_bytes();
    lemma_enc_chars_len(s);
    let n = s.len() as int;
    let whole = data.subrange(pos, pos + 8 + 4 * n);
    assert(data.subrange(pos, pos + 8) =~= whole.subrange(0, 8));
    assert(whole.subrange(0, 8) =~= spec_u64_to_le_bytes(s.len() as u64));
    assert(spec_u64_from_le_bytes(data.subrange(pos, pos + 8)) == s.len() as u64);
    assert(data.subrange(pos + 8, pos + 8 + 4 * n) =~= whole.subrange(8, 8 + 4 * n));
    assert(whole.subrange(8, 8 + 4 * n) =~= enc_chars(s));
    lemma_dec_chars_of_enc(data, pos + 8, s);
}

proof fn lemma_dec_str_exact(data: Seq<u8>, pos: int)
    requires
        dec_str(data, pos) is Some,
    ensures
        ({
            let (s, p2) = dec_str(data, pos)->Some_0;
            &&& str_fits(s)
            &&& pos + 8 <= p2 <= data.len()
            &&& p2 == pos + 8 + 4 * s.len()
            &&& data.subrange(pos, p2) == enc_str(s)
        }),
{
    lemma_auto_spec_u64_to_from_le_bytes();
    let (s, p2) = dec_str(data, pos)->Some_0;
    let n = spec_u64_from_le_bytes(data.subrange(pos, pos + 8)) as int;
    lemma_dec_chars_exact(data, pos + 8, n);
    lemma_enc_chars_len(s);
    assert(data.subrange(pos, p2).subrange(0, 8) =~= data.subrange(pos, pos + 8));
    assert(data.subrange(pos, p2).subrange(8, 8 + 4 * n) =~= data.subrange(pos + 8, pos + 8 + 4 * n));
    assert(data.subrange(pos, p2) =~= data.subrange(pos, pos + 8) + data.subrange(
        pos + 8,
        pos + 8 + 4 * n,
    ));
    assert(spec_u64_to_le_bytes(spec_u64_from_le_bytes(data.subrange(pos, pos + 8)))
        =~= data.subrange(pos, pos + 8));
    assert(spec_u64_to_le_bytes(s.len() as u64) =~= data.subrange(pos, pos + 8));
}

/// One half of the round trip: decoding an encoded command, wherever it
/// sits and whatever follows it, yields the command and consumes
/// exactly its span.
pub proof fn lemma_dec_of_enc(data: Seq<u8>, pos: int, c: CmdV)
    requires
        cmd_valid(c),
        0 <= pos,
        pos + enc_cmd(c).len() <= data.len(),
        data.subrange(pos, pos + enc_cmd(c).len()) == enc_cmd(c),
    ensures
        dec_cmd_at(data, pos) == Some((c, pos + enc_cmd(c).len())),
{
    lemma_auto_spec_u128_to_from_le_bytes();
    lemma_enc_cmd_len(c);
    let e = enc_cmd(c);
    let el = e.len() as int;
    let whole = data.subrange(pos, pos + el);
    assert(data[pos] == whole[0]);
    assert(data.subrange(pos + 1, pos + 17) =~= whole.subrange(1, 17));
    assert(whole.subrange(1, 17) =~= spec_u128_to_le_bytes(c.seq()));
    match c {
        CmdV::Put { key, value, sequencer } => {
            lemma_enc_str_len(key);
            lemma_enc_str_len(value);
            let kl = 8 + 4 * key.len() as int;
            let vl = 8 + 4 * value.len() as int;
            assert(data.subrange(pos + 17, pos + 17 + kl) =~= whole.subrange(17, 17 + kl));
            assert(whole.subrange(17, 17 + kl) =~= enc_str(key));
            lemma_dec_str_of_enc(data, pos + 17, key);
            assert(data.subrange(pos + 17 + kl, pos + 17 + kl + vl) =~= whole.subrange(
                17 + kl,
                17 + kl + vl,
            ));
            assert(whole.subrange(17 + kl, 17 + kl + vl) =~= enc_str(value));
            lemma_dec_str_of_enc(data, pos + 17 + kl, value);
        },
        CmdV::Rm { key, sequencer } => {
            lemma_enc_str_len(key);
            let kl = 8 + 4 * key.len() as int;
            assert(data.subrange(pos + 17, pos + 17 + kl) =~= whole.subrange(17, 17 + kl));
            assert(whole.subrange(17, 17 + kl) =~= enc_str(key));
            lemma_dec_str_of_enc(data, pos + 17, key);
        },
    }
}

/// The other half of the round trip: whatever decodes at a position is
/// the decoding of its own encoding, which occupies exactly the
/// consumed span.
pub proof fn lemma_enc_of_dec(data: Seq<u8>, pos: int)
    requires
        dec_cmd_at(data, pos) is Some,
    ensures
        ({
            let (c, p2) = dec_cmd_at(data, pos)->Some_0;
            &&& cmd_valid(c)
            &&& pos + 25 <= p2 <= data.len()
            &&& p2 == pos + enc_cmd(c).len()
            &&& data.subrange(pos, p2) == enc_cmd(c)
        }),
{
    lemma_auto_spec_u128_to_from_le_bytes();
    let (c, p2) = dec_cmd_at(data, pos)->Some_0;
    let sequencer = spec_u128_from_le_bytes(data.subrange(pos + 1, pos + 17));
    assert(spec_u128_to_le_bytes(sequencer) =~= data.subrange(pos + 1, pos + 17));
    if data[pos] == 0u8 {
        let (key, pk) = dec_str(data, pos + 17)->Some_0;
        lemma_dec_str_exact(data, pos + 17);
        let (value, pv) = dec_str(data, pk)->Some_0;
        lemma_dec_str_exact(data, pk);
        lemma_enc_cmd_len(c);
        assert(data.subrange(pos, p2) =~= seq![0u8] + data.subrange(pos + 1, pos + 17)
            + data.subrange(pos + 17, pk) + data.subrange(pk, p2));
        assert(data.subrange(pos, p2) =~= enc_cmd(c));
    } else {
        let (key, pk) = dec_str(data, pos + 17)->Some_0;
        lemma_dec_str_exact(data, pos + 17);
        lemma_enc_cmd_len(c);
        assert(data.subrange(pos, p2) =~= seq![1u8] + data.subrange(pos + 1, pos + 17)
            + data.subrange(pos + 17, pk));
        assert(data.subrange(pos, p2) =~= enc_cmd(c));
    }
}

/// A cut record never decodes: a strict prefix of a record's span
/// yields no command at all, rather than some other command. So when
/// a crash tears the last record, replay stops cleanly at the last
/// whole record instead of misreading part of one.
pub proof fn lemma_torn_prefix_undecodable(data: Seq<u8>, m: int)
    requires
        dec_cmd_at(data, 0) is Some,
        0 <= m < dec_cmd_at(data, 0)->Some_0.1,
    ensures
        dec_cmd_at(data.take(m), 0) is None,
{
    lemma_enc_of_dec(data, 0);
    let (c, l) = dec_cmd_at(data, 0)->Some_0;
    let p = data.take(m);
    if dec_cmd_at(p, 0) is Some {
        lemma_enc_of_dec(p, 0);
        let (c2, n2) = dec_cmd_at(p, 0)->Some_0;
        assert(p.subrange(0, n2) =~= data.subrange(0, n2));
        lemma_dec_of_enc(data, 0, c2);
        assert(l == n2);
        assert(false);
    }
}

/// Appends a byte vector.
fn extend_bytes(out: &mut Vec<u8>, src: Vec<u8>)
    ensures
        final(out)@ == old(out)@ + src@,
{
    out.extend_from_slice(src.as_slice());
}

/// Appends the encoding of one string.
fn append_string(out: &mut Vec<u8>, s: &String)
    ensures
        final(out)@ == old(out)@ + enc_str(s@),
        str_fits(s@),
{
    let n = s.as_str().unicode_len();
    extend_bytes(out, u64_to_le_bytes(n as u64));
    let ghost base = out@;
    let mut i: usize = 0;
    while i < n
        invariant
            n == s@.len(),
            0 <= i <= n,
            out@ == base + enc_chars(s@.take(i as int)),
        decreases n - i,
    {
        let c = s.as_str().get_char(i);
        extend_bytes(out, u32_to_le_bytes(c as u32));
        proof {
            let t = s@.take(i + 1 as int);
            assert(t.drop_last() =~= s@.take(i as int));
            assert(t.last() == s@[i as int]);
        }
        i = i + 1;
    }
    proof {
        assert(s@.take(n as int) =~= s@);
    }
}

/// Encodes one command as a fresh record.
pub fn encode_command(cmd: &Command) -> (r: Vec<u8>)
    ensures
        r@ == enc_cmd(cmd@),
        cmd_valid(cmd@),
{
    let mut out: Vec<u8> = Vec::new();
    match cmd {
        Command::Put { key, value, sequencer } => {
            out.push(0u8);
            extend_bytes(&mut out, u128_to_le_bytes(sequencer.timestamp));
            append_string(&mut out, key);
            append_string(&mut out, value);
            proof {
                assert(out@ =~= enc_cmd(cmd@));
            }
        },
        Command::Rm { key, sequencer } => {
            out.push(1u8);
            extend_bytes(&mut out, u128_to_le_bytes(sequencer.timestamp));
            append_string(&mut out, key);
            proof {
                assert(out@ =~= enc_cmd(cmd@));
            }
        },
    }
    out
}

/// Reads one length-prefixed string stored at `pos`.
fn read_string(data: &Vec<u8>, pos: usize) -> (r: Result<(String, usize), KvError>)
    ensures
        r matches Ok((s, next)) ==> dec_str(data@, pos as int) == Some((s@, next as int))
            && pos < next <= data@.len(),
        r is Err ==> r == Err::<(String, usize), KvError>(KvError::Codec) && dec_str(
            data@,
            pos as int,
        ) is None,
{
    if data.len() < 8 || pos > data.len() - 8 {
        return Err(KvError::Codec);
    }
    let n64 = u64_from_le_bytes(slice_subrange(data.as_slice(), pos, pos + 8));
    let remaining: usize = data.len() - (pos + 8);
    if (n64 as u128) * 4 > remaining as u128 {
        return Err(KvError::Codec);
    }
    let n = n64 as usize;
    let base = pos + 8;
    let mut s = String::new();
    let mut i: usize = 0;
    while i < n
        invariant
            n64 as int == n,
            base == pos + 8,
            base + 4 * n <= data@.len(),
            data@.len() <= usize::MAX,
            0 <= i <= n,
            spec_u64_from_le_bytes(data@.subrange(pos as int, pos as int + 8)) == n64,
            dec_chars(data@, base as int, i as int) == Some(s@),
        decreases n - i,
    {
        let off = base + 4 * i;
        let u = u32_from_le_bytes(slice_subrange(data.as_slice(), off, off + 4));
        proof {
            assert(u == scalar_at(data@, base + 4 * (i as int)));
        }
        match char::from_u32(u) {
            Some(c) => {
                push_char(&mut s, c);
                proof {
                    vstd::utf8::char_u32_cast(c, u);
                    assert(dec_chars(data@, base as int, i + 1 as int) == Some(s@));
                }
            },
            None => {
                proof {
                    lemma_dec_chars_fail(data@, base as int, i as int, n as int);
                }
                return Err(KvError::Codec);
            },
        }
        i = i + 1;
    }
    Ok((s, base + 4 * n))
}

/// Decodes the command stored at `pos`; returns the command and the
/// position just after its span, or `Codec` when no command is stored
/// there.
pub fn decode_command(data: &Vec<u8>, pos: usize) -> (r: Result<(Command, usize), KvError>)
    ensures
        r matches Ok((c, next)) ==> dec_cmd_at(data@, pos as int) == Some((c@, next as int))
            && pos < next <= data@.len(),
        r is Err ==> r == Err::<(Command, usize), KvError>(KvError::Codec) && dec_cmd_at(
            data@,
            pos as int,
        ) is None,
{
    if data.len() < 17 || pos > data.len() - 17 {
        return Err(KvError::Codec);
    }
    let tag = data[pos];
    if tag > 1 {
        return Err(KvError::Codec);
    }
    let ts = u128_from_le_bytes(slice_subrange(data.as_slice(), pos + 1, pos + 17));
    let sequencer = Sequencer { timestamp: ts };
    if tag == 0 {
        let (key, p2) = read_string(data, pos + 17)?;
        let (value, p3) = read_string(data, p2)?;
        Ok((Command::Put { key, value, sequencer }, p3))
    } else {
        let (key, p2) = read_string(data, pos + 17)?;
        Ok((Command::Rm { key, sequencer }, p2))
    }
}

} // verus!
