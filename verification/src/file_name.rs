//! The textual form of a segment identifier: the decimal value,
//! zero-padded to at least eight digits, with the `.dat` extension.
//! Padding makes lexicographic file order agree with numeric order
//! for identifiers up to eight digits wide.

use vstd::prelude::*;

use crate::codec::push_char;
use crate::storage::FileId;

verus! {

use vstd::utf8::is_scalar;

/// The digit character for one decimal digit.
pub open spec fn digit_of(d: int) -> char {
    ((48 + d) as u32) as char
}

/// Whether a character is a decimal digit.
pub open spec fn is_digit(c: char) -> bool {
    48 <= c as u32 <= 57
}

/// The decimal digits of `n`, most significant first; empty for zero.
pub open spec fn dec_digits(n: int) -> Seq<char>
    decreases n,
{
    if n <= 0 {
        Seq::empty()
    } else {
        dec_digits(n / 10).push(digit_of(n % 10))
    }
}

/// The number a digit string denotes.
pub open spec fn digits_value(s: Seq<char>) -> int
    decreases s.len(),
{
    if s.len() == 0 {
        0
    } else {
        digits_value(s.drop_last()) * 10 + (s.last() as u32 - 48)
    }
}

/// All characters are decimal digits.
pub open spec fn all_digits(s: Seq<char>) -> bool {
    forall|i: int| 0 <= i < s.len() ==> is_digit(#[trigger] s[i])
}

/// The file stem of an identifier: its digits, zero-padded to eight.
pub open spec fn file_stem_of(id: u64) -> Seq<char> {
    let d = dec_digits(id as int);
    if d.len() >= 8 {
        d
    } else {
        Seq::new((8 - d.len()) as nat, |i: int| '0') + d
    }
}

/// The file name of an identifier: the stem with the extension.
pub open spec fn file_name_of(id: u64) -> Seq<char> {
    file_stem_of(id) + seq!['.', 'd', 'a', 't']
}

proof fn lemma_digits_value_of_dec(n: int)
    requires
        n >= 0,
    ensures
        digits_value(dec_digits(n)) == n,
        all_digits(dec_digits(n)),
        n > 0 ==> dec_digits(n).len() >= 1,
    decreases n,
{
    if n > 0 {
        lemma_digits_value_of_dec(n / 10);
        let d = n % 10;
        let c = digit_of(d);
        assert(is_scalar((48 + d) as u32));
        assert(c as u32 == 48 + d);
        assert(dec_digits(n).drop_last() =~= dec_digits(n / 10));
    }
}

proof fn lemma_digits_value_pad(s: Seq<char>, k: int)
    requires
        k >= 0,
    ensures
        digits_value(Seq::new(k as nat, |i: int| '0') + s) == digits_value(s),
    decreases s.len(),
{
    let z = Seq::new(k as nat, |i: int| '0');
    if s.len() == 0 {
        assert(z + s =~= z);
        lemma_digits_value_zeros(k);
    } else {
        assert((z + s).drop_last() =~= z + s.drop_last());
        assert((z + s).last() == s.last());
        lemma_digits_value_pad(s.drop_last(), k);
    }
}

proof fn lemma_digits_value_zeros(k: int)
    requires
        k >= 0,
    ensures
        digits_value(Seq::new(k as nat, |i: int| '0')) == 0,
    decreases k,
{
    let z = Seq::new(k as nat, |i: int| '0');
    if k > 0 {
        assert(z.drop_last() =~= Seq::new((k - 1) as nat, |i: int| '0'));
        assert(z.last() == '0');
        assert(is_scalar(48u32));
        assert('0' as u32 == 48) by {
            assert(digit_of(0) as u32 == 48);
            assert('0' == digit_of(0));
        }
        lemma_digits_value_zeros(k - 1);
    }
}

/// Round trip: the name written for an identifier denotes that
/// identifier, digit for digit, so replay finds every segment under
/// the number it was written with.
pub proof fn lemma_file_name_round_trip(id: u64)
    ensures
        all_digits(file_stem_of(id)),
        file_stem_of(id).len() >= 8,
        digits_value(file_stem_of(id)) == id,
        file_name_of(id).len() == file_stem_of(id).len() + 4,
{
    lemma_digits_value_of_dec(id as int);
    let d = dec_digits(id as int);
    if d.len() < 8 {
        lemma_digits_value_pad(d, 8 - d.len());
        assert('0' == digit_of(0));
        assert(is_scalar(48u32));
        assert(is_digit('0')) by {
            assert(digit_of(0) as u32 == 48);
        }
    }
}

/// Writes the file name of a segment identifier.
pub fn file_name(f_id: &FileId) -> (r: String)
    ensures
        r@ == file_name_of(f_id.id),
{
    let ghost n0 = f_id.id as int;
    let mut rev: Vec<char> = Vec::new();
    let mut n = f_id.id;
    while n > 0
        invariant
            0 <= n <= n0,
            dec_digits(n0) == dec_digits(n as int) + rev@.reverse(),
        decreases n,
    {
        let d = (n % 10) as u32;
        let c = char::from_u32(48 + d).unwrap();
        proof {
            assert(is_scalar((48 + d) as u32));
            assert(c as u32 == 48 + d);
            vstd::utf8::char_u32_cast(c, (48 + d) as u32);
            assert(c == digit_of((n % 10) as int));
            assert(rev@.push(c).reverse() =~= seq![c] + rev@.reverse());
            assert(dec_digits(n as int) =~= dec_digits(n as int / 10).push(c));
            assert(dec_digits(n as int / 10) + rev@.push(c).reverse() =~= dec_digits(n as int)
                + rev@.reverse());
        }
        rev.push(c);
        n = n / 10;
    }
    proof {
        assert(dec_digits(0int) =~= Seq::<char>::empty());
        assert(dec_digits(n0) =~= rev@.reverse());
    }
    let mut s = String::new();
    let mut pad: usize = 8;
    if rev.len() < 8 {
        pad = 8 - rev.len();
    } else {
        pad = 0;
    }
    let ghost padn = pad as int;
    let mut p: usize = 0;
    while p < pad
        invariant
            0 <= p <= pad,
            pad == padn,
            s@ == Seq::new(p as nat, |i: int| '0'),
        decreases pad - p,
    {
        push_char(&mut s, '0');
        proof {
            assert(s@ =~= Seq::new((p + 1) as nat, |i: int| '0'));
        }
        p = p + 1;
    }
    let mut i: usize = rev.len();
    while i > 0
        invariant
            0 <= i <= rev@.len(),
            s@ == Seq::new(padn as nat, |i2: int| '0') + rev@.reverse().take(
                rev@.len() - i,
            ),
        decreases i,
    {
        i = i - 1;
        push_char(&mut s, rev[i]);
        proof {
            assert(rev@.reverse()[rev@.len() - i - 1] == rev@[i as int]);
            assert(s@ =~= Seq::new(padn as nat, |i2: int| '0') + rev@.reverse().take(
                rev@.len() - i,
            ));
        }
    }
    proof {
        assert(rev@.reverse().take(rev@.len() as int) =~= rev@.reverse());
        assert(s@ =~= file_stem_of(f_id.id)) by {
            if padn == 0 {
                assert(s@ =~= rev@.reverse());
            }
        }
    }
    push_char(&mut s, '.');
    push_char(&mut s, 'd');
    push_char(&mut s, 'a');
    push_char(&mut s, 't');
    proof {
        assert(s@ =~= file_name_of(f_id.id));
    }
    s
}

/// Reads a segment identifier back from a file name: at least one
/// digit, then `.dat`, denoting a value the identifier type can hold.
/// Anything else is not a segment file.
pub fn parse_file_name(name: &String) -> (r: Option<FileId>)
    ensures
        r matches Some(f) ==> {
            let stem = name@.take(name@.len() - 4);
            &&& name@.len() >= 5
            &&& name@.skip(name@.len() - 4) == seq!['.', 'd', 'a', 't']
            &&& all_digits(stem)
            &&& digits_value(stem) == f.id
        },
        r is None ==> !{
            let stem = name@.take(name@.len() - 4);
            &&& name@.len() >= 5
            &&& name@.skip(name@.len() - 4) == seq!['.', 'd', 'a', 't']
            &&& all_digits(stem)
            &&& digits_value(stem) <= u64::MAX
        },
    {
        let sl = name.as_str();
        let len = sl.unicode_len();
        if len < 5 {
            return None;
        }
        let ghost stem = name@.take(name@.len() - 4);
        if !(sl.get_char(len - 4) == '.' && sl.get_char(len - 3) == 'd' && sl.get_char(len - 2)
            == 'a' && sl.get_char(len - 1) == 't') {
            proof {
                assert(name@.skip(name@.len() - 4) != seq!['.', 'd', 'a', 't']) by {
                    if name@.skip(name@.len() - 4) == seq!['.', 'd', 'a', 't'] {
                        assert(name@.skip(name@.len() - 4)[0] == name@[name@.len() - 4]);
                        assert(name@.skip(name@.len() - 4)[1] == name@[name@.len() - 3]);
                        assert(name@.skip(name@.len() - 4)[2] == name@[name@.len() - 2]);
                        assert(name@.skip(name@.len() - 4)[3] == name@[name@.len() - 1]);
                    }
                }
            }
            return None;
        }
        proof {
            assert(name@.skip(name@.len() - 4) =~= seq!['.', 'd', 'a', 't']);
        }
        let mut acc: u64 = 0;
        let mut i: usize = 0;
        while i < len - 4
            invariant
                0 <= i <= len - 4,
                5 <= len == name@.len(),
                sl@ == name@,
                stem == name@.take(name@.len() - 4),
                all_digits(stem.take(i as int)),
                digits_value(stem.take(i as int)) == acc,
            decreases len - 4 - i,
        {
            let c = sl.get_char(i);
            let u = c as u32;
            if u < 48 || u > 57 {
                proof {
                    assert(stem[i as int] == c);
                    assert(!is_digit(c));
                }
                return None;
            }
            let d = (u - 48) as u64;
            let wide: u128 = acc as u128 * 10 + d as u128;
            if wide > u64::MAX as u128 {
                proof {
                    lemma_digits_value_grows(stem, i as int);
                    assert(stem.take(i + 1 as int).drop_last() =~= stem.take(i as int));
                    assert(stem.take(i + 1 as int).last() == c);
                    assert(digits_value(stem.take(i + 1 as int)) > u64::MAX);
                }
                return None;
            }
            acc = wide as u64;
            proof {
                assert(stem.take(i + 1 as int).drop_last() =~= stem.take(i as int));
                assert(stem.take(i + 1 as int).last() == c);
                assert(all_digits(stem.take(i + 1 as int))) by {
                    assert(forall|j: int|
                        0 <= j < i ==> stem.take(i + 1 as int)[j] == stem.take(i as int)[j]);
                }
            }
            i = i + 1;
        }
        proof {
            assert(stem.take(stem.len() as int) =~= stem);
        }
        Some(FileId { id: acc })
    }

/// A digit string's value only grows as digits follow.
proof fn lemma_digits_value_grows(s: Seq<char>, i: int)
    requires
        0 <= i < s.len(),
        all_digits(s.take(i + 1)),
    ensures
        forall|j: int|
            i + 1 <= j <= s.len() && all_digits(#[trigger] s.take(j)) ==> digits_value(s.take(j))
                >= digits_value(s.take(i + 1)),
    decreases s.len(),
{
    assert forall|j: int|
        i + 1 <= j <= s.len() && all_digits(#[trigger] s.take(j)) implies digits_value(s.take(j))
        >= digits_value(s.take(i + 1)) by {
        lemma_digits_value_prefix(s, i + 1, j);
    }
}

/// Extending a digit string cannot shrink its value.
proof fn lemma_digits_value_prefix(s: Seq<char>, a: int, b: int)
    requires
        0 <= a <= b <= s.len(),
        all_digits(s.take(b)),
    ensures
        digits_value(s.take(b)) >= digits_value(s.take(a)),
        digits_value(s.take(b)) >= 0,
    decreases b - a,
{
    if a == b {
        lemma_digits_value_nonneg(s.take(a));
    } else {
        lemma_digits_value_prefix(s, a, b - 1);
        assert(all_digits(s.take(b - 1))) by {
            assert(forall|j: int| 0 <= j < b - 1 ==> s.take(b - 1)[j] == s.take(b)[j]);
        }
        assert(s.take(b).drop_last() =~= s.take(b - 1));
        let c = s.take(b).last();
        assert(is_digit(c));
        assert(digits_value(s.take(b)) == digits_value(s.take(b - 1)) * 10 + (c as u32 - 48));
        lemma_digits_value_nonneg(s.take(b - 1));
        assert(digits_value(s.take(b - 1)) * 10 >= digits_value(s.take(b - 1))) by (nonlinear_arith)
            requires
                digits_value(s.take(b - 1)) >= 0,
        ;
    }
}

/// A digit string denotes a non-negative number.
proof fn lemma_digits_value_nonneg(s: Seq<char>)
    requires
        all_digits(s),
    ensures
        digits_value(s) >= 0,
    decreases s.len(),
{
    if s.len() > 0 {
        assert(all_digits(s.drop_last())) by {
            assert(forall|j: int| 0 <= j < s.len() - 1 ==> s.drop_last()[j] == s[j]);
        }
        lemma_digits_value_nonneg(s.drop_last());
        assert(is_digit(s.last()));
        assert(digits_value(s.drop_last()) * 10 >= 0) by (nonlinear_arith)
            requires
                digits_value(s.drop_last()) >= 0,
        ;
    }
}

} // verus!
