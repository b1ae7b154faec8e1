//! The segmented log: identifiers, pointers, segments, and the record
//! streams they hold.

use vstd::prelude::*;

use crate::codec::{
    cmd_valid,
    dec_cmd_at,
    enc_cmd,
    enc_cmd_len,
    lemma_dec_of_enc,
    lemma_enc_cmd_len,
    lemma_enc_of_dec,
};
use crate::command::{CmdV, Command};
use crate::error::KvError;
use crate::index::{entries_bytes, entries_map, keys_distinct, lemma_entries_map, Index, IndexEntry};

verus! {

/// A segment's numeric identifier. Identifiers start at 1 and grow by
/// one on each rollover or compaction roll; the textual form is the
/// zero-padded decimal, so lexicographic file order agrees with
/// numeric order.
#[derive(Clone, Copy, Debug, PartialEq, Eq, Structural, Hash)]
pub struct FileId {
    pub id: u64,
}

impl FileId {
    /// The next identifier.
    pub fn inc(&self) -> (r: FileId)
        requires
            self.id < u64::MAX,
        ensures
            r.id == self.id + 1,
    {
        FileId { id: self.id + 1 }
    }
}

/// Locates one serialized command: the segment, the byte offset of the
/// record's first byte, and the record's byte length.
#[derive(Clone, Copy, Debug, PartialEq, Eq, Structural)]
pub struct LogPointer {
    pub start_pos: u64,
    pub len: u64,
    pub f_id: FileId,
}

/// One segment of the log: an append-only byte buffer named by its
/// identifier. The embedding program mirrors each segment to the file
/// `<id zero-padded to 8 digits>.dat` in the data directory.
#[derive(Debug)]
pub struct Segment {
    pub f_id: FileId,
    pub data: Vec<u8>,
}

/// The mathematical form of a segment.
pub struct SegV {
    pub id: u64,
    pub data: Seq<u8>,
}

impl View for Segment {
    type V = SegV;

    open spec fn view(&self) -> SegV {
        SegV { id: self.f_id.id, data: self.data@ }
    }
}

/// Where greedy decoding from `pos` stops: the position after the
/// last whole record before either the end of the data or the first
/// undecodable byte.
pub open spec fn decoded_end(data: Seq<u8>, pos: int) -> int
    decreases data.len() - pos,
{
    if 0 <= pos <= data.len() {
        match dec_cmd_at(data, pos) {
            Some((c, p2)) => if pos < p2 && p2 <= data.len() {
                decoded_end(data, p2)
            } else {
                pos
            },
            None => pos,
        }
    } else {
        pos
    }
}

/// The records stored from `pos` on in one segment's data, each with
/// the pointer that locates it, stopping at the first undecodable
/// byte.
pub open spec fn seg_records(data: Seq<u8>, pos: int, fid: u64) -> Seq<(CmdV, LogPointer)>
    decreases data.len() - pos,
{
    if 0 <= pos <= data.len() {
        match dec_cmd_at(data, pos) {
            Some((c, p2)) => if pos < p2 && p2 <= data.len() {
                seq![
                    (
                        c,
                        LogPointer {
                            start_pos: pos as u64,
                            len: (p2 - pos) as u64,
                            f_id: FileId { id: fid },
                        },
                    ),
                ] + seg_records(data, p2, fid)
            } else {
                Seq::empty()
            },
            None => Seq::empty(),
        }
    } else {
        Seq::empty()
    }
}

/// The records of a run of segments, in segment order.
pub open spec fn segs_records(segs: Seq<SegV>) -> Seq<(CmdV, LogPointer)>
    decreases segs.len(),
{
    if segs.len() == 0 {
        Seq::empty()
    } else {
        segs_records(segs.drop_last()) + seg_records(segs.last().data, 0, segs.last().id)
    }
}

/// Greedy decoding never moves backwards nor past the end.
pub proof fn lemma_decoded_end_bounds(data: Seq<u8>, pos: int)
    requires
        0 <= pos <= data.len(),
    ensures
        pos <= decoded_end(data, pos) <= data.len(),
    decreases data.len() - pos,
{
    match dec_cmd_at(data, pos) {
        Some((c, p2)) => {
            if pos < p2 && p2 <= data.len() {
                lemma_decoded_end_bounds(data, p2);
            }
        },
        None => {},
    }
}

/// Appending one encoded command to fully decoded data appends one
/// record, and the data stays fully decoded.
pub proof fn lemma_seg_records_append(data: Seq<u8>, pos: int, c: CmdV, fid: u64)
    requires
        0 <= pos <= data.len(),
        decoded_end(data, pos) == data.len(),
        cmd_valid(c),
        data.len() + enc_cmd(c).len() <= u64::MAX,
    ensures
        seg_records(data + enc_cmd(c), pos, fid) == seg_records(data, pos, fid) + seq![
            (
                c,
                LogPointer {
                    start_pos: data.len() as u64,
                    len: enc_cmd(c).len() as u64,
                    f_id: FileId { id: fid },
                },
            ),
        ],
        decoded_end(data + enc_cmd(c), pos) == data.len() + enc_cmd(c).len(),
    decreases data.len() - pos,
{
    let e = enc_cmd(c);
    let d2 = data + e;
    lemma_enc_cmd_len(c);
    match dec_cmd_at(data, pos) {
        Some((c1, p2)) => {
            lemma_enc_of_dec(data, pos);
            assert(d2.subrange(pos, p2) =~= data.subrange(pos, p2));
            lemma_dec_of_enc(d2, pos, c1);
            lemma_seg_records_append(data, p2, c, fid);
            assert(decoded_end(d2, pos) == decoded_end(d2, p2));
            assert(seg_records(d2, pos, fid) =~= seg_records(data, pos, fid) + seq![
                (
                    c,
                    LogPointer {
                        start_pos: data.len() as u64,
                        len: e.len() as u64,
                        f_id: FileId { id: fid },
                    },
                ),
            ]);
        },
        None => {
            assert(pos == data.len());
            assert(d2.subrange(pos, pos + e.len()) =~= e);
            lemma_dec_of_enc(d2, pos, c);
            let p3 = pos + e.len();
            assert(dec_cmd_at(d2, p3) is None);
            assert(decoded_end(d2, p3) == p3);
            assert(decoded_end(d2, pos) == p3);
            assert(seg_records(d2, p3, fid) =~= Seq::<(CmdV, LogPointer)>::empty());
            assert(seg_records(data, pos, fid) =~= Seq::<(CmdV, LogPointer)>::empty());
            assert(seg_records(d2, pos, fid) =~= seq![
                (
                    c,
                    LogPointer {
                        start_pos: data.len() as u64,
                        len: e.len() as u64,
                        f_id: FileId { id: fid },
                    },
                ),
            ]);
        },
    }
}

/// Records of concatenated runs of segments concatenate.
pub proof fn lemma_segs_records_concat(a: Seq<SegV>, b: Seq<SegV>)
    ensures
        segs_records(a + b) == segs_records(a) + segs_records(b),
    decreases b.len(),
{
    if b.len() == 0 {
        assert(a + b =~= a);
        assert(segs_records(a) + segs_records(b) =~= segs_records(a));
    } else {
        assert((a + b).drop_last() =~= a + b.drop_last());
        lemma_segs_records_concat(a, b.drop_last());
        assert(segs_records(a + b) =~= segs_records(a) + segs_records(b));
    }
}

/// A live entry of the replayed log: the value the key maps to, the
/// pointer to its record, and that record's sequencer.
pub struct LiveV {
    pub value: Seq<char>,
    pub lp: LogPointer,
    pub seq: u128,
}

/// One step of replay, mirroring the index update rule: a record
/// conflicts unless it strictly supersedes the stored sequencer;
/// otherwise a `Put` binds its key and a `Rm` unbinds it.
pub open spec fn replay_step(
    m: Map<Seq<char>, LiveV>,
    c: CmdV,
    lp: LogPointer,
) -> Option<Map<Seq<char>, LiveV>> {
    if m.contains_key(c.key()) && m[c.key()].seq >= c.seq() {
        None
    } else {
        match c {
            CmdV::Put { key, value, sequencer } => Some(
                m.insert(key, LiveV { value, lp, seq: sequencer }),
            ),
            CmdV::Rm { key, .. } => Some(m.remove(key)),
        }
    }
}

/// Replay of a record stream from the empty map; `None` means some
/// record conflicted, which on a well-formed log indicates
/// corruption.
pub open spec fn replay(rs: Seq<(CmdV, LogPointer)>) -> Option<Map<Seq<char>, LiveV>>
    decreases rs.len(),
{
    if rs.len() == 0 {
        Some(Map::empty())
    } else {
        match replay(rs.drop_last()) {
            Some(m) => replay_step(m, rs.last().0, rs.last().1),
            None => None,
        }
    }
}

/// The pointer view of a live map: what the index stores.
pub open spec fn ptr_map(m: Map<Seq<char>, LiveV>) -> Map<Seq<char>, (LogPointer, u128)> {
    m.map_values(|e: LiveV| (e.lp, e.seq))
}

/// The value view of a live map: what `get` serves.
pub open spec fn kv_map(m: Map<Seq<char>, LiveV>) -> Map<Seq<char>, Seq<char>> {
    m.map_values(|e: LiveV| e.value)
}

/// A failed replay stays failed under more records.
pub proof fn lemma_replay_none_extend(rs: Seq<(CmdV, LogPointer)>, ext: Seq<(CmdV, LogPointer)>)
    requires
        replay(rs) is None,
    ensures
        replay(rs + ext) is None,
    decreases ext.len(),
{
    if ext.len() == 0 {
        assert(rs + ext =~= rs);
    } else {
        assert((rs + ext).drop_last() =~= rs + ext.drop_last());
        lemma_replay_none_extend(rs, ext.drop_last());
    }
}

/// The first segment of a run carrying the given identifier.
pub open spec fn find_seg(segs: Seq<SegV>, fid: u64) -> Option<SegV>
    decreases segs.len(),
{
    if segs.len() == 0 {
        None
    } else if segs[0].id == fid {
        Some(segs[0])
    } else {
        find_seg(segs.drop_first(), fid)
    }
}

/// The command a bounded read of `len` bytes at `start` yields:
/// exactly one record must occupy exactly that span.
pub open spec fn dec_bounded(data: Seq<u8>, start: int, len: int) -> Option<CmdV> {
    match dec_cmd_at(data, start) {
        Some((c, p2)) => if p2 - start == len {
            Some(c)
        } else {
            None
        },
        None => None,
    }
}

pub proof fn lemma_find_seg_at(segs: Seq<SegV>, fid: u64, i: int)
    requires
        0 <= i < segs.len(),
        segs[i].id == fid,
        forall|j: int| 0 <= j < i ==> segs[j].id != fid,
    ensures
        find_seg(segs, fid) == Some(segs[i]),
    decreases i,
{
    if i > 0 {
        assert(forall|j: int| 0 <= j < i - 1 ==> segs.drop_first()[j].id != fid);
        lemma_find_seg_at(segs.drop_first(), fid, i - 1);
    }
}

pub proof fn lemma_find_seg_none(segs: Seq<SegV>, fid: u64)
    requires
        forall|j: int| 0 <= j < segs.len() ==> segs[j].id != fid,
    ensures
        find_seg(segs, fid) is None,
    decreases segs.len(),
{
    if segs.len() > 0 {
        assert(forall|j: int| 0 <= j < segs.len() - 1 ==> segs.drop_first()[j].id != fid);
        lemma_find_seg_none(segs.drop_first(), fid);
    }
}

/// Each record of a segment sits at its pointer: decoding at the
/// pointer's start consumes exactly its span and yields the record.
pub proof fn lemma_seg_records_locate(data: Seq<u8>, pos: int, fid: u64, i: int)
    requires
        0 <= pos <= data.len(),
        data.len() <= u64::MAX,
        0 <= i < seg_records(data, pos, fid).len(),
    ensures
        ({
            let (c, lp) = seg_records(data, pos, fid)[i];
            &&& lp.f_id.id == fid
            &&& pos <= lp.start_pos
            &&& 25 <= lp.len
            &&& lp.start_pos + lp.len <= data.len()
            &&& dec_cmd_at(data, lp.start_pos as int) == Some((c, lp.start_pos + lp.len))
        }),
    decreases data.len() - pos,
{
    match dec_cmd_at(data, pos) {
        Some((c0, p2)) => {
            lemma_enc_of_dec(data, pos);
            if i > 0 {
                lemma_seg_records_locate(data, p2, fid, i - 1);
            }
        },
        None => {},
    }
}

/// A segment found in a run is still found when more segments follow.
pub proof fn lemma_find_seg_concat(a: Seq<SegV>, b: Seq<SegV>, fid: u64)
    requires
        find_seg(a, fid) is Some,
    ensures
        find_seg(a + b, fid) == find_seg(a, fid),
    decreases a.len(),
{
    if a[0].id == fid {
        assert((a + b)[0] == a[0]);
    } else {
        assert((a + b).drop_first() =~= a.drop_first() + b);
        lemma_find_seg_concat(a.drop_first(), b, fid);
    }
}

/// Each record of a run sits in the segment its pointer names, which
/// a scan by identifier finds, and a bounded read of its span yields
/// it.
pub proof fn lemma_records_locate(segs: Seq<SegV>, i: int)
    requires
        forall|a: int, b: int| 0 <= a < b < segs.len() ==> segs[a].id < segs[b].id,
        forall|a: int| 0 <= a < segs.len() ==> #[trigger] segs[a].data.len() <= u64::MAX,
        0 <= i < segs_records(segs).len(),
    ensures
        ({
            let (c, lp) = segs_records(segs)[i];
            &&& find_seg(segs, lp.f_id.id) is Some
            &&& dec_bounded(
                find_seg(segs, lp.f_id.id)->Some_0.data,
                lp.start_pos as int,
                lp.len as int,
            ) == Some(c)
        }),
    decreases segs.len(),
{
    let t = segs.drop_last();
    let pre = segs_records(t);
    if i < pre.len() {
        assert(forall|a: int| 0 <= a < t.len() ==> t[a] == segs[a]);
        lemma_records_locate(t, i);
        let (c, lp) = segs_records(segs)[i];
        assert((c, lp) == pre[i]);
        lemma_find_seg_concat(t, seq![segs.last()], lp.f_id.id);
        assert(t + seq![segs.last()] =~= segs);
    } else {
        let last = segs.last();
        lemma_seg_records_locate(last.data, 0, last.id, i - pre.len());
        let (c, lp) = segs_records(segs)[i];
        assert((c, lp) == seg_records(last.data, 0, last.id)[i - pre.len()]);
        assert(forall|j: int| 0 <= j < segs.len() - 1 ==> segs[j].id < last.id);
        lemma_find_seg_at(segs, last.id, segs.len() - 1);
    }
}

/// A segment splits at any whole-record boundary: the records are
/// those of the prefix followed by those read from the boundary on,
/// and greedy decoding of the whole continues past the boundary.
pub proof fn lemma_seg_records_split(data: Seq<u8>, q: int, pos: int, fid: u64)
    requires
        0 <= q <= pos <= data.len(),
        decoded_end(data.take(pos), q) == pos,
    ensures
        seg_records(data, q, fid) == seg_records(data.take(pos), q, fid) + seg_records(
            data,
            pos,
            fid,
        ),
        decoded_end(data, q) == decoded_end(data, pos),
    decreases pos - q,
{
    let t = data.take(pos);
    match dec_cmd_at(t, q) {
        Some((c, p2)) => {
            lemma_enc_of_dec(t, q);
            assert(data.subrange(q, p2) =~= t.subrange(q, p2));
            lemma_dec_of_enc(data, q, c);
            lemma_seg_records_split(data, p2, pos, fid);
            assert(seg_records(data, q, fid) =~= seg_records(t, q, fid) + seg_records(
                data,
                pos,
                fid,
            ));
        },
        None => {
            assert(q == pos);
            assert(seg_records(t, q, fid) =~= Seq::<(CmdV, LogPointer)>::empty());
            assert(seg_records(data, q, fid) =~= seg_records(t, q, fid) + seg_records(
                data,
                pos,
                fid,
            ));
        },
    }
}

/// If replay conflicts at a record of one segment, replay of the
/// whole run is undefined.
proof fn lemma_conflict_aborts(
    segs: Seq<SegV>,
    si: int,
    data0: Seq<u8>,
    fid: u64,
    pos: int,
    next: int,
    c: CmdV,
    lp: LogPointer,
    m: Map<Seq<char>, LiveV>,
)
    requires
        0 <= si < segs.len(),
        segs[si].data == data0,
        segs[si].id == fid,
        data0.len() <= u64::MAX,
        0 <= pos < next <= data0.len(),
        decoded_end(data0.take(pos), 0) == pos,
        dec_cmd_at(data0, pos) == Some((c, next)),
        lp == (LogPointer {
            start_pos: pos as u64,
            len: (next - pos) as u64,
            f_id: FileId { id: fid },
        }),
        replay(segs_records(segs.take(si)) + seg_records(data0.take(pos), 0, fid)) == Some(m),
        replay_step(m, c, lp) is None,
    ensures
        replay(segs_records(segs)) is None,
{
    let pre = segs_records(segs.take(si));
    let rs0 = pre + seg_records(data0.take(pos), 0, fid);
    assert((rs0 + seq![(c, lp)]).drop_last() =~= rs0);
    assert(replay(rs0 + seq![(c, lp)]) is None);
    lemma_seg_records_split(data0, 0, pos, fid);
    assert(seg_records(data0, pos, fid) == seq![(c, lp)] + seg_records(data0, next, fid));
    assert(segs.take(si) + segs.skip(si) =~= segs);
    lemma_segs_records_concat(segs.take(si), segs.skip(si));
    let tail = segs.skip(si);
    assert(tail[0] == segs[si]);
    assert(seq![tail[0]] + tail.drop_first() =~= tail);
    lemma_segs_records_concat(seq![tail[0]], tail.drop_first());
    assert(segs_records(seq![tail[0]]) =~= seg_records(data0, 0, fid)) by {
        let single = seq![tail[0]];
        assert(single.drop_last().len() == 0);
        assert(segs_records(single.drop_last()) =~= Seq::<(CmdV, LogPointer)>::empty());
        assert(single.last() == tail[0]);
    }
    let ext = seg_records(data0, next, fid) + segs_records(tail.drop_first());
    assert(segs_records(segs) =~= (rs0 + seq![(c, lp)]) + ext);
    lemma_replay_none_extend(rs0 + seq![(c, lp)], ext);
}

/// A live index entry agrees with the log: the live map binds its key
/// to its pointer and sequencer, the pointed-at segment exists, and a
/// bounded read of the span yields the `Put` that wrote the live
/// value.
pub open spec fn entry_ok(segs: Seq<SegV>, e: IndexEntry, m: Map<Seq<char>, LiveV>) -> bool {
    &&& m.contains_key(e.key@)
    &&& m[e.key@].lp == e.lp
    &&& m[e.key@].seq == e.seq.timestamp
    &&& find_seg(segs, e.lp.f_id.id) is Some
    &&& dec_bounded(
        find_seg(segs, e.lp.f_id.id)->Some_0.data,
        e.lp.start_pos as int,
        e.lp.len as int,
    ) == Some(
        CmdV::Put { key: e.key@, value: m[e.key@].value, sequencer: e.seq.timestamp },
    )
}

/// A replay step and an index update agree: they conflict together,
/// and the updated pointer map is the index update's result.
pub proof fn lemma_step_ptr(m: Map<Seq<char>, LiveV>, c: CmdV, lp: LogPointer)
    ensures
        replay_step(m, c, lp) is None <==> crate::index::update_model(ptr_map(m), c, lp) is None,
        replay_step(m, c, lp) matches Some(m2) ==> crate::index::update_model(ptr_map(m), c, lp)
            == Some(ptr_map(m2)),
{
    match replay_step(m, c, lp) {
        Some(m2) => {
            match c {
                CmdV::Put { key, value, sequencer } => {
                    assert(ptr_map(m2) =~= ptr_map(m).insert(key, (lp, sequencer)));
                },
                CmdV::Rm { key, .. } => {
                    assert(ptr_map(m2) =~= ptr_map(m).remove(key));
                },
            }
        },
        None => {},
    }
}

/// Every live entry comes from a `Put` record in the stream.
pub proof fn lemma_replay_entry(rs: Seq<(CmdV, LogPointer)>)
    requires
        replay(rs) is Some,
    ensures
        forall|k: Seq<char>|
            #[trigger] replay(rs)->Some_0.contains_key(k) ==> exists|i: int|
                0 <= i < rs.len() && #[trigger] rs[i] == (
                CmdV::Put {
                    key: k,
                    value: replay(rs)->Some_0[k].value,
                    sequencer: replay(rs)->Some_0[k].seq,
                },
                replay(rs)->Some_0[k].lp,
                ),
    decreases rs.len(),
{
    if rs.len() > 0 {
        let t = rs.drop_last();
        let m0 = replay(t)->Some_0;
        let m = replay(rs)->Some_0;
        lemma_replay_entry(t);
        assert forall|k: Seq<char>| #[trigger] m.contains_key(k) implies exists|i: int|
            0 <= i < rs.len() && #[trigger] rs[i] == (
            CmdV::Put { key: k, value: m[k].value, sequencer: m[k].seq },
            m[k].lp,
            ) by {
            let (c, lp) = rs.last();
            if c is Put && k == c.key() {
                assert(rs[rs.len() - 1] == (
                    CmdV::Put { key: k, value: m[k].value, sequencer: m[k].seq },
                    m[k].lp,
                ));
            } else {
                assert(m0.contains_key(k) && m0[k] == m[k]);
                let i = choose|i: int|
                    0 <= i < t.len() && #[trigger] t[i] == (
                    CmdV::Put { key: k, value: m0[k].value, sequencer: m0[k].seq },
                    m0[k].lp,
                    );
                assert(rs[i] == t[i]);
            }
        }
    }
}

/// The bytes a run of segments holds in all.
pub open spec fn segs_bytes(segs: Seq<SegV>) -> int
    decreases segs.len(),
{
    if segs.len() == 0 {
        0
    } else {
        segs_bytes(segs.drop_last()) + segs.last().data.len()
    }
}

/// The mathematical form of a whole listing of segments.
pub open spec fn seg_views(s: Seq<Segment>) -> Seq<SegV> {
    s.map_values(|sg: Segment| sg@)
}

/// Pairwise distinct segment identifiers.
pub open spec fn ids_distinct(s: Seq<Segment>) -> bool {
    forall|i: int, j: int| 0 <= i < j < s.len() ==> s[i].f_id.id != s[j].f_id.id
}

/// Segment identifiers in strictly increasing order.
pub open spec fn ids_sorted(s: Seq<Segment>) -> bool {
    forall|i: int, j: int| 0 <= i < j < s.len() ==> s[i].f_id.id < s[j].f_id.id
}

/// Inserting anywhere adds exactly one occurrence to the multiset.
proof fn lemma_insert_to_multiset(s: Seq<SegV>, p: int, x: SegV)
    requires
        0 <= p <= s.len(),
    ensures
        s.insert(p, x).to_multiset() == s.to_multiset().insert(x),
{
    broadcast use vstd::seq_lib::group_to_multiset_ensures;

    assert(s.insert(p, x) =~= s.take(p) + (seq![x] + s.skip(p)));
    vstd::seq_lib::lemma_multiset_commutative(s.take(p), seq![x] + s.skip(p));
    vstd::seq_lib::lemma_multiset_commutative(seq![x], s.skip(p));
    vstd::seq_lib::lemma_multiset_commutative(s.take(p), s.skip(p));
    assert(s =~= s.take(p) + s.skip(p));
    assert(seq![x] =~= Seq::<SegV>::empty().push(x));
    assert(seq![x].to_multiset() =~= vstd::multiset::Multiset::<SegV>::empty().insert(x));
    assert(s.insert(p, x).to_multiset() =~= s.to_multiset().insert(x));
}

/// A nonzero maximum identifier is attained by some listed segment.
pub proof fn lemma_max_fid_member(s: Seq<Segment>)
    ensures
        max_fid(s) == 0 || exists|j: int| 0 <= j < s.len() && #[trigger] s[j].f_id.id == max_fid(
            s,
        ),
    decreases s.len(),
{
    if s.len() > 0 {
        if s.last().f_id.id >= max_fid(s.drop_last()) {
            assert(s[s.len() - 1].f_id.id == max_fid(s));
        } else {
            lemma_max_fid_member(s.drop_last());
            if max_fid(s) != 0 {
                let j = choose|j: int|
                    0 <= j < s.drop_last().len() && #[trigger] s.drop_last()[j].f_id.id == max_fid(
                        s.drop_last(),
                    );
                assert(s[j].f_id.id == max_fid(s));
            }
        }
    }
}

/// The largest identifier a listing carries; zero when it is empty.
pub open spec fn max_fid(s: Seq<Segment>) -> int
    decreases s.len(),
{
    if s.len() == 0 {
        0
    } else if s.last().f_id.id >= max_fid(s.drop_last()) {
        s.last().f_id.id as int
    } else {
        max_fid(s.drop_last())
    }
}

/// The segment-size threshold: the active segment seals once a write
/// leaves it holding more than this many bytes.
pub const MAX_LOG_SIZE: u64 = 1024 * 32;

/// The storage engine: the ordered run of segments, of which the last
/// is the single active writer target. The embedding program mirrors
/// every change of the run to the data directory.
pub struct Storage {
    segments: Vec<Segment>,
    current_f_id: FileId,
}

impl View for Storage {
    type V = Seq<SegV>;

    closed spec fn view(&self) -> Seq<SegV> {
        self.segments@.map_values(|s: Segment| s@)
    }
}

impl Storage {
    /// The identifier of the active segment.
    pub closed spec fn current_id(self) -> u64 {
        self.current_f_id.id
    }

    /// Well-formedness: at least the active segment exists, identifiers
    /// strictly increase, the last segment is the active one, and the
    /// active segment has not outgrown the threshold.
    pub open spec fn wf(self) -> bool {
        &&& self@.len() >= 1
        &&& forall|i: int, j: int| 0 <= i < j < self@.len() ==> self@[i].id < self@[j].id
        &&& self@.last().id == self.current_id()
        &&& self@.last().data.len() < MAX_LOG_SIZE
        &&& forall|i: int| 0 <= i < self@.len() ==> #[trigger] self@[i].data.len() <= u64::MAX
    }

    /// Every segment consists of whole records.
    pub open spec fn all_decoded(self) -> bool {
        forall|i: int|
            0 <= i < self@.len() ==> #[trigger] decoded_end(self@[i].data, 0) == self@[i].data.len()
    }

    /// The records of all segments, in log order.
    pub open spec fn records(self) -> Seq<(CmdV, LogPointer)> {
        segs_records(self@)
    }

    /// Builds the engine over the segments found in the data
    /// directory, which must carry pairwise distinct identifiers, and
    /// opens a fresh active segment numbered one past the largest
    /// existing identifier (one, if none exists). Fails with `Io` only
    /// when the identifier space is exhausted. A directory already in
    /// identifier order is kept as it stands; any other is sorted.
    pub fn new(dir: Vec<Segment>) -> (r: Result<Storage, KvError>)
        requires
            ids_distinct(dir@),
            forall|j: int| 0 <= j < dir@.len() ==> #[trigger] dir@[j].data@.len() <= u64::MAX,
        ensures
            r is Err <==> exists|j: int|
                0 <= j < dir@.len() && #[trigger] dir@[j].f_id.id == u64::MAX,
            r matches Err(e) ==> e == KvError::Io,
            r matches Ok(s) ==> {
                &&& s.wf()
                &&& s@.len() == dir@.len() + 1
                &&& s@.last().data.len() == 0
                &&& forall|j: int|
                    0 <= j < dir@.len() ==> #[trigger] dir@[j].f_id.id < s.current_id()
                &&& s.current_id() == max_fid(dir@) + 1
                &&& s@.take(dir@.len() as int).to_multiset() == seg_views(dir@).to_multiset()
                &&& ids_sorted(dir@) ==> s@ == seg_views(dir@) + seq![
                    SegV { id: s.current_id(), data: Seq::<u8>::empty() },
                ]
            },
    {
        let ghost dir0 = dir@;
        let mut m: u64 = 0;
        let mut j: usize = 0;
        while j < dir.len()
            invariant
                0 <= j <= dir@.len(),
                dir@ == dir0,
                forall|j2: int| 0 <= j2 < j ==> #[trigger] dir0[j2].f_id.id <= m,
                m == max_fid(dir0.take(j as int)),
            decreases dir@.len() - j,
        {
            if dir[j].f_id.id > m {
                m = dir[j].f_id.id;
            }
            proof {
                assert(dir0.take(j + 1 as int).drop_last() =~= dir0.take(j as int));
                assert(dir0.take(j + 1 as int).last() == dir0[j as int]);
            }
            j = j + 1;
        }
        proof {
            assert(dir0.take(dir0.len() as int) =~= dir0);
        }
        if m == u64::MAX {
            proof {
                lemma_max_fid_member(dir0);
            }
            return Err(KvError::Io);
        }
        let mut rest = dir;
        let mut sorted: Vec<Segment> = Vec::new();
        proof {
            assert(seg_views(sorted@) =~= Seq::<SegV>::empty());
            assert(seg_views(dir0.skip(dir0.len() as int)) =~= Seq::<SegV>::empty());
        }
        while rest.len() > 0
            invariant
                ids_distinct(dir0),
                forall|j2: int| 0 <= j2 < dir0.len() ==> #[trigger] dir0[j2].f_id.id <= m,
                rest@ == dir0.take(rest@.len() as int),
                sorted@.len() + rest@.len() == dir0.len(),
                forall|i: int, j2: int|
                    0 <= i < j2 < sorted@.len() ==> sorted@[i].f_id.id < sorted@[j2].f_id.id,
                forall|i: int, j2: int|
                    #![trigger sorted@[i], rest@[j2]]
                    0 <= i < sorted@.len() && 0 <= j2 < rest@.len() ==> sorted@[i].f_id.id
                        != rest@[j2].f_id.id,
                forall|i: int| 0 <= i < sorted@.len() ==> #[trigger] sorted@[i].f_id.id <= m,
                forall|j2: int| 0 <= j2 < dir0.len() ==> #[trigger] dir0[j2].data@.len() <= u64::MAX,
                forall|i: int| 0 <= i < sorted@.len() ==> #[trigger] sorted@[i].data@.len() <= u64::MAX,
                seg_views(sorted@).to_multiset() == seg_views(dir0.skip(
                    rest@.len() as int,
                )).to_multiset(),
                ids_sorted(dir0) ==> sorted@ == dir0.skip(rest@.len() as int),
            decreases rest.len(),
        {
            let ghost l0 = rest@.len() as int;
            let seg = rest.pop().unwrap();
            proof {
                assert(seg == dir0[l0 - 1]);
                assert(rest@ =~= dir0.take(l0 - 1));
            }
            let ghost s0 = sorted@;
            insert_sorted(&mut sorted, seg);
            proof {
                let p = choose|p: int| 0 <= p <= s0.len() && sorted@ == s0.insert(p, seg);
                assert forall|i: int, j2: int|
                    #![trigger sorted@[i], rest@[j2]]
                    0 <= i < sorted@.len() && 0 <= j2 < rest@.len() implies sorted@[i].f_id.id
                    != rest@[j2].f_id.id by {
                    assert(rest@[j2] == dir0[j2]);
                    if i < p {
                        assert(sorted@[i] == s0[i]);
                    } else if i > p {
                        assert(sorted@[i] == s0[i - 1]);
                    } else {
                        assert(sorted@[i] == dir0[l0 - 1]);
                        assert(dir0[j2].f_id.id != dir0[l0 - 1].f_id.id);
                    }
                }
                assert forall|i: int|
                    0 <= i < sorted@.len() implies #[trigger] sorted@[i].f_id.id <= m
                        && sorted@[i].data@.len() <= u64::MAX by {
                    if i < p {
                        assert(sorted@[i] == s0[i]);
                    } else if i > p {
                        assert(sorted@[i] == s0[i - 1]);
                    } else {
                        assert(sorted@[i] == dir0[l0 - 1]);
                    }
                }
                assert forall|i: int|
                    0 <= i < sorted@.len() implies #[trigger] sorted@[i].data@.len()
                        <= u64::MAX by {
                    assert(sorted@[i].f_id.id <= m && sorted@[i].data@.len() <= u64::MAX);
                }
                broadcast use vstd::seq_lib::group_to_multiset_ensures;

                assert(seg_views(sorted@) =~= seg_views(s0).insert(p, seg@));
                lemma_insert_to_multiset(seg_views(s0), p, seg@);
                assert(seg_views(dir0.skip(l0 - 1)) =~= seq![seg@] + seg_views(dir0.skip(l0)));
                vstd::seq_lib::lemma_multiset_commutative(seq![seg@], seg_views(dir0.skip(l0)));
                assert(seq![seg@] =~= Seq::<SegV>::empty().push(seg@));
                assert(seq![seg@].to_multiset() =~= vstd::multiset::Multiset::<SegV>::empty(
                ).insert(seg@));
                assert(seg_views(sorted@).to_multiset() =~= seg_views(
                    dir0.skip(l0 - 1),
                ).to_multiset());
                if ids_sorted(dir0) {
                    assert(s0 == dir0.skip(l0));
                    if p != 0 {
                        assert(sorted@[p - 1] == s0[p - 1]);
                        assert(sorted@[p] == seg);
                        assert(s0[p - 1].f_id.id < seg.f_id.id);
                        assert(s0[p - 1] == dir0[l0 + p - 1]);
                        assert(dir0[l0 - 1].f_id.id < dir0[l0 + p - 1].f_id.id);
                        assert(false);
                    }
                    assert(sorted@ =~= dir0.skip(l0 - 1));
                }
            }
        }
        proof {
            assert(sorted@.len() == dir0.len());
            if ids_sorted(dir0) {
                assert(sorted@ =~= dir0);
            }
        }
        let active_id = FileId { id: m + 1 };
        let ghost pre_push = seg_views(sorted@);
        sorted.push(Segment { f_id: active_id, data: Vec::new() });
        let s = Storage { segments: sorted, current_f_id: active_id };
        proof {
            assert(s@.len() == dir0.len() + 1);
            assert(s@.take(dir0.len() as int) =~= pre_push);
            assert(seg_views(dir0.skip(0)) =~= seg_views(dir0));
            assert(forall|i: int| 0 <= i < s@.len() ==> s@[i] == #[trigger] s.segments@[i]@);
            assert(s@.last().data =~= Seq::<u8>::empty());
            if ids_sorted(dir0) {
                assert(s@ =~= seg_views(dir0) + seq![
                    SegV { id: s.current_id(), data: Seq::<u8>::empty() },
                ]);
            }
        }
        Ok(s)
    }

    /// The run of segments, handed back to the embedding program so
    /// it can mirror or persist them.
    pub fn into_parts(self) -> (r: Vec<Segment>)
        ensures
            seg_views(r@) == self@,
    {
        self.segments
    }

    /// How many bytes the log holds, over all segments.
    pub fn total_bytes(&self) -> (r: u128)
        ensures
            r == segs_bytes(self@),
    {
        let mut acc: u128 = 0;
        let mut i: usize = 0;
        while i < self.segments.len()
            invariant
                0 <= i <= self@.len(),
                self@ == self.segments@.map_values(|s: Segment| s@),
                acc == segs_bytes(self@.take(i as int)),
                acc <= (i as int) * 0x1_0000_0000_0000_0000,
            decreases self@.len() - i,
        {
            let l = self.segments[i].data.len();
            proof {
                let b: int = 0x1_0000_0000_0000_0000;
                assert(acc + l <= (i + 1) * b) by (nonlinear_arith)
                    requires
                        acc <= (i as int) * b,
                        l < b,
                        b == 0x1_0000_0000_0000_0000,
                        i >= 0,
                ;
                assert((i + 1) * b <= 0x1_0000_0000_0000_0000 * 0x1_0000_0000_0000_0000)
                    by (nonlinear_arith)
                    requires
                        0 <= i + 1 <= 0x1_0000_0000_0000_0000,
                        b == 0x1_0000_0000_0000_0000,
                ;
                assert(self@.take(i + 1 as int).drop_last() =~= self@.take(i as int));
            }
            acc = acc + l as u128;
            i = i + 1;
        }
        proof {
            assert(self@.take(self@.len() as int) =~= self@);
        }
        acc
    }

    /// Whether the facade should compact now: more than four segments
    /// exist (the active one included).
    pub fn should_compaction(&mut self) -> (r: bool)
        ensures
            final(self)@ == old(self)@,
            final(self).current_id() == old(self).current_id(),
            r == (old(self)@.len() > 4),
    {
        self.segments.len() > 4
    }

    /// Reads the command a pointer locates. Fails with `KeyNotFound`
    /// when no segment carries the pointer's identifier, and with
    /// `Codec` when the pointed-at span does not hold exactly one
    /// record.
    pub fn get(&mut self, lp: &LogPointer) -> (r: Result<Command, KvError>)
        ensures
            final(self)@ == old(self)@,
            final(self).current_id() == old(self).current_id(),
            ({
                match find_seg(old(self)@, lp.f_id.id) {
                    None => r == Err::<Command, KvError>(KvError::KeyNotFound),
                    Some(seg) => {
                        match dec_bounded(seg.data, lp.start_pos as int, lp.len as int) {
                            Some(cv) => r matches Ok(c) && c@ == cv,
                            None => r == Err::<Command, KvError>(KvError::Codec),
                        }
                    },
                }
            }),
    {
        let mut i: usize = 0;
        while i < self.segments.len()
            invariant
                0 <= i <= self@.len(),
                self@ == self.segments@.map_values(|s: Segment| s@),
                forall|j: int| 0 <= j < i ==> self@[j].id != lp.f_id.id,
            decreases self@.len() - i,
        {
            if self.segments[i].f_id.id == lp.f_id.id {
                proof {
                    lemma_find_seg_at(self@, lp.f_id.id, i as int);
                }
                let seg = &self.segments[i];
                let dlen = seg.data.len();
                if lp.start_pos > dlen as u64 || lp.len > dlen as u64 - lp.start_pos {
                    proof {
                        if dec_cmd_at(seg.data@, lp.start_pos as int) is Some {
                            lemma_enc_of_dec(seg.data@, lp.start_pos as int);
                        }
                    }
                    return Err(KvError::Codec);
                }
                let start = lp.start_pos as usize;
                match crate::codec::decode_command(&seg.data, start) {
                    Ok((c, next)) => {
                        if (next - start) as u64 == lp.len {
                            return Ok(c);
                        } else {
                            return Err(KvError::Codec);
                        }
                    },
                    Err(_) => {
                        return Err(KvError::Codec);
                    },
                }
            }
            i = i + 1;
        }
        proof {
            lemma_find_seg_none(self@, lp.f_id.id);
        }
        Err(KvError::KeyNotFound)
    }

    /// Replays every segment in identifier order into an empty index,
    /// forming each record's pointer from the decoder's positions
    /// before and after the record. Replay of a segment stops at its
    /// first undecodable byte and the segment is cut there, so a log
    /// whose last record was half written opens up to the last whole
    /// record. A conflict during replay indicates a corrupted log and
    /// is reported as `Conflict`.
    #[verifier::rlimit(100)]
    pub fn build_index(&mut self, index: &mut Index) -> (r: Result<(), KvError>)
        requires
            old(self).wf(),
            old(index)@.len() == 0,
        ensures
            final(self).wf(),
            final(self).current_id() == old(self).current_id(),
            final(self)@.len() == old(self)@.len(),
            forall|i: int|
                0 <= i < old(self)@.len() ==> #[trigger] final(self)@[i].id == old(self)@[i].id,
            forall|i: int|
                0 <= i < old(self)@.len() ==> #[trigger] final(self)@[i].data == old(
                    self,
                )@[i].data || final(self)@[i].data == old(self)@[i].data.take(
                    decoded_end(old(self)@[i].data, 0),
                ),
            final(index).wf(),
            r is Ok <==> replay(final(self).records()) is Some,
            r is Ok ==> {
                &&& final(self).all_decoded()
                &&& forall|i: int|
                    0 <= i < old(self)@.len() ==> #[trigger] final(self)@[i].data == old(
                        self,
                    )@[i].data.take(decoded_end(old(self)@[i].data, 0))
                &&& ptr_map(replay(final(self).records())->Some_0) == final(index).as_map()
            },
            r matches Err(e) ==> e == KvError::Conflict,
    {
        let ghost segs0 = old(self)@;
        let ghost mut m: Map<Seq<char>, LiveV> = Map::empty();
        proof {
            assert(self@.take(0) =~= Seq::<SegV>::empty());
        }
        let n = self.segments.len();
        let mut si: usize = 0;
        while si < n
            invariant
                old(self).wf(),
                self.wf(),
                segs0 == old(self)@,
                0 <= si <= n,
                n == self@.len(),
                self@.len() == segs0.len(),
                self.current_id() == old(self).current_id(),
                forall|i: int| si <= i < n ==> #[trigger] self@[i] == segs0[i],
                forall|i: int|
                    #![trigger self@[i]]
                    0 <= i < si ==> self@[i].id == segs0[i].id && self@[i].data
                        == segs0[i].data.take(decoded_end(segs0[i].data, 0)) && decoded_end(
                        self@[i].data,
                        0,
                    ) == self@[i].data.len(),
                index.wf(),
                replay(segs_records(self@.take(si as int))) == Some(m),
                ptr_map(m) == index.as_map(),
            decreases n - si,
        {
            let ghost data0 = self@[si as int].data;
            let dlen = self.segments[si].data.len();
            let fid = self.segments[si].f_id;
            let ghost pre = segs_records(self@.take(si as int));
            let mut pos: usize = 0;
            let mut stopped = false;
            proof {
                assert(data0.take(0) =~= Seq::<u8>::empty());
                assert(seg_records(data0.take(0), 0, fid.id) =~= Seq::<(CmdV, LogPointer)>::empty());
                assert(pre + seg_records(data0.take(0), 0, fid.id) =~= pre);
            }
            while pos < dlen && !stopped
                invariant
                    old(self).wf(),
                    self.wf(),
                    segs0 == old(self)@,
                    0 <= si < n,
                    n == self@.len(),
                    self@.len() == segs0.len(),
                    self.current_id() == old(self).current_id(),
                    forall|i: int| si <= i < n ==> #[trigger] self@[i] == segs0[i],
                    forall|i: int|
                        #![trigger self@[i]]
                        0 <= i < si ==> self@[i].id == segs0[i].id && self@[i].data
                            == segs0[i].data.take(decoded_end(segs0[i].data, 0)) && decoded_end(
                            self@[i].data,
                            0,
                        ) == self@[i].data.len(),
                    data0 == self@[si as int].data,
                    dlen == data0.len(),
                    dlen <= u64::MAX,
                    fid.id == self@[si as int].id,
                    pre == segs_records(self@.take(si as int)),
                    0 <= pos <= dlen,
                    decoded_end(data0.take(pos as int), 0) == pos,
                    index.wf(),
                    replay(pre + seg_records(data0.take(pos as int), 0, fid.id)) == Some(m),
                    ptr_map(m) == index.as_map(),
                    stopped ==> dec_cmd_at(data0, pos as int) is None,
                decreases dlen - pos + if stopped { 0int } else { 1int },
            {
                let seg = &self.segments[si];
                let dr = crate::codec::decode_command(&seg.data, pos);
                match dr {
                    Ok((c, next)) => {
                        let lp = LogPointer {
                            start_pos: pos as u64,
                            len: (next - pos) as u64,
                            f_id: fid,
                        };
                        let ghost rs0 = pre + seg_records(data0.take(pos as int), 0, fid.id);
                        proof {
                            lemma_enc_of_dec(data0, pos as int);
                            assert(data0.take(next as int) =~= data0.take(pos as int)
                                + enc_cmd(c@));
                            lemma_seg_records_append(data0.take(pos as int), 0, c@, fid.id);
                            assert(seg_records(data0.take(next as int), 0, fid.id)
                                == seg_records(data0.take(pos as int), 0, fid.id) + seq![
                                (c@, lp),
                            ]);
                            lemma_step_ptr(m, c@, lp);
                        }
                        match index.update_index(&c, lp) {
                            Ok(()) => {
                                proof {
                                    let m2 = replay_step(m, c@, lp)->Some_0;
                                    assert((rs0 + seq![(c@, lp)]).drop_last() =~= rs0);
                                    assert(replay(rs0 + seq![(c@, lp)]) == Some(m2));
                                    assert(pre + seg_records(data0.take(next as int), 0, fid.id)
                                        =~= rs0 + seq![(c@, lp)]);
                                    m = m2;
                                }
                            },
                            Err(_) => {
                                proof {
                                    lemma_conflict_aborts(
                                        self@,
                                        si as int,
                                        data0,
                                        fid.id,
                                        pos as int,
                                        next as int,
                                        c@,
                                        lp,
                                        m,
                                    );
                                }
                                return Err(KvError::Conflict);
                            },
                        }
                        pos = next;
                    },
                    Err(_) => {
                        stopped = true;
                    },
                }
            }
            let ghost before = self@;
            let segm = &mut self.segments[si];
            segm.data.truncate(pos);
            proof {
                lemma_seg_records_split(data0, 0, pos as int, fid.id);
                if pos < dlen {
                    assert(decoded_end(data0, pos as int) == pos as int);
                } else {
                    assert(data0.take(pos as int) =~= data0);
                }
                assert(decoded_end(data0, 0) == pos as int);
                assert(self.segments@[si as int].data@ == data0.take(pos as int));
                assert(self@ =~= before.update(
                    si as int,
                    SegV { id: fid.id, data: data0.take(pos as int) },
                ));
                assert(self@.take(si as int) =~= before.take(si as int));
                assert(self@.take(si + 1 as int).drop_last() =~= self@.take(si as int));
                assert(self@.take(si + 1 as int).last() == self@[si as int]);
                assert(segs_records(self@.take(si + 1 as int)) == segs_records(self@.take(
                    si as int,
                )) + seg_records(data0.take(pos as int), 0, fid.id));
            }
            si = si + 1;
        }
        proof {
            assert(self@.take(n as int) =~= self@);
            assert forall|i: int, j: int| 0 <= i < j < self@.len() implies self@[i].id
                < self@[j].id by {
                assert(segs0[i].id < segs0[j].id);
            }
        }
        Ok(())
    }

    /// Rewrites every live record into fresh segments and deletes
    /// every segment that existed when it started, reclaiming the
    /// space of superseded records. Sequencers are preserved:
    /// compaction is not a new mutation, and the store's key-value
    /// content is unchanged. Fails with `Io`, leaving everything
    /// unchanged, only when the rewrite cannot be guaranteed room:
    /// the identifier space cannot hold the rolls it may need, or a
    /// live record is too large to place after a fresh rollover.
    #[verifier::rlimit(100)]
    #[verifier::spinoff_prover]
    pub fn compaction(&mut self, index: &mut Index) -> (r: Result<(), KvError>)
        requires
            old(self).wf(),
            old(self).all_decoded(),
            old(index).wf(),
            replay(old(self).records()) is Some,
            ptr_map(replay(old(self).records())->Some_0) == old(index).as_map(),
        ensures
            final(self).wf(),
            final(index).wf(),
            r is Err <==> (old(self).current_id() + old(index)@.len() + 2 > u64::MAX
                || exists|j: int|
                0 <= j < old(index)@.len() && #[trigger] old(index)@[j].lp.len > u64::MAX
                    - MAX_LOG_SIZE),
            r matches Err(e) ==> e == KvError::Io && final(self)@ == old(self)@
                && final(self).current_id() == old(self).current_id()
                && final(index)@ == old(index)@,
            r is Ok ==> {
                &&& final(self).all_decoded()
                &&& replay(final(self).records()) is Some
                &&& ptr_map(replay(final(self).records())->Some_0) == final(index).as_map()
                &&& kv_map(replay(final(self).records())->Some_0) == kv_map(
                    replay(old(self).records())->Some_0,
                )
                &&& final(index)@.len() == old(index)@.len()
                &&& forall|j: int|
                    0 <= j < old(index)@.len() ==> #[trigger] final(index)@[j].key == old(
                        index,
                    )@[j].key && final(index)@[j].seq == old(index)@[j].seq
                        && final(index)@[j].lp.len == old(index)@[j].lp.len
                &&& forall|i: int|
                    0 <= i < final(self)@.len() ==> #[trigger] final(self)@[i].id > old(
                        self,
                    ).current_id()
                &&& final(self).current_id() > old(self).current_id()
                &&& final(self).current_id() <= old(self).current_id() + old(index)@.len() + 1
                &&& segs_bytes(final(self)@) == entries_bytes(old(index)@)
                &&& segs_bytes(old(self)@) > entries_bytes(old(index)@) ==> segs_bytes(
                    final(self)@,
                ) < segs_bytes(old(self)@)
            },
    {
        let n = index.entry_count();
        let stop = self.current_f_id;
        let mut j: usize = 0;
        let mut too_big = false;
        while j < n
            invariant
                0 <= j <= n,
                n == index@.len(),
                too_big == exists|j2: int|
                    0 <= j2 < j && #[trigger] index@[j2].lp.len > u64::MAX - MAX_LOG_SIZE,
            decreases n - j,
        {
            if index.entry_at(j).lp.len > u64::MAX - MAX_LOG_SIZE {
                too_big = true;
                proof {
                    assert(index@[j as int].lp.len > u64::MAX - MAX_LOG_SIZE);
                }
            }
            j = j + 1;
        }
        if too_big || (stop.id as u128) + (n as u128) + 2 > u64::MAX as u128 {
            return Err(KvError::Io);
        }
        let ghost segs_a = self@;
        let ghost model = replay(old(self).records())->Some_0;
        let ghost ix0 = index@;
        proof {
            crate::index::lemma_entries_map(ix0);
            lemma_replay_entry(old(self).records());
            assert forall|j2: int| 0 <= j2 < n implies entry_ok(segs_a, ix0[j2], model) by {
                let e = ix0[j2];
                assert(old(index).as_map()[e.key@] == (e.lp, e.seq.timestamp));
                assert(old(index).as_map().contains_key(e.key@));
                assert(model.contains_key(e.key@));
                assert(model[e.key@].lp == e.lp && model[e.key@].seq == e.seq.timestamp);
                let ri = choose|ri: int|
                    0 <= ri < old(self).records().len() && #[trigger] old(self).records()[ri] == (
                    CmdV::Put {
                        key: e.key@,
                        value: model[e.key@].value,
                        sequencer: model[e.key@].seq,
                    },
                    model[e.key@].lp,
                    );
                lemma_records_locate(segs_a, ri);
            }
        }
        let nid = stop.inc();
        self.segments.push(Segment { f_id: nid, data: Vec::new() });
        self.current_f_id = nid;
        let ghost mut m_b: Map<Seq<char>, LiveV> = Map::empty();
        proof {
            assert(self@.drop_last() =~= segs_a);
            assert(self@.last().data =~= Seq::<u8>::empty());
            assert(seg_records(self@.last().data, 0, nid.id) =~= Seq::<(CmdV, LogPointer)>::empty());
            assert(self@.take(segs_a.len() as int) =~= segs_a);
            assert(self@.skip(segs_a.len() as int) =~= seq![self@.last()]);
            assert forall|a: int, b: int| 0 <= a < b < self@.len() implies self@[a].id
                < self@[b].id by {
                if b < self@.len() - 1 {
                    assert(self@[a] == segs_a[a] && self@[b] == segs_a[b]);
                } else if a < self@.len() - 1 {
                    assert(self@[a] == segs_a[a]);
                    if a < segs_a.len() - 1 {
                        assert(segs_a[a].id < segs_a[segs_a.len() - 1].id);
                    }
                }
            }
            assert forall|a: int|
                0 <= a < self@.len() implies #[trigger] self@[a].data.len() <= u64::MAX by {
                if a < self@.len() - 1 {
                    assert(self@[a] == segs_a[a]);
                }
            }
            assert forall|a: int|
                0 <= a < self@.len() implies #[trigger] decoded_end(self@[a].data, 0)
                == self@[a].data.len() by {
                if a < self@.len() - 1 {
                    assert(self@[a] == segs_a[a]);
                } else {
                    assert(dec_cmd_at(self@[a].data, 0) is None);
                }
            }
            assert(segs_records(seq![self@.last()]) =~= Seq::<(CmdV, LogPointer)>::empty()) by {
                let single = seq![self@.last()];
                assert(single.drop_last().len() == 0);
                assert(segs_records(single.drop_last()) =~= Seq::<(CmdV, LogPointer)>::empty());
            }
            assert(segs_bytes(seq![self@.last()]) == 0) by {
                let single = seq![self@.last()];
                assert(single.drop_last().len() == 0);
                assert(segs_bytes(single.drop_last()) == 0);
            }
            assert(entries_bytes(ix0.take(0)) == 0);
        }
        let mut i: usize = 0;
        while i < n
            invariant
                0 <= i <= n,
                n == index@.len(),
                n == ix0.len(),
                index.wf(),
                self.wf(),
                self.all_decoded(),
                forall|j2: int|
                    0 <= j2 < n ==> #[trigger] index@[j2].key == ix0[j2].key && index@[j2].seq
                        == ix0[j2].seq && index@[j2].lp.len == ix0[j2].lp.len,
                forall|j2: int| i <= j2 < n ==> #[trigger] index@[j2].lp == ix0[j2].lp,
                forall|j2: int| 0 <= j2 < n ==> #[trigger] ix0[j2].lp.len <= u64::MAX
                    - MAX_LOG_SIZE,
                forall|j2: int| 0 <= j2 < n ==> entry_ok(segs_a, ix0[j2], model),
                keys_distinct(ix0),
                self@.len() > segs_a.len(),
                self@.take(segs_a.len() as int) == segs_a,
                self@[segs_a.len() as int].id == stop.id + 1,
                self.current_id() <= stop.id + 1 + i,
                stop.id + n + 2 <= u64::MAX,
                segs_a.len() >= 1,
                segs_a.last().id == stop.id,
                forall|a: int, b: int| 0 <= a < b < segs_a.len() ==> segs_a[a].id < segs_a[b].id,
                forall|a: int| 0 <= a < segs_a.len() ==> #[trigger] segs_a[a].data.len()
                    <= u64::MAX,
                replay(segs_records(self@.skip(segs_a.len() as int))) == Some(m_b),
                segs_bytes(self@.skip(segs_a.len() as int)) == entries_bytes(ix0.take(i as int)),
                forall|j2: int|
                    #![trigger index@[j2]]
                    0 <= j2 < i ==> m_b.contains_key(ix0[j2].key@) && m_b[ix0[j2].key@] == (LiveV {
                        value: model[ix0[j2].key@].value,
                        lp: index@[j2].lp,
                        seq: ix0[j2].seq.timestamp,
                    }),
                forall|k: Seq<char>|
                    #[trigger] m_b.contains_key(k) ==> exists|j2: int|
                        0 <= j2 < i && #[trigger] ix0[j2].key@ == k,
            decreases n - i,
        {
            let e_lp = index.entry_at(i).lp;
            proof {
                assert(entry_ok(segs_a, ix0[i as int], model));
                lemma_find_seg_concat(
                    segs_a,
                    self@.skip(segs_a.len() as int),
                    e_lp.f_id.id,
                );
                assert(segs_a + self@.skip(segs_a.len() as int) =~= self@);
            }
            let cmd = match self.get(&e_lp) {
                Ok(c) => c,
                Err(_) => {
                    proof {
                        assert(false);
                    }
                    return Err(KvError::Io);
                },
            };
            proof {
                lemma_enc_of_dec(
                    find_seg(segs_a, e_lp.f_id.id)->Some_0.data,
                    e_lp.start_pos as int,
                );
                lemma_enc_cmd_len(cmd@);
                assert(enc_cmd_len(cmd@) == e_lp.len);
            }
            let ghost mid = self@;
            let ghost m_b0 = m_b;
            let lp2 = match self.mutate(cmd) {
                Ok(lp2) => lp2,
                Err(_) => {
                    proof {
                        assert(false);
                    }
                    return Err(KvError::Io);
                },
            };
            proof {
                assert(self@.take(segs_a.len() as int) =~= segs_a);
                let b0 = mid.skip(segs_a.len() as int);
                let b1 = self@.skip(segs_a.len() as int);
                lemma_segs_records_concat(segs_a, b0);
                lemma_segs_records_concat(segs_a, b1);
                assert(segs_a + b0 =~= mid);
                assert(segs_a + b1 =~= self@);
                assert(segs_records(mid).push((cmd@, lp2)) =~= segs_records(segs_a) + (
                segs_records(b0).push((cmd@, lp2))));
                assert(segs_records(b1).len() == segs_records(b0).len() + 1);
                let pl = segs_records(segs_a).len() as int;
                assert forall|q: int|
                    0 <= q < segs_records(b1).len() implies segs_records(b1)[q] == segs_records(
                    b0,
                ).push((cmd@, lp2))[q] by {
                    assert((segs_records(segs_a) + segs_records(b1))[pl + q] == segs_records(
                        b1,
                    )[q]);
                    assert((segs_records(segs_a) + segs_records(b0).push((cmd@, lp2)))[pl + q]
                        == segs_records(b0).push((cmd@, lp2))[q]);
                }
                assert(segs_records(b1) =~= segs_records(b0).push((cmd@, lp2)));
                assert(segs_records(b1).drop_last() =~= segs_records(b0));
                assert(segs_bytes(b1) == segs_bytes(b0) + ix0[i as int].lp.len) by {
                    let el = enc_cmd_len(cmd@);
                    if self@.len() == mid.len() {
                        assert(b1.drop_last() =~= b0.drop_last());
                        assert(b1.last().data.len() == b0.last().data.len() + el);
                    } else {
                        assert(b1.drop_last().drop_last() =~= b0.drop_last());
                        assert(b1.drop_last().last().data.len() == b0.last().data.len() + el);
                        assert(b1.last().data.len() == 0);
                        assert(segs_bytes(b1.drop_last()) == segs_bytes(b0) + el);
                    }
                }
                assert(entries_bytes(ix0.take(i + 1 as int)) == entries_bytes(ix0.take(i as int))
                    + ix0[i as int].lp.len) by {
                    assert(ix0.take(i + 1 as int).drop_last() =~= ix0.take(i as int));
                }
                assert(!m_b0.contains_key(ix0[i as int].key@)) by {
                    if m_b0.contains_key(ix0[i as int].key@) {
                        let j2 = choose|j2: int|
                            0 <= j2 < i && #[trigger] ix0[j2].key@ == ix0[i as int].key@;
                    }
                }
                m_b = m_b0.insert(
                    ix0[i as int].key@,
                    LiveV {
                        value: model[ix0[i as int].key@].value,
                        lp: lp2,
                        seq: ix0[i as int].seq.timestamp,
                    },
                );
                assert(replay(segs_records(b1)) == Some(m_b));
            }
            index.set_pointer_at(i, lp2);
            i = i + 1;
        }
        let ghost b_fin = self@.skip(segs_a.len() as int);
        let ghost mut k: int = 0;
        proof {
            assert(segs_a.skip(0) =~= segs_a);
            assert(self@ =~= segs_a + b_fin);
        }

        while self.segments.len() > 0 && self.segments[0].f_id.id <= stop.id
            invariant
                0 <= k <= segs_a.len(),
                self@ == segs_a.skip(k) + b_fin,
                segs_a.len() >= 1,
                segs_a.last().id == stop.id,
                forall|a: int, b: int| 0 <= a < b < segs_a.len() ==> segs_a[a].id < segs_a[b].id,
                b_fin.len() >= 1,
                b_fin[0].id == stop.id + 1,
                self.wf(),
                self.all_decoded(),
                self.current_id() <= stop.id + 1 + n,
                n == index@.len(),
                n == ix0.len(),
                index.wf(),
                keys_distinct(ix0),
                forall|j2: int|
                    0 <= j2 < n ==> #[trigger] index@[j2].key == ix0[j2].key && index@[j2].seq
                        == ix0[j2].seq && index@[j2].lp.len == ix0[j2].lp.len,
                forall|j2: int| 0 <= j2 < n ==> entry_ok(segs_a, ix0[j2], model),
                replay(segs_records(b_fin)) == Some(m_b),
                segs_bytes(b_fin) == entries_bytes(ix0.take(n as int)),
                forall|j2: int|
                    #![trigger index@[j2]]
                    0 <= j2 < n ==> m_b.contains_key(ix0[j2].key@) && m_b[ix0[j2].key@] == (LiveV {
                        value: model[ix0[j2].key@].value,
                        lp: index@[j2].lp,
                        seq: ix0[j2].seq.timestamp,
                    }),
                forall|k2: Seq<char>|
                    #[trigger] m_b.contains_key(k2) ==> exists|j2: int|
                        0 <= j2 < n && #[trigger] ix0[j2].key@ == k2,
            decreases self@.len(),
        {
            proof {
                assert(k < segs_a.len()) by {
                    if k == segs_a.len() {
                        assert(self@[0] == b_fin[0]);
                    }
                }
                assert(self@[0] == segs_a[k]);
            }
            let ghost v0 = self@;
            self.segments.remove(0);
            proof {
                assert(self@ =~= v0.remove(0));
                assert(v0.remove(0) =~= segs_a.skip(k + 1) + b_fin);
                k = k + 1;
                assert forall|a: int, b: int| 0 <= a < b < self@.len() implies self@[a].id
                    < self@[b].id by {
                    assert(self@[a] == v0[a + 1] && self@[b] == v0[b + 1]);
                }
                assert(self@.last() == v0.last());
                assert forall|a: int|
                    0 <= a < self@.len() implies #[trigger] self@[a].data.len() <= u64::MAX
                        && decoded_end(self@[a].data, 0) == self@[a].data.len() by {
                    assert(self@[a] == v0[a + 1]);
                    assert(v0[a + 1].data.len() <= u64::MAX);
                    assert(decoded_end(v0[a + 1].data, 0) == v0[a + 1].data.len());
                }
            }
        }
        proof {
            if k < segs_a.len() {
                assert(self@[0] == segs_a[k]);
                if k < segs_a.len() - 1 {
                    assert(segs_a[k].id < segs_a[segs_a.len() - 1].id);
                }
                assert(false);
            }
            assert(segs_a.skip(k).len() == 0);
            assert(self@ =~= b_fin);
        }
        proof {
            assert(self@ == b_fin);
            assert(segs_a.skip(segs_a.len() as int).len() == 0);
            assert(ix0.take(n as int) =~= ix0);
            lemma_entries_map(index@);
            assert forall|kk: Seq<char>| #[trigger] m_b.contains_key(kk) implies index.as_map(
            ).contains_key(kk) && ptr_map(m_b)[kk] == index.as_map()[kk] && model.contains_key(
                kk,
            ) && m_b[kk].value == model[kk].value by {
                let j2 = choose|j2: int| 0 <= j2 < n && #[trigger] ix0[j2].key@ == kk;
                assert(index@[j2].key@ == kk);
                assert(m_b[ix0[j2].key@] == (LiveV {
                    value: model[ix0[j2].key@].value,
                    lp: index@[j2].lp,
                    seq: ix0[j2].seq.timestamp,
                }));
                assert(entries_map(index@)[index@[j2].key@] == (
                    index@[j2].lp,
                    index@[j2].seq.timestamp,
                ));
                assert(entries_map(index@).contains_key(index@[j2].key@));
                assert(entry_ok(segs_a, ix0[j2], model));
            }
            assert forall|kk: Seq<char>| #[trigger] index.as_map().contains_key(kk) implies
                m_b.contains_key(kk) by {
                let j2 = choose|j2: int|
                    0 <= j2 < index@.len() && #[trigger] index@[j2].key@ == kk;
                assert(m_b.contains_key(ix0[j2].key@));
            }
            assert forall|kk: Seq<char>| #[trigger] model.contains_key(kk) implies
                m_b.contains_key(kk) by {
                assert(ptr_map(model).contains_key(kk));
                assert(old(index).as_map().contains_key(kk));
                crate::index::lemma_entries_map(ix0);
                let j2 = choose|j2: int| 0 <= j2 < ix0.len() && #[trigger] ix0[j2].key@ == kk;
                assert(m_b.contains_key(ix0[j2].key@)) by {
                    assert(index@[j2].key@ == ix0[j2].key@);
                }
            }
            assert(ptr_map(m_b) =~= index.as_map());
            assert(kv_map(m_b) =~= kv_map(model));
        }
        Ok(())
    }

    /// Appends one command to the active segment, flushing it whole,
    /// and returns the pointer to its span; rolls to a fresh segment
    /// when the write leaves the active segment at or over the
    /// threshold, so the active segment always stays strictly below
    /// it.
    /// Fails with `Io`, leaving the log unchanged, only when the
    /// record cannot be placed: its end would not fit the offset
    /// space, or a needed rollover has no identifier left.
    pub fn mutate(&mut self, cmd: Command) -> (r: Result<LogPointer, KvError>)
        requires
            old(self).wf(),
            old(self).all_decoded(),
        ensures
            final(self).wf(),
            final(self).all_decoded(),
            r is Err <==> ({
                let start = old(self)@.last().data.len() as int;
                let el = enc_cmd_len(cmd@);
                start + el > u64::MAX || (start + el >= MAX_LOG_SIZE && old(self).current_id()
                    == u64::MAX)
            }),
            r matches Err(e) ==> e == KvError::Io && final(self)@ == old(self)@ && final(self).current_id() == old(self).current_id(),
            r matches Ok(lp) ==> ({
                let start = old(self)@.last().data.len() as int;
                let el = enc_cmd_len(cmd@);
                let rolled = start + el >= MAX_LOG_SIZE;
                &&& cmd_valid(cmd@)
                &&& lp == (LogPointer {
                    start_pos: start as u64,
                    len: el as u64,
                    f_id: FileId { id: old(self).current_id() },
                })
                &&& final(self).records() == old(self).records().push((cmd@, lp))
                &&& final(self)@.len() >= old(self)@.len()
                &&& forall|i: int| 0 <= i < old(self)@.len() - 1 ==> final(self)@[i] == old(self)@[i]
                &&& final(self)@[old(self)@.len() - 1] == (SegV {
                    id: old(self).current_id(),
                    data: old(self)@.last().data + enc_cmd(cmd@),
                })
                &&& (rolled ==> final(self)@.len() == old(self)@.len() + 1 && final(self)@.last() == (SegV { id: (old(self).current_id() + 1) as u64, data: Seq::<u8>::empty() })
                    && final(self).current_id() == old(self).current_id() + 1)
                &&& (!rolled ==> final(self)@.len() == old(self)@.len() && final(self).current_id() == old(self).current_id())
            }),
    {
        let mut e = crate::codec::encode_command(&cmd);
        let elen = e.len();
        proof {
            lemma_enc_cmd_len(cmd@);
        }
        let n = self.segments.len();
        let start = self.segments[n - 1].data.len();
        let newpos: u128 = start as u128 + elen as u128;
        if newpos > u64::MAX as u128 || (newpos >= MAX_LOG_SIZE as u128 && self.current_f_id.id
            == u64::MAX) {
            return Err(KvError::Io);
        }
        let ghost oldsegs = self@;
        let ghost fid = self.current_f_id.id;
        let ghost olddata = self@.last().data;
        let seg = &mut self.segments[n - 1];
        seg.data.append(&mut e);
        let lp = LogPointer {
            start_pos: start as u64,
            len: elen as u64,
            f_id: self.current_f_id,
        };
        proof {
            assert(self.segments@[n - 1].f_id.id == fid);
            assert(self.segments@[n - 1].data@ == olddata + enc_cmd(cmd@));
            assert(self@ =~= oldsegs.update(
                n - 1,
                SegV { id: fid, data: olddata + enc_cmd(cmd@) },
            ));
            lemma_seg_records_append(olddata, 0, cmd@, fid);
            assert(self@.drop_last() =~= oldsegs.drop_last());
            assert(segs_records(self@) =~= segs_records(oldsegs).push((cmd@, lp)));
            assert forall|i: int|
                0 <= i < self@.len() implies #[trigger] decoded_end(self@[i].data, 0)
                == self@[i].data.len() by {
                if i < self@.len() - 1 {
                    assert(self@[i] == oldsegs[i]);
                }
            }
        }
        if newpos >= MAX_LOG_SIZE as u128 {
            let ghost mid = self@;
            let nid = self.current_f_id.inc();
            self.segments.push(Segment { f_id: nid, data: Vec::new() });
            self.current_f_id = nid;
            proof {
                assert(self@.drop_last() =~= mid);
                assert(self@.last().data =~= Seq::<u8>::empty());
                assert(dec_cmd_at(self@.last().data, 0) is None);
                assert(seg_records(self@.last().data, 0, nid.id) =~= Seq::<
                    (CmdV, LogPointer),
                >::empty());
                assert(segs_records(self@) =~= segs_records(mid));
                assert forall|i: int|
                    0 <= i < self@.len() implies #[trigger] decoded_end(self@[i].data, 0)
                    == self@[i].data.len() by {
                    if i < self@.len() - 1 {
                        assert(self@[i] == mid[i]);
                    }
                }
            }
        }
        proof {
            assert(self@.len() >= 1);
            assert(self@.last().id == self.current_f_id.id);
            assert(self@.last().data.len() < MAX_LOG_SIZE);
            assert forall|i: int|
                0 <= i < self@.len() implies #[trigger] self@[i].data.len() <= u64::MAX by {
                if i < oldsegs.len() - 1 {
                    assert(self@[i] == oldsegs[i]);
                }
            }
            assert forall|i: int, j: int|
                0 <= i < j < self@.len() implies self@[i].id < self@[j].id by {
                if j < self@.len() - 1 || oldsegs.len() == self@.len() {
                    assert(oldsegs[i].id < oldsegs[j].id);
                } else {
                    assert(self@[j].id == fid + 1);
                    if i < self@.len() - 2 {
                        assert(oldsegs[i].id < oldsegs[oldsegs.len() - 1].id);
                    }
                }
            }
        }
        Ok(lp)
    }
}

/// Places one segment into an identifier-sorted run, keeping it
/// sorted.
fn insert_sorted(sorted: &mut Vec<Segment>, seg: Segment)
    requires
        forall|i: int, j: int|
            0 <= i < j < old(sorted)@.len() ==> old(sorted)@[i].f_id.id < old(sorted)@[j].f_id.id,
        forall|i: int|
            0 <= i < old(sorted)@.len() ==> old(sorted)@[i].f_id.id != seg.f_id.id,
    ensures
        forall|i: int, j: int|
            0 <= i < j < final(sorted)@.len() ==> final(sorted)@[i].f_id.id < final(sorted)@[j].f_id.id,
        exists|p: int| 0 <= p <= old(sorted)@.len() && final(sorted)@ == old(sorted)@.insert(
            p,
            seg,
        ),
{
    let mut p: usize = 0;
    while p < sorted.len() && sorted[p].f_id.id < seg.f_id.id
        invariant
            0 <= p <= sorted@.len(),
            sorted@ == old(sorted)@,
            forall|i: int, j: int|
                0 <= i < j < sorted@.len() ==> sorted@[i].f_id.id < sorted@[j].f_id.id,
            forall|i: int| 0 <= i < sorted@.len() ==> sorted@[i].f_id.id != seg.f_id.id,
            forall|i: int| 0 <= i < p ==> sorted@[i].f_id.id < seg.f_id.id,
        decreases sorted@.len() - p,
    {
        p = p + 1;
    }
    proof {
        assert(forall|i: int| 0 <= i < p ==> sorted@[i].f_id.id < seg.f_id.id);
        assert(forall|i: int| p <= i < sorted@.len() ==> sorted@[i].f_id.id > seg.f_id.id);
    }
    sorted.insert(p, seg);
    proof {
        assert forall|i: int, j: int|
            0 <= i < j < sorted@.len() implies sorted@[i].f_id.id < sorted@[j].f_id.id by {
            let s0 = old(sorted)@;
            if i < p && j == p {
            } else if i == p && j > p {
                assert(sorted@[j] == s0[j - 1]);
            } else if j < p {
            } else if i < p && j > p {
                assert(sorted@[j] == s0[j - 1]);
            } else if i > p && j > p {
                assert(sorted@[i] == s0[i - 1]);
                assert(sorted@[j] == s0[j - 1]);
            }
        }
    }
}

} // verus!
