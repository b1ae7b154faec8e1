//! The in-memory index: a map from keys to log pointers, guarded by
//! the sequencer conflict rule.

use vstd::prelude::*;

use crate::command::{CmdV, Command, Sequencer};
use crate::error::KvError;
use crate::storage::LogPointer;

verus! {

/// One index entry: a key, the pointer to its authoritative record,
/// and that record's sequencer.
#[derive(Debug)]
pub struct IndexEntry {
    pub key: String,
    pub lp: LogPointer,
    pub seq: Sequencer,
}

/// What an index update does to the key map, mirroring `update_index`:
/// `None` means the update conflicts (the stored sequencer is not
/// strictly superseded); otherwise a `Put` binds the key and a `Rm`
/// unbinds it.
pub open spec fn update_model(
    m: Map<Seq<char>, (LogPointer, u128)>,
    c: CmdV,
    lp: LogPointer,
) -> Option<Map<Seq<char>, (LogPointer, u128)>> {
    if m.contains_key(c.key()) && m[c.key()].1 >= c.seq() {
        None
    } else if c is Put {
        Some(m.insert(c.key(), (lp, c.seq())))
    } else {
        Some(m.remove(c.key()))
    }
}

/// The map held by a sequence of entries, later entries overriding
/// earlier ones.
pub open spec fn entries_map(s: Seq<IndexEntry>) -> Map<Seq<char>, (LogPointer, u128)>
    decreases s.len(),
{
    if s.len() == 0 {
        Map::empty()
    } else {
        entries_map(s.drop_last()).insert(
            s.last().key@,
            (s.last().lp, s.last().seq.timestamp),
        )
    }
}

/// The bytes the entries' records span in all: what compaction
/// rewrites.
pub open spec fn entries_bytes(s: Seq<IndexEntry>) -> int
    decreases s.len(),
{
    if s.len() == 0 {
        0
    } else {
        entries_bytes(s.drop_last()) + s.last().lp.len
    }
}

/// No two entries carry the same key.
pub open spec fn keys_distinct(s: Seq<IndexEntry>) -> bool {
    forall|i: int, j: int| 0 <= i < j < s.len() ==> s[i].key@ != s[j].key@
}

/// With distinct keys, the entry map holds exactly the entries:
/// each entry is bound to its own pointer and sequencer, and every
/// bound key comes from some entry.
pub proof fn lemma_entries_map(s: Seq<IndexEntry>)
    requires
        keys_distinct(s),
    ensures
        forall|i: int|
            0 <= i < s.len() ==> #[trigger] entries_map(s)[s[i].key@] == (
            s[i].lp,
            s[i].seq.timestamp,
            ),
        forall|i: int| 0 <= i < s.len() ==> #[trigger] entries_map(s).contains_key(s[i].key@),
        forall|k: Seq<char>|
            #[trigger] entries_map(s).contains_key(k) ==> exists|i: int|
                0 <= i < s.len() && #[trigger] s[i].key@ == k,
    decreases s.len(),
{
    if s.len() > 0 {
        let t = s.drop_last();
        assert(keys_distinct(t)) by {
            assert(forall|j: int| 0 <= j < t.len() ==> t[j] == s[j]);
        }
        lemma_entries_map(t);
        assert forall|i: int| 0 <= i < s.len() implies #[trigger] entries_map(s)[s[i].key@] == (
            s[i].lp,
            s[i].seq.timestamp,
        ) by {
            if i < s.len() - 1 {
                assert(t[i] == s[i]);
                assert(s[i].key@ != s.last().key@);
                assert(entries_map(t)[t[i].key@] == (t[i].lp, t[i].seq.timestamp));
                assert(entries_map(s)[s[i].key@] == entries_map(t)[t[i].key@]);
            }
        }
        assert forall|i: int| 0 <= i < s.len() implies #[trigger] entries_map(s).contains_key(
            s[i].key@,
        ) by {
            if i < s.len() - 1 {
                assert(t[i] == s[i]);
                assert(entries_map(t).contains_key(t[i].key@));
            }
        }
        assert forall|k: Seq<char>| #[trigger] entries_map(s).contains_key(k) implies exists|i: int|
            0 <= i < s.len() && #[trigger] s[i].key@ == k by {
            if k == s.last().key@ {
                assert(s[s.len() - 1].key@ == k);
            } else {
                assert(entries_map(t).contains_key(k));
                let i = choose|i: int| 0 <= i < t.len() && #[trigger] t[i].key@ == k;
                assert(s[i].key@ == k);
            }
        }
    }
}

/// Replacing one entry with another for the same key rebinds that key
/// and nothing else.
pub proof fn lemma_entries_map_update(s: Seq<IndexEntry>, i: int, e: IndexEntry)
    requires
        keys_distinct(s),
        0 <= i < s.len(),
        e.key@ == s[i].key@,
    ensures
        keys_distinct(s.update(i, e)),
        entries_map(s.update(i, e)) == entries_map(s).insert(e.key@, (e.lp, e.seq.timestamp)),
    decreases s.len(),
{
    let t = s.update(i, e);
    assert(keys_distinct(t)) by {
        assert(forall|j: int| 0 <= j < s.len() ==> t[j].key@ == s[j].key@);
    }
    if i == s.len() - 1 {
        assert(t.drop_last() =~= s.drop_last());
        assert(entries_map(t) =~= entries_map(s).insert(e.key@, (e.lp, e.seq.timestamp)));
    } else {
        assert(t.drop_last() =~= s.drop_last().update(i, e));
        lemma_entries_map_update(s.drop_last(), i, e);
        assert(s.last().key@ != e.key@);
        assert(entries_map(t) =~= entries_map(s).insert(e.key@, (e.lp, e.seq.timestamp)));
    }
}

/// Removing one entry unbinds exactly its key.
pub proof fn lemma_entries_map_remove(s: Seq<IndexEntry>, i: int)
    requires
        keys_distinct(s),
        0 <= i < s.len(),
    ensures
        keys_distinct(s.remove(i)),
        entries_map(s.remove(i)) == entries_map(s).remove(s[i].key@),
    decreases s.len(),
{
    let t = s.remove(i);
    assert(keys_distinct(t)) by {
        assert(forall|j: int| 0 <= j < i ==> t[j] == s[j]);
        assert(forall|j: int| i <= j < t.len() ==> t[j] == s[j + 1]);
    }
    lemma_entries_map(s);
    if i == s.len() - 1 {
        assert(t =~= s.drop_last());
        assert(!entries_map(t).contains_key(s[i].key@)) by {
            lemma_entries_map(t);
            if entries_map(t).contains_key(s[i].key@) {
                let j = choose|j: int| 0 <= j < t.len() && #[trigger] t[j].key@ == s[i].key@;
            }
        }
        assert(entries_map(t) =~= entries_map(s).remove(s[i].key@));
    } else {
        assert(t.drop_last() =~= s.drop_last().remove(i));
        lemma_entries_map_remove(s.drop_last(), i);
        assert(s.drop_last()[i] == s[i]);
        assert(s.last().key@ != s[i].key@);
        assert(entries_map(t) =~= entries_map(s).remove(s[i].key@));
    }
}

/// The index held by the store: purely in memory, rebuilt by replay on
/// open.
#[derive(Debug)]
pub struct Index {
    entries: Vec<IndexEntry>,
}

impl View for Index {
    type V = Seq<IndexEntry>;

    closed spec fn view(&self) -> Seq<IndexEntry> {
        self.entries@
    }
}

impl Index {
    /// The key map the index currently holds.
    pub open spec fn as_map(self) -> Map<Seq<char>, (LogPointer, u128)> {
        entries_map(self@)
    }

    /// Well-formedness: one entry per key.
    pub open spec fn wf(self) -> bool {
        keys_distinct(self@)
    }

    /// An empty index.
    pub fn new() -> (r: Index)
        ensures
            r.wf(),
            r@ == Seq::<IndexEntry>::empty(),
            r.as_map() == Map::<Seq<char>, (LogPointer, u128)>::empty(),
    {
        Index { entries: Vec::new() }
    }

    /// The position of the entry holding `key`, if one does.
    fn find(&self, key: &String) -> (r: Option<usize>)
        ensures
            r matches Some(i) ==> i < self@.len() && self@[i as int].key@ == key@,
            r is None ==> forall|j: int| 0 <= j < self@.len() ==> self@[j].key@ != key@,
    {
        let mut i: usize = 0;
        while i < self.entries.len()
            invariant
                i <= self@.len(),
                self@ == self.entries@,
                forall|j: int| 0 <= j < i ==> self@[j].key@ != key@,
            decreases self@.len() - i,
        {
            if self.entries[i].key.eq(key) {
                return Some(i);
            }
            i = i + 1;
        }
        None
    }

    /// Applies one command to the index under the conflict rule: an
    /// entry may only be superseded by a strictly greater sequencer;
    /// on success a `Put` binds the key to the given pointer and a
    /// `Rm` unbinds it.
    pub fn update_index(&mut self, cmd: &Command, lp: LogPointer) -> (r: Result<(), KvError>)
        requires
            old(self).wf(),
        ensures
            final(self).wf(),
            r matches Err(e) ==> e == KvError::Conflict && final(self)@ == old(self)@
                && update_model(old(self).as_map(), cmd@, lp) is None,
            r is Ok ==> update_model(old(self).as_map(), cmd@, lp) == Some(final(self).as_map()),
            final(self)@.len() <= old(self)@.len() + 1,
    {
        proof {
            lemma_entries_map(self@);
        }
        match self.find(cmd.get_key()) {
            Some(i) => {
                if self.entries[i].seq.timestamp >= cmd.get_sequencer().timestamp {
                    return Err(KvError::Conflict);
                }
                match cmd {
                    Command::Put { key, value: _, sequencer } => {
                        let e = IndexEntry { key: key.clone(), lp, seq: *sequencer };
                        proof {
                            lemma_entries_map_update(self@, i as int, e);
                        }
                        let slot = &mut self.entries[i];
                        *slot = e;
                    },
                    Command::Rm { .. } => {
                        proof {
                            lemma_entries_map_remove(self@, i as int);
                        }
                        self.entries.remove(i);
                    },
                }
                Ok(())
            },
            None => {
                match cmd {
                    Command::Put { key, value: _, sequencer } => {
                        let ghost s0 = self@;
                        proof {
                            lemma_entries_map_absent(s0, key@);
                        }
                        self.entries.push(IndexEntry { key: key.clone(), lp, seq: *sequencer });
                        proof {
                            assert(self@.drop_last() =~= s0);
                            assert forall|a: int, b: int|
                                0 <= a < b < self@.len() implies self@[a].key@ != self@[b].key@ by {
                                if b < self@.len() - 1 {
                                    assert(s0[a].key@ != s0[b].key@);
                                }
                            }
                        }
                    },
                    Command::Rm { .. } => {
                        proof {
                            lemma_entries_map_absent(self@, cmd@.key());
                            assert(old(self).as_map().remove(cmd@.key()) =~= old(self).as_map());
                        }
                    },
                }
                Ok(())
            },
        }
    }

    /// The pointer currently bound to `key`, if any.
    pub fn get_index(&mut self, key: &String) -> (r: Option<LogPointer>)
        requires
            old(self).wf(),
        ensures
            final(self)@ == old(self)@,
            r matches Some(lp) ==> old(self).as_map().contains_key(key@) && old(self).as_map()[key@].0 == lp,
            r is Some <==> old(self).as_map().contains_key(key@),
    {
        proof {
            lemma_entries_map(self@);
        }
        match self.find(key) {
            Some(i) => Some(self.entries[i].lp),
            None => {
                proof {
                    lemma_entries_map_absent(self@, key@);
                }
                None
            },
        }
    }

    /// How many keys the index holds.
    pub fn entry_count(&self) -> (r: usize)
        ensures
            r == self@.len(),
    {
        self.entries.len()
    }

    /// The entry at one position, for traversals.
    pub fn entry_at(&self, i: usize) -> (r: &IndexEntry)
        requires
            i < self@.len(),
        ensures
            *r == self@[i as int],
    {
        &self.entries[i]
    }

    /// Rebinds the entry at one position to a new pointer, keeping its
    /// key and sequencer; compaction uses this to move records.
    pub(crate) fn set_pointer_at(&mut self, i: usize, lp: LogPointer)
        requires
            old(self).wf(),
            i < old(self)@.len(),
        ensures
            final(self).wf(),
            final(self)@.len() == old(self)@.len(),
            final(self)@[i as int].key == old(self)@[i as int].key,
            final(self)@[i as int].seq == old(self)@[i as int].seq,
            final(self)@[i as int].lp == lp,
            forall|j: int| 0 <= j < old(self)@.len() && j != i ==> final(self)@[j] == old(self)@[j],
            final(self).as_map() == old(self).as_map().insert(
                old(self)@[i as int].key@,
                (lp, old(self)@[i as int].seq.timestamp),
            ),
    {
        let slot = &mut self.entries[i];
        slot.lp = lp;
        proof {
            lemma_entries_map_update(old(self)@, i as int, self@[i as int]);
            assert(self@ =~= old(self)@.update(i as int, self@[i as int]));
        }
    }
}

/// A key no entry holds is not in the map.
proof fn lemma_entries_map_absent(s: Seq<IndexEntry>, k: Seq<char>)
    requires
        forall|j: int| 0 <= j < s.len() ==> s[j].key@ != k,
    ensures
        !entries_map(s).contains_key(k),
    decreases s.len(),
{
    if s.len() > 0 {
        assert(forall|j: int| 0 <= j < s.len() - 1 ==> s.drop_last()[j].key@ != k);
        lemma_entries_map_absent(s.drop_last(), k);
    }
}

} // verus!
