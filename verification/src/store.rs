//! The store facade: composes the segmented log and the in-memory
//! index, and keeps the sequencer strictly monotone.

use vstd::prelude::*;

use crate::command::{clock_nanos, CmdV, Command, Sequencer};
use crate::error::KvError;
use crate::index::{entries_map, lemma_entries_map, update_model, Index};
use crate::storage::{
    ids_distinct,
    ids_sorted,
    kv_map,
    lemma_records_locate,
    lemma_replay_entry,
    lemma_step_ptr,
    ptr_map,
    replay,
    replay_step,
    seg_views,
    segs_bytes,
    segs_records,
    decoded_end,
    LiveV,
    LogPointer,
    Segment,
    SegV,
    Storage,
    MAX_LOG_SIZE,
};

verus! {

/// The bytes of the record a `set` of this key and value appends.
pub open spec fn put_record_len(key: Seq<char>, value: Seq<char>) -> int {
    33 + 4 * key.len() as int + 4 * value.len() as int
}

/// The bytes of the record a `remove` of this key appends.
pub open spec fn rm_record_len(key: Seq<char>) -> int {
    25 + 4 * key.len() as int
}

/// A persistent key-value store: a segmented append-only log, an
/// in-memory index from keys to log pointers, and online compaction.
///
/// Its observable content is the map `kv()`: every successful `set`
/// binds a key, every successful `remove` unbinds it, and `get`
/// serves exactly that map, which replay of the segments rebuilds.
pub struct KvStore {
    storage: Storage,
    index: Index,
    last_seq: u128,
}

impl KvStore {
    /// The live map replay of the log yields: for each bound key its
    /// value, pointer and sequencer.
    pub closed spec fn model(self) -> Map<Seq<char>, LiveV> {
        replay(self.storage.records())->Some_0
    }

    /// The key-value content of the store.
    pub closed spec fn kv(self) -> Map<Seq<char>, Seq<char>> {
        kv_map(self.model())
    }

    /// The segments of the store, as the data directory holds them.
    pub closed spec fn segments_view(self) -> Seq<SegV> {
        self.storage@
    }

    /// The map the in-memory index holds: key to pointer and
    /// sequencer.
    pub closed spec fn index_map(self) -> Map<Seq<char>, (LogPointer, u128)> {
        self.index.as_map()
    }

    /// The largest sequencer the store has seen or replayed; every
    /// later mutation carries a strictly greater one.
    pub closed spec fn seq_bound(self) -> u128 {
        self.last_seq
    }

    /// The identifier of the active segment. Every segment's
    /// identifier is at most this, and one mutation advances it by at
    /// most the live-key count plus three.
    pub closed spec fn id_span(self) -> int {
        self.storage.current_id() as int
    }

    /// How many keys the store holds live.
    pub closed spec fn live_count(self) -> int {
        self.index@.len() as int
    }

    /// Well-formedness: the log is whole records in identifier order,
    /// replay of it is defined, the index is exactly the replayed
    /// pointer map, and no live sequencer exceeds the store's bound.
    pub closed spec fn wf(self) -> bool {
        &&& self.storage.wf()
        &&& self.storage.all_decoded()
        &&& self.index.wf()
        &&& replay(self.storage.records()) is Some
        &&& ptr_map(self.model()) == self.index.as_map()
        &&& forall|k: Seq<char>|
            #[trigger] self.model().contains_key(k) ==> self.model()[k].seq <= self.last_seq
    }

    /// Room for one more mutation of the given record size, stated
    /// over the store's public views: the sequencer and identifier
    /// spaces are not within a few steps of exhaustion, the record
    /// fits after a rollover, and no live record is too large to
    /// rewrite. Every store reachable on real hardware has it;
    /// opening an empty directory establishes it for every
    /// admissible record size, and the step bounds that `set` and
    /// `remove` ensure let callers carry it across mutations.
    pub open spec fn headroom(self, rec: int) -> bool {
        &&& 0 <= rec <= u64::MAX - MAX_LOG_SIZE
        &&& self.seq_bound() < u128::MAX
        &&& self.id_span() + self.live_count() + 4 <= u64::MAX
        &&& forall|k: Seq<char>|
            #[trigger] self.index_map().contains_key(k) ==> self.index_map()[k].0.len
                <= u64::MAX - MAX_LOG_SIZE
    }

    /// A fresh, strictly increasing sequencer: the clock reading if
    /// it is ahead and leaves the tag space room, else one past the
    /// last tag. Fails with `Clock` only when the tag space is
    /// exhausted, and never exhausts it in one step except from the
    /// very last usable tag.
    fn next_sequencer(&mut self) -> (r: Result<Sequencer, KvError>)
        ensures
            final(self).storage == old(self).storage,
            final(self).index == old(self).index,
            r is Err <==> old(self).last_seq == u128::MAX,
            r matches Err(e) ==> e == KvError::Clock && final(self).last_seq == old(self).last_seq,
            r matches Ok(s) ==> s.timestamp == final(self).last_seq && final(self).last_seq
                > old(self).last_seq,
            r is Ok ==> final(self).last_seq < u128::MAX || old(self).last_seq == u128::MAX
                - 1,
    {
        if self.last_seq == u128::MAX {
            return Err(KvError::Clock);
        }
        let t = match clock_nanos() {
            Some(t) => t,
            None => 0,
        };
        let cand = if t > self.last_seq && t < u128::MAX {
            t
        } else {
            self.last_seq + 1
        };
        self.last_seq = cand;
        Ok(Sequencer { timestamp: cand })
    }

    /// Opens a store over the segments found in the data directory,
    /// listed in any order: builds the engine, replays every segment
    /// in identifier order into a fresh index, and resumes the
    /// sequencer past every replayed tag. A directory of whole-record
    /// segments with a conflict-free replay opens onto exactly the
    /// replay of its identifier-sorted arrangement; in particular an
    /// empty directory opens onto the empty map, with room for any
    /// admissible mutation.
    pub fn open(dir: Vec<Segment>) -> (r: Result<KvStore, KvError>)
        requires
            ids_distinct(dir@),
            forall|j: int| 0 <= j < dir@.len() ==> #[trigger] dir@[j].data@.len() <= u64::MAX,
        ensures
            r matches Ok(s) ==> s.wf(),
            ({
                let views = seg_views(dir@);
                (ids_sorted(dir@) && (forall|j: int|
                    0 <= j < views.len() ==> #[trigger] decoded_end(views[j].data, 0)
                        == views[j].data.len()) && replay(segs_records(views)) is Some && (
                forall|j: int| 0 <= j < dir@.len() ==> #[trigger] dir@[j].f_id.id < u64::MAX))
                    ==> ({
                    &&& r is Ok
                    &&& r->Ok_0.kv() == kv_map(replay(segs_records(views))->Some_0)
                    &&& r->Ok_0.index_map() == ptr_map(replay(segs_records(views))->Some_0)
                })
            }),
            r matches Err(e) ==> e == KvError::Io || e == KvError::Conflict,
            r matches Ok(s) ==> s.id_span() == crate::storage::max_fid(dir@) + 1,
            r matches Ok(s) ==> (dir@.len() == 0 ==> s.live_count() == 0 && s.seq_bound()
                == 0),
            r matches Ok(s) ==> (s.seq_bound() == 0 || exists|k: Seq<char>|
                #[trigger] s.index_map().contains_key(k) && s.index_map()[k].1
                    == s.seq_bound()),
            r matches Ok(s) ==> ((forall|j: int|
                0 <= j < dir@.len() ==> #[trigger] decoded_end(dir@[j].data@, 0)
                    == dir@[j].data@.len()) ==> exists|arr: Seq<SegV>|
                #[trigger] arr.to_multiset() == seg_views(dir@).to_multiset() && (forall|
                    a: int,
                    b: int,
                |
                    0 <= a < b < arr.len() ==> arr[a].id < arr[b].id) && replay(
                    segs_records(arr),
                ) is Some && s.kv() == kv_map(replay(segs_records(arr))->Some_0)
                    && s.index_map() == ptr_map(replay(segs_records(arr))->Some_0)),
            r matches Ok(s) ==> ((forall|j: int|
                0 <= j < dir@.len() ==> #[trigger] decoded_end(dir@[j].data@, 0)
                    == dir@[j].data@.len()) ==> s.segments_view().len() == dir@.len() + 1
                && s.segments_view().take(dir@.len() as int).to_multiset() == seg_views(
                dir@,
            ).to_multiset()),
    {
        let ghost views = seg_views(dir@);
        let ghost dir0_len = dir@.len();
        let ghost all_decodable = forall|j: int|
            0 <= j < views.len() ==> #[trigger] decoded_end(views[j].data, 0)
                == views[j].data.len();
        proof {
            if forall|j: int|
                0 <= j < dir@.len() ==> #[trigger] decoded_end(dir@[j].data@, 0)
                    == dir@[j].data@.len() {
                assert forall|j: int|
                    0 <= j < views.len() implies #[trigger] decoded_end(views[j].data, 0)
                    == views[j].data.len() by {
                    assert(views[j].data == dir@[j].data@);
                }
            }
        }
        let ghost sorted_case = ids_sorted(dir@) && (forall|j: int|
            0 <= j < views.len() ==> #[trigger] decoded_end(views[j].data, 0)
                == views[j].data.len()) && replay(segs_records(views)) is Some && (forall|j: int|
            0 <= j < dir@.len() ==> #[trigger] dir@[j].f_id.id < u64::MAX);
        let mut storage = match Storage::new(dir) {
            Ok(s) => s,
            Err(e) => {
                return Err(e);
            },
        };
        let ghost afteropen = storage@;
        proof {
            if sorted_case {
                assert(afteropen =~= views + seq![afteropen.last()]);
                crate::storage::lemma_segs_records_concat(views, seq![afteropen.last()]);
                assert(segs_records(seq![afteropen.last()]) =~= Seq::<(CmdV, LogPointer)>::empty())
                    by {
                    let single = seq![afteropen.last()];
                    assert(single.drop_last().len() == 0);
                    assert(segs_records(single.drop_last()) =~= Seq::<(CmdV, LogPointer)>::empty());
                    assert(crate::codec::dec_cmd_at(single.last().data, 0) is None);
                }
                assert(segs_records(afteropen) =~= segs_records(views));
                assert forall|j: int|
                    0 <= j < afteropen.len() implies #[trigger] decoded_end(afteropen[j].data, 0)
                    == afteropen[j].data.len() by {
                    if j < afteropen.len() - 1 {
                        assert(afteropen[j] == views[j]);
                    } else {
                        assert(crate::codec::dec_cmd_at(afteropen[j].data, 0) is None);
                    }
                }
            }
        }
        let mut index = Index::new();
        match storage.build_index(&mut index) {
            Ok(()) => {},
            Err(e) => {
                proof {
                    if sorted_case {
                        assert forall|j: int|
                            0 <= j < storage@.len() implies storage@[j] == afteropen[j] by {
                            assert(storage@[j].id == afteropen[j].id);
                            assert(storage@[j].data == afteropen[j].data || storage@[j].data
                                == afteropen[j].data.take(decoded_end(afteropen[j].data, 0)));
                            assert(decoded_end(afteropen[j].data, 0)
                                == afteropen[j].data.len());
                            assert(afteropen[j].data.take(afteropen[j].data.len() as int)
                                =~= afteropen[j].data);
                        }
                        assert(storage@ =~= afteropen);
                        assert(false);
                    }
                }
                return Err(e);
            },
        }
        proof {
            if sorted_case {
                assert forall|j: int|
                    0 <= j < storage@.len() implies storage@[j] == afteropen[j] by {
                    assert(storage@[j].id == afteropen[j].id);
                    assert(storage@[j].data == afteropen[j].data || storage@[j].data
                        == afteropen[j].data.take(decoded_end(afteropen[j].data, 0)));
                    assert(decoded_end(afteropen[j].data, 0) == afteropen[j].data.len());
                    assert(afteropen[j].data.take(afteropen[j].data.len() as int)
                        =~= afteropen[j].data);
                }
                assert(storage@ =~= afteropen);
            }
            if all_decodable {
                broadcast use vstd::seq_lib::group_to_multiset_ensures;

                let n = dir0_len as int;
                assert forall|j: int|
                    0 <= j < afteropen.len() implies #[trigger] decoded_end(
                    afteropen[j].data,
                    0,
                ) == afteropen[j].data.len() by {
                    if j < afteropen.len() - 1 {
                        assert(afteropen.take(n)[j] == afteropen[j]);
                        assert(afteropen.take(n).contains(afteropen[j]));
                        assert(afteropen.take(n).to_multiset().count(afteropen[j]) > 0);
                        assert(views.to_multiset().count(afteropen[j]) > 0);
                        assert(views.contains(afteropen[j]));
                        let i = choose|i: int| 0 <= i < views.len() && views[i] == afteropen[j];
                        assert(decoded_end(views[i].data, 0) == views[i].data.len());
                    } else {
                        assert(crate::codec::dec_cmd_at(afteropen[j].data, 0) is None);
                    }
                }
                assert forall|j: int|
                    0 <= j < storage@.len() implies storage@[j] == afteropen[j] by {
                    assert(storage@[j].id == afteropen[j].id);
                    assert(storage@[j].data == afteropen[j].data || storage@[j].data
                        == afteropen[j].data.take(decoded_end(afteropen[j].data, 0)));
                    assert(decoded_end(afteropen[j].data, 0) == afteropen[j].data.len());
                    assert(afteropen[j].data.take(afteropen[j].data.len() as int)
                        =~= afteropen[j].data);
                }
                assert(storage@ =~= afteropen);
                assert(storage@.take(n) =~= afteropen.take(n));
                assert(afteropen.take(n).to_multiset() == views.to_multiset());
                let arr = afteropen.take(n);
                assert(arr + seq![afteropen.last()] =~= afteropen);
                crate::storage::lemma_segs_records_concat(arr, seq![afteropen.last()]);
                assert(segs_records(seq![afteropen.last()]) =~= Seq::<(
                    CmdV,
                    LogPointer,
                )>::empty()) by {
                    let single = seq![afteropen.last()];
                    assert(single.drop_last().len() == 0);
                    assert(segs_records(single.drop_last()) =~= Seq::<(CmdV, LogPointer)>::empty());
                    assert(crate::codec::dec_cmd_at(single.last().data, 0) is None);
                }
                assert(segs_records(afteropen) =~= segs_records(arr));
                assert forall|a: int, b: int|
                    0 <= a < b < arr.len() implies arr[a].id < arr[b].id by {
                    assert(arr[a] == afteropen[a] && arr[b] == afteropen[b]);
                }
            }
        }
        let ghost m = replay(storage.records())->Some_0;
        let n = index.entry_count();
        let mut bound: u128 = 0;
        let mut j: usize = 0;
        while j < n
            invariant
                0 <= j <= n,
                n == index@.len(),
                forall|j2: int| 0 <= j2 < j ==> #[trigger] index@[j2].seq.timestamp <= bound,
                bound == 0 || exists|j2: int|
                    0 <= j2 < j && #[trigger] index@[j2].seq.timestamp == bound,
            decreases n - j,
        {
            if index.entry_at(j).seq.timestamp > bound {
                bound = index.entry_at(j).seq.timestamp;
                proof {
                    assert(index@[j as int].seq.timestamp == bound);
                }
            }
            j = j + 1;
        }
        let s = KvStore { storage, index, last_seq: bound };
        proof {
            lemma_entries_map(s.index@);
            if all_decodable {
                let arr = afteropen.take(dir0_len as int);
                assert(arr.to_multiset() == views.to_multiset());
                assert(s.storage.records() == segs_records(arr));
                assert(replay(segs_records(arr)) is Some);
                assert(s.kv() == kv_map(replay(segs_records(arr))->Some_0));
                assert(s.index_map() == ptr_map(replay(segs_records(arr))->Some_0));
            }
            if dir0_len == 0 {
                assert(s.index@.len() == 0) by {
                    if s.index@.len() > 0 {
                        assert(s.index.as_map().contains_key(s.index@[0].key@));
                        assert(ptr_map(replay(s.storage.records())->Some_0).contains_key(
                            s.index@[0].key@,
                        ));
                    }
                }
            }
            if bound != 0 {
                let j2 = choose|j2: int|
                    0 <= j2 < s.index@.len() && #[trigger] s.index@[j2].seq.timestamp == bound;
                assert(s.index.as_map().contains_key(s.index@[j2].key@));
                assert(s.index.as_map()[s.index@[j2].key@] == (
                    s.index@[j2].lp,
                    s.index@[j2].seq.timestamp,
                ));
                assert(s.index_map().contains_key(s.index@[j2].key@)
                    && s.index_map()[s.index@[j2].key@].1 == s.seq_bound());
            }
            assert forall|k: Seq<char>|
                #[trigger] s.model().contains_key(k) implies s.model()[k].seq
                <= s.last_seq by {
                assert(ptr_map(s.model()).contains_key(k));
                assert(s.index.as_map().contains_key(k));
                let j2 = choose|j2: int|
                    0 <= j2 < s.index@.len() && #[trigger] s.index@[j2].key@ == k;
                assert(s.index.as_map()[s.index@[j2].key@] == (
                    s.index@[j2].lp,
                    s.index@[j2].seq.timestamp,
                ));
                assert(ptr_map(s.model())[k].1 == s.model()[k].seq);
            }
        }
        Ok(s)
    }

    /// Binds `key` to `value`: appends a `Put` record carrying a
    /// fresh sequencer, points the index at it, and compacts when the
    /// engine asks. On success the store's content is exactly the old
    /// map with this binding; a store with headroom always succeeds.
    pub fn set(&mut self, key: String, value: String) -> (r: Result<(), KvError>)
        requires
            old(self).wf(),
        ensures
            final(self).wf(),
            r is Ok ==> final(self).kv() == old(self).kv().insert(key@, value@),
            r matches Err(e) ==> (e == KvError::Io || e == KvError::Clock) && (final(self).kv()
                == old(self).kv() || final(self).kv() == old(self).kv().insert(key@, value@)),
            old(self).headroom(put_record_len(key@, value@)) ==> r is Ok,
            r is Ok ==> final(self).index_map().contains_key(key@)
                && final(self).index_map()[key@].1 == final(self).seq_bound()
                && final(self).seq_bound() > old(self).seq_bound(),
            final(self).live_count() <= old(self).live_count() + 1,
            final(self).id_span() <= old(self).id_span() + old(self).live_count() + 3,
            r is Ok ==> (final(self).seq_bound() < u128::MAX || old(self).seq_bound()
                >= u128::MAX - 1),
            r is Ok ==> ((forall|k: Seq<char>|
                #[trigger] old(self).index_map().contains_key(k) ==> old(
                    self,
                ).index_map()[k].0.len <= u64::MAX - MAX_LOG_SIZE) && put_record_len(
                key@,
                value@,
            ) <= u64::MAX - MAX_LOG_SIZE ==> (forall|k: Seq<char>|
                #[trigger] final(self).index_map().contains_key(k) ==> final(self).index_map()[k].0.len <= u64::MAX - MAX_LOG_SIZE)),
            r is Ok ==> forall|q: Seq<char>|
                q != key@ ==> ((#[trigger] final(self).index_map().contains_key(q) <==> old(
                    self,
                ).index_map().contains_key(q)) && (old(self).index_map().contains_key(q)
                    ==> final(self).index_map()[q].1 == old(self).index_map()[q].1)),
            r is Ok ==> ({
                ||| {
                    &&& final(self).segments_view().len() >= old(self).segments_view().len()
                    &&& forall|i: int|
                        0 <= i < old(self).segments_view().len() - 1 ==> final(self).segments_view()[i] == #[trigger] old(self).segments_view()[i]
                    &&& final(self).segments_view()[old(self).segments_view().len() - 1] == (
                    SegV {
                        id: old(self).segments_view().last().id,
                        data: old(self).segments_view().last().data + crate::codec::enc_cmd(
                            CmdV::Put {
                                key: key@,
                                value: value@,
                                sequencer: final(self).seq_bound(),
                            },
                        ),
                    })
                }
                ||| forall|i: int|
                    0 <= i < final(self).segments_view().len() ==> #[trigger] final(self).segments_view()[i].id > old(self).segments_view().last().id
            }),
    {
        let seq = match self.next_sequencer() {
            Ok(s) => s,
            Err(e) => {
                return Err(e);
            },
        };
        let cmd = Command::Put { key, value, sequencer: seq };
        let ghost cv = cmd@;
        let r = self.apply(cmd);
        proof {
            if old(self).headroom(put_record_len(key@, value@)) {
                assert(crate::codec::enc_cmd_len(cv) == put_record_len(key@, value@));
                assert(old(self).storage.current_id() + old(self).index@.len() + 4
                    <= u64::MAX);
                assert forall|k: Seq<char>|
                    #[trigger] old(self).index.as_map().contains_key(k) implies old(
                    self,
                ).index.as_map()[k].0.len <= u64::MAX - MAX_LOG_SIZE by {
                    assert(old(self).index_map().contains_key(k));
                }
            }
        }
        proof {
            if r is Ok && (forall|k: Seq<char>|
                #[trigger] old(self).index_map().contains_key(k) ==> old(
                    self,
                ).index_map()[k].0.len <= u64::MAX - MAX_LOG_SIZE) && put_record_len(
                key@,
                value@,
            ) <= u64::MAX - MAX_LOG_SIZE {
                assert forall|k: Seq<char>|
                    #[trigger] old(self).index.as_map().contains_key(k) implies old(
                    self,
                ).index.as_map()[k].0.len <= u64::MAX - MAX_LOG_SIZE by {
                    assert(old(self).index_map().contains_key(k));
                }
                assert forall|k: Seq<char>|
                    #[trigger] self.index_map().contains_key(k) implies self.index_map(
                )[k].0.len <= u64::MAX - MAX_LOG_SIZE by {
                    assert(self.index.as_map().contains_key(k));
                }
            }
        }
        r
    }

    /// Unbinds `key`. A key the store does not hold is refused with
    /// `KeyNotFound` and nothing changes; on success the store's
    /// content is exactly the old map without this key, and a bound
    /// key on a store with headroom is always removed.
    pub fn remove(&mut self, key: String) -> (r: Result<(), KvError>)
        requires
            old(self).wf(),
        ensures
            final(self).wf(),
            r is Ok ==> old(self).kv().contains_key(key@) && final(self).kv() == old(self).kv().remove(key@),
            r == Err::<(), KvError>(KvError::KeyNotFound) <==> !old(self).kv().contains_key(
                key@,
            ),
            r matches Err(e) ==> e == KvError::KeyNotFound || e == KvError::Io || e
                == KvError::Clock,
            r matches Err(e) && e != KvError::KeyNotFound ==> (final(self).kv() == old(self).kv() || final(self).kv() == old(self).kv().remove(key@)),
            r == Err::<(), KvError>(KvError::KeyNotFound) ==> final(self).kv() == old(self).kv(),
            old(self).kv().contains_key(key@) && old(self).headroom(rm_record_len(key@))
                ==> r is Ok,
            r is Ok ==> final(self).seq_bound() > old(self).seq_bound(),
            final(self).live_count() <= old(self).live_count() + 1,
            final(self).id_span() <= old(self).id_span() + old(self).live_count() + 3,
            r is Ok ==> (final(self).seq_bound() < u128::MAX || old(self).seq_bound()
                >= u128::MAX - 1),
            r is Ok ==> ((forall|k: Seq<char>|
                #[trigger] old(self).index_map().contains_key(k) ==> old(
                    self,
                ).index_map()[k].0.len <= u64::MAX - MAX_LOG_SIZE) && rm_record_len(key@)
                <= u64::MAX - MAX_LOG_SIZE ==> (forall|k: Seq<char>|
                #[trigger] final(self).index_map().contains_key(k) ==> final(self).index_map()[k].0.len <= u64::MAX - MAX_LOG_SIZE)),
            r is Ok ==> forall|q: Seq<char>|
                q != key@ ==> ((#[trigger] final(self).index_map().contains_key(q) <==> old(
                    self,
                ).index_map().contains_key(q)) && (old(self).index_map().contains_key(q)
                    ==> final(self).index_map()[q].1 == old(self).index_map()[q].1)),
            r is Ok ==> ({
                ||| {
                    &&& final(self).segments_view().len() >= old(self).segments_view().len()
                    &&& forall|i: int|
                        0 <= i < old(self).segments_view().len() - 1 ==> final(self).segments_view()[i] == #[trigger] old(self).segments_view()[i]
                    &&& final(self).segments_view()[old(self).segments_view().len() - 1] == (
                    SegV {
                        id: old(self).segments_view().last().id,
                        data: old(self).segments_view().last().data + crate::codec::enc_cmd(
                            CmdV::Rm { key: key@, sequencer: final(self).seq_bound() },
                        ),
                    })
                }
                ||| forall|i: int|
                    0 <= i < final(self).segments_view().len() ==> #[trigger] final(self).segments_view()[i].id > old(self).segments_view().last().id
            }),
            r == Err::<(), KvError>(KvError::KeyNotFound) ==> final(self).segments_view()
                == old(self).segments_view() && final(self).index_map() == old(
                self,
            ).index_map() && final(self).seq_bound() == old(self).seq_bound() && final(self).live_count() == old(self).live_count() && final(self).id_span() == old(
                self,
            ).id_span(),
    {
        proof {
            assert(ptr_map(self.model()).contains_key(key@) == self.model().contains_key(
                key@,
            ));
            assert(self.kv().contains_key(key@) == self.model().contains_key(key@));
        }
        match self.index.get_index(&key) {
            Some(_) => {
                let seq = match self.next_sequencer() {
                    Ok(s) => s,
                    Err(e) => {
                        return Err(e);
                    },
                };
                let cmd = Command::Rm { key, sequencer: seq };
                let ghost cv = cmd@;
                let r = self.apply(cmd);
                proof {
                    if old(self).headroom(rm_record_len(key@)) {
                        assert(crate::codec::enc_cmd_len(cv) == rm_record_len(key@));
                        assert(old(self).storage.current_id() + old(self).index@.len() + 4
                            <= u64::MAX);
                        assert forall|k: Seq<char>|
                            #[trigger] old(self).index.as_map().contains_key(k) implies old(
                            self,
                        ).index.as_map()[k].0.len <= u64::MAX - MAX_LOG_SIZE by {
                            assert(old(self).index_map().contains_key(k));
                        }
                    }
                }
                proof {
                    if r is Ok && (forall|k: Seq<char>|
                        #[trigger] old(self).index_map().contains_key(k) ==> old(
                            self,
                        ).index_map()[k].0.len <= u64::MAX - MAX_LOG_SIZE) && rm_record_len(
                        key@,
                    ) <= u64::MAX - MAX_LOG_SIZE {
                        assert forall|k: Seq<char>|
                            #[trigger] old(self).index.as_map().contains_key(k) implies old(
                            self,
                        ).index.as_map()[k].0.len <= u64::MAX - MAX_LOG_SIZE by {
                            assert(old(self).index_map().contains_key(k));
                        }
                        assert forall|k: Seq<char>|
                            #[trigger] self.index_map().contains_key(k) implies self.index_map(
                        )[k].0.len <= u64::MAX - MAX_LOG_SIZE by {
                            assert(self.index.as_map().contains_key(k));
                        }
                    }
                }
                r
            },
            None => Err(KvError::KeyNotFound),
        }
    }

    /// Appends one freshly sequenced command, updates the index, and
    /// compacts when the engine asks.
    fn apply(&mut self, cmd: Command) -> (r: Result<(), KvError>)
        requires
            old(self).storage.wf(),
            old(self).storage.all_decoded(),
            old(self).index.wf(),
            replay(old(self).storage.records()) is Some,
            ptr_map(old(self).model()) == old(self).index.as_map(),
            forall|q: Seq<char>|
                #[trigger] old(self).model().contains_key(q) ==> old(self).model()[q].seq
                    < cmd@.seq(),
            cmd@.seq() <= old(self).last_seq,
            forall|q: Seq<char>|
                #[trigger] old(self).model().contains_key(q) ==> old(self).model()[q].seq <= old(self).last_seq,
        ensures
            final(self).wf(),
            final(self).last_seq == old(self).last_seq,
            r is Ok && cmd@ is Put ==> final(self).index.as_map().contains_key(cmd@.key())
                && final(self).index.as_map()[cmd@.key()].1 == cmd@.seq(),
            r is Ok ==> final(self).kv() == (if cmd@ is Put {
                old(self).kv().insert(cmd@.key(), cmd@.value())
            } else {
                old(self).kv().remove(cmd@.key())
            }),
            r matches Err(e) ==> e == KvError::Io && (final(self).kv() == old(self).kv() || final(self).kv() == (if cmd@ is Put {
                old(self).kv().insert(cmd@.key(), cmd@.value())
            } else {
                old(self).kv().remove(cmd@.key())
            })),
            ({
                let rec = crate::codec::enc_cmd_len(cmd@);
                (rec <= u64::MAX - MAX_LOG_SIZE && old(self).storage.current_id() + old(
                    self,
                ).index@.len() + 4 <= u64::MAX && (forall|k: Seq<char>|
                    #[trigger] old(self).index.as_map().contains_key(k) ==> old(
                        self,
                    ).index.as_map()[k].0.len <= u64::MAX - MAX_LOG_SIZE)) ==> r is Ok
            }),
            final(self).index@.len() <= old(self).index@.len() + 1,
            final(self).storage.current_id() <= old(self).storage.current_id() + old(
                self,
            ).index@.len() + 3,
            r is Ok ==> ((forall|k: Seq<char>|
                #[trigger] old(self).index.as_map().contains_key(k) ==> old(
                    self,
                ).index.as_map()[k].0.len <= u64::MAX - MAX_LOG_SIZE)
                && crate::codec::enc_cmd_len(cmd@) <= u64::MAX - MAX_LOG_SIZE ==> (forall|
                k: Seq<char>,
            |
                #[trigger] final(self).index.as_map().contains_key(k) ==> final(self).index.as_map()[k].0.len <= u64::MAX - MAX_LOG_SIZE)),
            r is Ok ==> forall|q: Seq<char>|
                q != cmd@.key() ==> ((#[trigger] final(self).index.as_map().contains_key(q)
                    <==> old(self).index.as_map().contains_key(q)) && (old(
                    self,
                ).index.as_map().contains_key(q) ==> final(self).index.as_map()[q].1 == old(
                    self,
                ).index.as_map()[q].1)),
            r is Ok ==> ({
                ||| {
                    &&& final(self).storage@.len() >= old(self).storage@.len()
                    &&& forall|i: int|
                        0 <= i < old(self).storage@.len() - 1 ==> final(self).storage@[i]
                            == #[trigger] old(self).storage@[i]
                    &&& final(self).storage@[old(self).storage@.len() - 1] == (SegV {
                        id: old(self).storage@.last().id,
                        data: old(self).storage@.last().data + crate::codec::enc_cmd(cmd@),
                    })
                }
                ||| forall|i: int|
                    0 <= i < final(self).storage@.len() ==> #[trigger] final(self).storage@[i].id > old(self).storage@.last().id
            }),
    {
        let ghost m0 = self.model();
        let ghost rs0 = self.storage.records();
        let ghost mut compacted: bool = false;
        proof {
            crate::codec::lemma_enc_cmd_len(cmd@);
            if forall|k: Seq<char>|
                #[trigger] old(self).index.as_map().contains_key(k) ==> old(
                    self,
                ).index.as_map()[k].0.len <= u64::MAX - MAX_LOG_SIZE {
                lemma_entries_map(old(self).index@);
                assert forall|j: int|
                    0 <= j < old(self).index@.len() implies #[trigger] old(
                    self,
                ).index@[j].lp.len <= u64::MAX - MAX_LOG_SIZE by {
                    let e = old(self).index@[j];
                    assert(old(self).index.as_map()[e.key@] == (e.lp, e.seq.timestamp));
                    assert(old(self).index.as_map().contains_key(e.key@));
                }
            }
        }
        let lp = match self.storage.mutate(cmd.clone()) {
            Ok(lp) => lp,
            Err(e) => {
                proof {
                    assert(self.kv() == old(self).kv());
                    assert(old(self).storage@.last().data.len() < MAX_LOG_SIZE);
                }
                return Err(e);
            },
        };
        proof {
            assert((rs0.push((cmd@, lp))).drop_last() =~= rs0);
            assert(replay_step(m0, cmd@, lp) is Some);
            lemma_step_ptr(m0, cmd@, lp);
        }
        let ghost m1 = replay_step(m0, cmd@, lp)->Some_0;
        match self.index.update_index(&cmd, lp) {
            Ok(()) => {},
            Err(_) => {
                proof {
                    assert(update_model(old(self).index.as_map(), cmd@, lp) is None);
                    assert(false);
                }
                return Err(KvError::Io);
            },
        }
        proof {
            assert(self.index.as_map() == ptr_map(m1));
            assert(kv_map(m1) =~= (if cmd@ is Put {
                kv_map(m0).insert(cmd@.key(), cmd@.value())
            } else {
                kv_map(m0).remove(cmd@.key())
            }));
            assert forall|q: Seq<char>|
                #[trigger] self.model().contains_key(q) implies self.model()[q].seq
                <= self.last_seq by {
                if q != cmd@.key() {
                    assert(m0.contains_key(q) && m0[q] == m1[q]);
                }
            }
        }
        proof {
            let rec = crate::codec::enc_cmd_len(cmd@);
            if (forall|j: int|
                0 <= j < old(self).index@.len() ==> #[trigger] old(self).index@[j].lp.len
                    <= u64::MAX - MAX_LOG_SIZE) && rec <= u64::MAX - MAX_LOG_SIZE {
                lemma_entries_map(old(self).index@);
                lemma_entries_map(self.index@);
                assert forall|j: int|
                    0 <= j < self.index@.len() implies #[trigger] self.index@[j].lp.len
                        <= u64::MAX - MAX_LOG_SIZE by {
                    let e = self.index@[j];
                    assert(self.index.as_map()[e.key@] == (e.lp, e.seq.timestamp));
                    if e.key@ == cmd@.key() {
                        assert(e.lp == lp);
                    } else {
                        assert(self.index.as_map().contains_key(e.key@));
                        assert(ptr_map(m1).contains_key(e.key@));
                        assert(m1.contains_key(e.key@));
                        assert(m0.contains_key(e.key@));
                        assert(m1[e.key@] == m0[e.key@]);
                        assert(ptr_map(m0).contains_key(e.key@));
                        assert(old(self).index.as_map().contains_key(e.key@));
                        assert(old(self).index.as_map()[e.key@] == ptr_map(m0)[e.key@]);
                        assert(e.lp == m0[e.key@].lp);
                        let j2 = choose|j2: int|
                            0 <= j2 < old(self).index@.len() && #[trigger] old(self).index@[j2].key@ == e.key@;
                        assert(old(self).index.as_map()[old(self).index@[j2].key@] == (
                            old(self).index@[j2].lp,
                            old(self).index@[j2].seq.timestamp,
                        ));
                        assert(e.lp == old(self).index@[j2].lp);
                        assert(e.lp == old(self).index@[j2].lp);
                    }
                }
            }
        }
        let ghost ix_mid2 = self.index@;
        if self.storage.should_compaction() {
            let ghost ix_mid = self.index@;
            match self.storage.compaction(&mut self.index) {
                Ok(()) => {
                    proof {
                        compacted = true;
                        lemma_entries_map(ix_mid);
                        lemma_entries_map(self.index@);
                        assert forall|q: Seq<char>|
                            #[trigger] self.model().contains_key(q) implies self.model()[q].seq
                            <= self.last_seq && self.index.as_map().contains_key(q)
                            && self.index.as_map()[q].1 == m1[q].seq && m1.contains_key(q) by {
                            assert(ptr_map(self.model()).contains_key(q));
                            assert(self.index.as_map().contains_key(q));
                            let j = choose|j: int|
                                0 <= j < self.index@.len() && #[trigger] self.index@[j].key@
                                    == q;
                            assert(self.index.as_map()[self.index@[j].key@] == (
                                self.index@[j].lp,
                                self.index@[j].seq.timestamp,
                            ));
                            assert(ix_mid[j].key@ == q);
                            assert(entries_map(ix_mid)[ix_mid[j].key@] == (
                                ix_mid[j].lp,
                                ix_mid[j].seq.timestamp,
                            ));
                            assert(entries_map(ix_mid).contains_key(ix_mid[j].key@));
                            assert(m1.contains_key(q));
                            assert(m1[q].seq == ix_mid[j].seq.timestamp);
                            assert(self.model()[q].seq == self.index.as_map()[q].1);
                        }
                    }
                },
                Err(e) => {
                    proof {
                        assert(replay(self.storage.records()) == Some(m1));
                        assert(self.kv() == kv_map(m1));
                    }
                    return Err(e);
                },
            }
        }
        proof {
            if cmd@ is Put {
                assert(m1.contains_key(cmd@.key()) && m1[cmd@.key()].seq == cmd@.seq());
                assert(kv_map(m1).contains_key(cmd@.key()));
                assert(self.kv().contains_key(cmd@.key()));
                assert(self.model().contains_key(cmd@.key()));
            }
            let b: int = u64::MAX - MAX_LOG_SIZE;
            if (forall|k: Seq<char>|
                #[trigger] old(self).index.as_map().contains_key(k) ==> old(
                    self,
                ).index.as_map()[k].0.len <= b) && crate::codec::enc_cmd_len(cmd@) <= b {
                assert forall|j: int|
                    0 <= j < self.index@.len() implies #[trigger] self.index@[j].lp.len
                        <= b by {
                    if compacted {
                        assert(self.index@[j].lp.len == ix_mid2[j].lp.len);
                        assert(ix_mid2[j].lp.len <= b);
                    } else {
                        assert(self.index@[j] == ix_mid2[j]);
                    }
                }
                lemma_entries_map(self.index@);
                assert forall|k: Seq<char>|
                    #[trigger] self.index.as_map().contains_key(k) implies self.index.as_map(
                )[k].0.len <= b by {
                    let j = choose|j: int|
                        0 <= j < self.index@.len() && #[trigger] self.index@[j].key@ == k;
                    assert(self.index.as_map()[self.index@[j].key@] == (
                        self.index@[j].lp,
                        self.index@[j].seq.timestamp,
                    ));
                }
            }
            assert forall|q: Seq<char>|
                q != cmd@.key() implies ((#[trigger] self.index.as_map().contains_key(q)
                <==> old(self).index.as_map().contains_key(q)) && (old(
                self,
            ).index.as_map().contains_key(q) ==> self.index.as_map()[q].1 == old(
                self,
            ).index.as_map()[q].1)) by {
                assert(old(self).index.as_map().contains_key(q) == m0.contains_key(q)) by {
                    assert(ptr_map(m0).contains_key(q) == m0.contains_key(q));
                }
                if compacted {
                    assert(self.kv() == kv_map(m1));
                    assert(self.index.as_map().contains_key(q) == self.model().contains_key(
                        q,
                    )) by {
                        assert(ptr_map(self.model()).contains_key(q) == self.model(
                        ).contains_key(q));
                    }
                    assert(kv_map(self.model()).contains_key(q) == self.model().contains_key(
                        q,
                    ));
                    assert(kv_map(m1).contains_key(q) == m1.contains_key(q));
                } else {
                    assert(self.index.as_map().contains_key(q) == m1.contains_key(q)) by {
                        assert(ptr_map(m1).contains_key(q) == m1.contains_key(q));
                    }
                }
                if m0.contains_key(q) || m1.contains_key(q) {
                    assert(m1.contains_key(q) == m0.contains_key(q));
                    if m0.contains_key(q) {
                        assert(m1[q] == m0[q]);
                    }
                }
                if old(self).index.as_map().contains_key(q) {
                    assert(self.model().contains_key(q));
                    if compacted {
                        assert(self.index.as_map()[q].1 == m1[q].seq);
                    } else {
                        assert(self.index.as_map()[q] == (m1[q].lp, m1[q].seq));
                    }
                    assert(old(self).index.as_map()[q] == (m0[q].lp, m0[q].seq));
                }
            }
            if compacted {
                assert forall|i: int|
                    0 <= i < self.storage@.len() implies #[trigger] self.storage@[i].id > old(
                    self,
                ).storage@.last().id by {
                    assert(old(self).storage@.last().id == old(self).storage.current_id());
                }
            }
        }
        Ok(())
    }

    /// Serves `key` from the store's content: the bound value, or
    /// `None` for an unbound key. On a well-formed store a lookup
    /// never fails and the content is untouched.
    pub fn get(&mut self, key: String) -> (r: Result<Option<String>, KvError>)
        requires
            old(self).wf(),
        ensures
            final(self).wf(),
            final(self).kv() == old(self).kv(),
            final(self).segments_view() == old(self).segments_view(),
            final(self).index_map() == old(self).index_map(),
            r matches Ok(v) ==> {
                &&& (v matches Some(s) ==> old(self).kv().contains_key(key@) && s@ == old(self).kv()[key@])
                &&& (v is Some <==> old(self).kv().contains_key(key@))
            },
            r is Ok,
    {
        proof {
            assert(self.kv().contains_key(key@) == self.model().contains_key(key@));
            assert(ptr_map(self.model()).contains_key(key@) == self.model().contains_key(
                key@,
            ));
        }
        match self.index.get_index(&key) {
            Some(lp) => {
                proof {
                    let m = self.model();
                    assert(m.contains_key(key@));
                    assert(ptr_map(m)[key@] == (m[key@].lp, m[key@].seq));
                    assert(lp == m[key@].lp);
                    lemma_replay_entry(self.storage.records());
                    let ri = choose|ri: int|
                        0 <= ri < self.storage.records().len()
                            && #[trigger] self.storage.records()[ri] == (
                        CmdV::Put {
                            key: key@,
                            value: m[key@].value,
                            sequencer: m[key@].seq,
                        },
                        m[key@].lp,
                        );
                    lemma_records_locate(self.storage@, ri);
                }
                let cmd = match self.storage.get(&lp) {
                    Ok(c) => c,
                    Err(_) => {
                        proof {
                            assert(false);
                        }
                        return Err(KvError::KeyNotFound);
                    },
                };
                match cmd.get_value() {
                    Some(value) => Ok(Some(value.clone())),
                    None => {
                        proof {
                            assert(false);
                        }
                        Err(KvError::KeyNotFound)
                    },
                }
            },
            None => Ok(None),
        }
    }

    /// How many bytes the log holds on disk, over all segments.
    pub fn total_bytes_on_disk(&mut self) -> (r: u128)
        ensures
            final(self).kv() == old(self).kv(),
            final(self).wf() == old(self).wf(),
            final(self).segments_view() == old(self).segments_view(),
            r == segs_bytes(old(self).segments_view()),
    {
        self.storage.total_bytes()
    }

    /// Takes the store apart into its segments, as they would stand
    /// in the data directory: in identifier order, whole records,
    /// replayable back into this store's exact content.
    pub fn into_segments(self) -> (r: Vec<Segment>)
        ensures
            seg_views(r@) == self.segments_view(),
            self.wf() ==> {
                &&& ids_sorted(r@)
                &&& ids_distinct(r@)
                &&& forall|j: int|
                    0 <= j < r@.len() ==> #[trigger] r@[j].f_id.id <= self.id_span()
                &&& forall|j: int| 0 <= j < r@.len() ==> #[trigger] r@[j].data@.len() <= u64::MAX
                &&& forall|j: int|
                    0 <= j < r@.len() ==> #[trigger] decoded_end(r@[j].data@, 0)
                        == r@[j].data@.len()
                &&& replay(segs_records(self.segments_view())) is Some
                &&& kv_map(replay(segs_records(self.segments_view()))->Some_0) == self.kv()
                &&& ptr_map(replay(segs_records(self.segments_view()))->Some_0)
                    == self.index_map()
            },
    {
        let s = self.storage.into_parts();
        proof {
            if self.wf() {
                assert forall|i: int, j: int| 0 <= i < j < s@.len() implies s@[i].f_id.id
                    < s@[j].f_id.id by {
                    assert(self.segments_view()[i].id < self.segments_view()[j].id);
                }
                assert forall|j: int|
                    0 <= j < s@.len() implies #[trigger] s@[j].data@.len() <= u64::MAX
                        && decoded_end(s@[j].data@, 0) == s@[j].data@.len() by {
                    assert(self.segments_view()[j].data.len() <= u64::MAX);
                    assert(decoded_end(self.segments_view()[j].data, 0)
                        == self.segments_view()[j].data.len());
                }
            }
        }
        s
    }
}

/// Every live sequencer is at most the store's bound, so any tag
/// issued later strictly supersedes every record already live: a
/// mutation appended by this process lands with a greater sequencer
/// than anything written before it.
pub proof fn lemma_live_sequencers_bounded(s: KvStore, k: Seq<char>)
    requires
        s.wf(),
        s.index_map().contains_key(k),
    ensures
        s.index_map()[k].1 <= s.seq_bound(),
{
    assert(s.model().contains_key(k));
    assert(ptr_map(s.model())[k] == (s.model()[k].lp, s.model()[k].seq));
}

/// Replay rebuilds the store: for any well-formed store, replaying
/// its segments is conflict-free and yields exactly the in-memory
/// index, pointer for pointer and sequencer for sequencer.
pub proof fn lemma_replay_rebuilds_index(s: KvStore)
    requires
        s.wf(),
    ensures
        replay(segs_records(s.segments_view())) is Some,
        ptr_map(replay(segs_records(s.segments_view()))->Some_0) == s.index_map(),
{
}

/// Persistence: for any well-formed store, replaying its segments
/// yields exactly its key-value content, so a store reopened from the
/// same directory serves every `get` the same answer.
pub proof fn lemma_replay_rebuilds_content(s: KvStore)
    requires
        s.wf(),
    ensures
        replay(segs_records(s.segments_view())) is Some,
        kv_map(replay(segs_records(s.segments_view()))->Some_0) == s.kv(),
{
}



} // verus!
