//! The storage engine: an append-only log of mutation records and an
//! in-memory index from each live key to the position of its most recent
//! `Put` record.
//!
//! The log is the source of truth; the index is derived from it by replay.
//! The store's well-formedness ties the two together: the index always equals
//! the replay of the log it stands beside, so every index entry points at a
//! `Put` record for exactly its key.

use vstd::prelude::*;
use vstd::hash_map::StringHashMap;
use vstd::string::StringExecFns;
use crate::codec::{Command, Rec, spec_decode_log, spec_encode_log, recs_bounded, lemma_codec_round_trip};
use crate::error::KvsError;

verus! {

/// The index that replaying a log leaves behind: each key that ends the
/// replay with a live value is mapped to the position of its latest `Put`
/// record; a key whose last record is `Rm` is absent.
pub open spec fn replay_index(recs: Seq<Rec>) -> Map<Seq<char>, int>
    decreases recs.len(),
{
    if recs.len() == 0 {
        Map::empty()
    } else {
        let prev = replay_index(recs.drop_last());
        match recs.last() {
            Rec::Put { key, .. } => prev.insert(key, recs.len() - 1),
            Rec::Rm { key } => prev.remove(key),
        }
    }
}

/// The key-value mapping a log denotes: each key's most recent `Put` value,
/// unless an `Rm` came later.
pub open spec fn live_map(recs: Seq<Rec>) -> Map<Seq<char>, Seq<char>>
    decreases recs.len(),
{
    if recs.len() == 0 {
        Map::empty()
    } else {
        let prev = live_map(recs.drop_last());
        match recs.last() {
            Rec::Put { key, value } => prev.insert(key, value),
            Rec::Rm { key } => prev.remove(key),
        }
    }
}

/// Pointer/position coherence: a replayed index points every key at a `Put`
/// record for exactly that key, inside the log, and the value there is the
/// key's live value.  The index and the live mapping cover the same keys.
pub proof fn lemma_replay_index_coherent(recs: Seq<Rec>)
    ensures
        forall|k: Seq<char>| #[trigger]
            replay_index(recs).contains_key(k) ==> 0 <= replay_index(recs)[k] < recs.len()
                && recs[replay_index(recs)[k]] is Put && recs[replay_index(recs)[k]].key() == k,
        forall|k: Seq<char>| #[trigger]
            replay_index(recs).contains_key(k) <==> live_map(recs).contains_key(k),
        forall|k: Seq<char>| #[trigger]
            replay_index(recs).contains_key(k) ==> live_map(recs)[k] == recs[replay_index(
                recs,
            )[k]].value(),
    decreases recs.len(),
{
    if recs.len() == 0 {
    } else {
        let front = recs.drop_last();
        lemma_replay_index_coherent(front);
        assert(forall|i: int| 0 <= i < front.len() ==> front[i] == #[trigger] recs[i]);
    }
}

/// Whether compaction retains the record at position `i`: only a `Put`
/// record that the index still points at, that is, the current value of its
/// key, is kept; every `Rm` record and every superseded `Put` is discarded.
pub open spec fn keep_at(recs: Seq<Rec>, idx: Map<Seq<char>, int>, i: int) -> bool {
    &&& recs[i] is Put
    &&& idx.contains_key(recs[i].key())
    &&& idx[recs[i].key()] == i
}

/// The records compaction retains, in their original relative order, judged
/// against the index `idx`.
pub open spec fn compact_with(recs: Seq<Rec>, idx: Map<Seq<char>, int>) -> Seq<Rec>
    decreases recs.len(),
{
    if recs.len() == 0 {
        Seq::empty()
    } else {
        let front = compact_with(recs.drop_last(), idx);
        if keep_at(recs, idx, recs.len() - 1) {
            front.push(recs.last())
        } else {
            front
        }
    }
}

/// The compaction of a log: the records its own replayed index still points
/// at, in order.
pub open spec fn compact(recs: Seq<Rec>) -> Seq<Rec> {
    compact_with(recs, replay_index(recs))
}

/// A fully compacted log: every record is a `Put`, and no key appears twice.
pub open spec fn canonical(recs: Seq<Rec>) -> bool {
    &&& forall|i: int| 0 <= i < recs.len() ==> (#[trigger] recs[i]) is Put
    &&& forall|i: int, j: int|
        0 <= i < j < recs.len() ==> (#[trigger] recs[i]).key() != (#[trigger] recs[j]).key()
}

/// Compaction never grows a log.
proof fn lemma_compact_with_len(recs: Seq<Rec>, idx: Map<Seq<char>, int>)
    ensures
        compact_with(recs, idx).len() <= recs.len(),
    decreases recs.len(),
{
    if recs.len() > 0 {
        lemma_compact_with_len(recs.drop_last(), idx);
    }
}

/// Walking one more record either appends it to the compacted output, when
/// it is retained, or leaves the output as it was.
proof fn lemma_compact_with_take_step(recs: Seq<Rec>, idx: Map<Seq<char>, int>, n: int)
    requires
        0 <= n < recs.len(),
    ensures
        compact_with(recs.take(n + 1), idx) == if keep_at(recs, idx, n) {
            compact_with(recs.take(n), idx).push(recs[n])
        } else {
            compact_with(recs.take(n), idx)
        },
{
    assert(recs.take(n + 1).drop_last() =~= recs.take(n));
    assert(recs.take(n + 1).last() == recs[n]);
}

/// How the compacted log relates to its source: every retained record lands
/// at the position given by the number of records retained before it, and
/// every record of the output is a retained record whose origin the index
/// names.
proof fn lemma_compact_with_structure(recs: Seq<Rec>, idx: Map<Seq<char>, int>)
    ensures
        forall|i: int|
            0 <= i < recs.len() && #[trigger] keep_at(recs, idx, i) ==> {
                let j = compact_with(recs.take(i), idx).len() as int;
                &&& j < compact_with(recs, idx).len()
                &&& compact_with(recs, idx)[j] == recs[i]
            },
        forall|j: int| #![trigger compact_with(recs, idx)[j]]
            0 <= j < compact_with(recs, idx).len() ==> {
                let r = compact_with(recs, idx)[j];
                &&& r is Put
                &&& idx.contains_key(r.key())
                &&& 0 <= idx[r.key()] < recs.len()
                &&& recs[idx[r.key()]] == r
                &&& compact_with(recs.take(idx[r.key()]), idx).len() == j
            },
    decreases recs.len(),
{
    if recs.len() == 0 {
    } else {
        let front = recs.drop_last();
        let last_i = recs.len() - 1;
        lemma_compact_with_structure(front, idx);
        assert(forall|i: int| 0 <= i < front.len() ==> front[i] == #[trigger] recs[i]);
        assert(forall|i: int|
            0 <= i < front.len() ==> (#[trigger] keep_at(front, idx, i)) == keep_at(
                recs,
                idx,
                i,
            ));
        assert(forall|i: int|
            0 <= i <= front.len() ==> recs.take(i) =~= #[trigger] front.take(i));
        assert(recs.take(last_i) =~= front);
        assert forall|i: int| 0 <= i < recs.len() && #[trigger] keep_at(recs, idx, i) implies {
            let j = compact_with(recs.take(i), idx).len() as int;
            &&& j < compact_with(recs, idx).len()
            &&& compact_with(recs, idx)[j] == recs[i]
        } by {
            if i < last_i {
                assert(keep_at(front, idx, i));
                assert(compact_with(front, idx)[compact_with(front.take(i), idx).len() as int]
                    == front[i]);
            }
        }
        assert forall|j: int| #![trigger compact_with(recs, idx)[j]]
            0 <= j < compact_with(recs, idx).len() implies {
            let r = compact_with(recs, idx)[j];
            &&& r is Put
            &&& idx.contains_key(r.key())
            &&& 0 <= idx[r.key()] < recs.len()
            &&& recs[idx[r.key()]] == r
            &&& compact_with(recs.take(idx[r.key()]), idx).len() == j
        } by {
            if j < compact_with(front, idx).len() {
                assert(compact_with(front, idx)[j] == compact_with(recs, idx)[j]);
                let r = compact_with(front, idx)[j];
                assert(front[idx[r.key()]] == r);
                assert(recs.take(idx[r.key()]) =~= front.take(idx[r.key()]));
            } else {
                assert(keep_at(recs, idx, last_i));
            }
        }
    }
}

/// Replaying a fully compacted log points every record's key back at that
/// record, and gives it that record's value.
proof fn lemma_replay_index_canonical(recs: Seq<Rec>)
    requires
        canonical(recs),
    ensures
        forall|i: int|
            0 <= i < recs.len() ==> {
                let r = #[trigger] recs[i];
                &&& replay_index(recs).contains_key(r.key())
                &&& replay_index(recs)[r.key()] == i
                &&& live_map(recs).contains_key(r.key())
                &&& live_map(recs)[r.key()] == r.value()
            },
    decreases recs.len(),
{
    if recs.len() == 0 {
    } else {
        let front = recs.drop_last();
        assert(forall|i: int| 0 <= i < front.len() ==> front[i] == #[trigger] recs[i]);
        assert(canonical(front));
        lemma_replay_index_canonical(front);
        assert(forall|i: int|
            0 <= i < front.len() ==> (#[trigger] recs[i]).key() != recs[recs.len() - 1].key());
    }
}

/// Every record that compaction keeps is kept exactly once, so the result is
/// fully compacted; its replayed index maps each key to its new, contiguous
/// position; and the live mapping it denotes is untouched.
proof fn lemma_compact_index(recs: Seq<Rec>)
    ensures
        canonical(compact(recs)),
        forall|k: Seq<char>| #[trigger]
            replay_index(compact(recs)).contains_key(k) <==> replay_index(recs).contains_key(k),
        forall|k: Seq<char>| #[trigger]
            replay_index(recs).contains_key(k) ==> replay_index(compact(recs))[k] == compact_with(
                recs.take(replay_index(recs)[k]),
                replay_index(recs),
            ).len(),
        live_map(compact(recs)) == live_map(recs),
{
    let idx = replay_index(recs);
    let c = compact(recs);
    lemma_replay_index_coherent(recs);
    lemma_replay_index_coherent(c);
    lemma_compact_with_structure(recs, idx);
    assert forall|j1: int, j2: int| 0 <= j1 < j2 < c.len() implies c[j1].key() != c[j2].key() by {
        if c[j1].key() == c[j2].key() {
            assert(compact_with(recs.take(idx[c[j1].key()]), idx).len() == j1);
            assert(compact_with(recs.take(idx[c[j2].key()]), idx).len() == j2);
        }
    }
    assert(canonical(c));
    lemma_replay_index_canonical(c);
    assert forall|k: Seq<char>| #[trigger]
        replay_index(recs).contains_key(k) implies replay_index(c).contains_key(k)
        && replay_index(c)[k] == compact_with(recs.take(idx[k]), idx).len() && live_map(c)[k]
        == live_map(recs)[k] by {
        let i = idx[k];
        assert(keep_at(recs, idx, i));
        let j = compact_with(recs.take(i), idx).len() as int;
        assert(c[j] == recs[i]);
        assert(replay_index(c)[c[j].key()] == j);
        assert(live_map(c)[c[j].key()] == c[j].value());
    }
    assert forall|k: Seq<char>| #[trigger]
        replay_index(c).contains_key(k) implies replay_index(recs).contains_key(k) by {
        let j = replay_index(c)[k];
        assert(c[j].key() == k);
        assert(idx.contains_key(c[j].key()));
    }
    assert forall|k: Seq<char>|
        #[trigger] live_map(c).contains_key(k) <==> live_map(recs).contains_key(k) by {
        let a = replay_index(c).contains_key(k);
        let b = replay_index(recs).contains_key(k);
    }
    assert forall|k: Seq<char>| #[trigger]
        live_map(c).contains_key(k) implies live_map(c)[k] == live_map(recs)[k] by {
        assert(replay_index(recs).contains_key(k));
    }
    assert(live_map(c) =~= live_map(recs));
}

/// Compaction preserves the store's contents: the live mapping of a
/// compacted log equals that of the log it came from, so every read after a
/// replay-and-compact cycle answers as it did before.
pub proof fn lemma_compact_preserves_live(recs: Seq<Rec>)
    ensures
        live_map(compact(recs)) == live_map(recs),
{
    lemma_compact_index(recs);
}

/// A log on which every record is retained compacts to itself.
proof fn lemma_compact_with_all_kept(recs: Seq<Rec>, idx: Map<Seq<char>, int>)
    requires
        forall|i: int| 0 <= i < recs.len() ==> #[trigger] keep_at(recs, idx, i),
    ensures
        compact_with(recs, idx) == recs,
    decreases recs.len(),
{
    if recs.len() == 0 {
        assert(compact_with(recs, idx) =~= recs);
    } else {
        let front = recs.drop_last();
        assert(forall|i: int| 0 <= i < front.len() ==> front[i] == #[trigger] recs[i]);
        assert forall|i: int| 0 <= i < front.len() implies #[trigger] keep_at(
            front,
            idx,
            i,
        ) by {
            assert(keep_at(recs, idx, i));
        }
        lemma_compact_with_all_kept(front, idx);
        assert(compact_with(recs, idx) =~= recs);
    }
}

/// Compaction is idempotent: compacting a log that is already fully
/// compacted reproduces it record for record, and hence byte for byte once
/// encoded.
pub proof fn lemma_compact_idempotent(recs: Seq<Rec>)
    ensures
        compact(compact(recs)) == compact(recs),
        spec_encode_log(compact(compact(recs))) == spec_encode_log(compact(recs)),
{
    let c = compact(recs);
    lemma_compact_index(recs);
    lemma_replay_index_canonical(c);
    assert(forall|j: int| 0 <= j < c.len() ==> #[trigger] keep_at(c, replay_index(c), j));
    lemma_compact_with_all_kept(c, replay_index(c));
}

/// The storage engine's state: the decoded log, the index, and the pointer
/// counter that names the position the next record will take.  The log file
/// on disk holds exactly the encoding of `log`; the layer doing file
/// input/output keeps it that way.
pub struct KvStore {
    /// The index: key to logical pointer of its latest `Put` record.
    pub kv: StringHashMap<usize>,
    /// Where the store lives on disk.
    pub directory_path: String,
    /// The next logical pointer to assign, one past the last record.
    pub log_pointer: usize,
    /// The decoded log, in commit order.
    pub log: Vec<Command>,
}

impl KvStore {
    /// The index as a mathematical map.
    pub open spec fn abs_index(self) -> Map<Seq<char>, int> {
        Map::new(|k: Seq<char>| self.kv@.contains_key(k), |k: Seq<char>| self.kv@[k] as int)
    }

    /// The log as a sequence of record models.
    pub open spec fn recs(self) -> Seq<Rec> {
        self.log.deep_view()
    }

    /// The key-value mapping the store currently holds.
    pub open spec fn live(self) -> Map<Seq<char>, Seq<char>> {
        live_map(self.recs())
    }

    /// Well-formedness: the index is exactly the replay of the log, and the
    /// pointer counter names the next log position.
    pub open spec fn wf(self) -> bool {
        &&& self.abs_index() == replay_index(self.recs())
        &&& self.log_pointer == self.log.len()
    }

    /// A fresh, empty store rooted at `path`.
    pub fn new(path: String) -> (s: KvStore)
        ensures
            s.wf(),
            s.kv@ == Map::<Seq<char>, usize>::empty(),
            s.log_pointer == 0,
            s.recs() == Seq::<Rec>::empty(),
            s.live() == Map::<Seq<char>, Seq<char>>::empty(),
            s.directory_path@ == path@,
    {
        let s = KvStore {
            kv: StringHashMap::new(),
            directory_path: path,
            log_pointer: 0,
            log: Vec::new(),
        };
        proof {
            assert(s.recs() =~= Seq::<Rec>::empty());
            assert(s.abs_index() =~= replay_index(s.recs()));
            assert(s.live() =~= Map::<Seq<char>, Seq<char>>::empty());
        }
        s
    }

    /// The path of the log file under the store's directory.
    pub fn get_file_path(&self) -> (r: String)
        ensures
            r@ == self.directory_path@ + "/log.txt"@,
    {
        self.directory_path.clone().concat("/log.txt")
    }

    /// Assigns `value` to `key`: the index takes the current pointer, a `Put`
    /// record joins the log, and the pointer moves past it — one atomic unit.
    pub fn set(&mut self, key: String, value: String) -> (r: Result<(), KvsError>)
        requires
            old(self).wf(),
        ensures
            final(self).wf(),
            r is Ok,
            final(self).recs() == old(self).recs().push(
                Rec::Put { key: key@, value: value@ },
            ),
            final(self).live() == old(self).live().insert(key@, value@),
            final(self).directory_path == old(self).directory_path,
    {
        let ghost prev = self.recs();
        let ptr = self.log_pointer;
        self.kv.insert(key.clone(), ptr);
        self.log.push(Command::Put { key, value });
        self.log_pointer = self.log.len();
        proof {
            assert(self.recs() =~= prev.push(self.recs().last()));
            assert(self.recs().drop_last() =~= prev);
            assert(self.abs_index() =~= replay_index(self.recs()));
        }
        Ok(())
    }

    /// Withdraws `key`: fails with `KeyNotFound` and writes nothing if the
    /// key has no live value; otherwise the key leaves the index, an `Rm`
    /// record joins the log, and the pointer moves past it.
    pub fn remove(&mut self, key: String) -> (r: Result<(), KvsError>)
        requires
            old(self).wf(),
        ensures
            final(self).wf(),
            r is Ok <==> old(self).live().contains_key(key@),
            r is Err ==> r == Err::<(), KvsError>(KvsError::KeyNotFound) && *final(self)
                == *old(self),
            r is Ok ==> final(self).recs() == old(self).recs().push(Rec::Rm { key: key@ })
                && final(self).live() == old(self).live().remove(key@),
            final(self).directory_path == old(self).directory_path,
    {
        let ghost prev = self.recs();
        proof {
            lemma_replay_index_coherent(prev);
            assert(old(self).abs_index().contains_key(key@) == old(self).kv@.contains_key(
                key@,
            ));
        }
        if !self.kv.contains_key(key.as_str()) {
            return Err(KvsError::KeyNotFound);
        }
        self.kv.remove(key.as_str());
        self.log.push(Command::Rm { key });
        self.log_pointer = self.log.len();
        proof {
            assert(self.recs() =~= prev.push(self.recs().last()));
            assert(self.recs().drop_last() =~= prev);
            assert(self.abs_index() =~= replay_index(self.recs()));
        }
        Ok(())
    }

    /// Reads the live value of `key`: the index gives the logical pointer,
    /// and the record at that position of the log gives the value.  A key
    /// absent from the index has no live value, which is not an error.
    pub fn get(&self, key: String) -> (r: Result<Option<String>, KvsError>)
        requires
            self.wf(),
        ensures
            match r {
                Ok(Some(v)) => self.live().contains_key(key@) && v@ == self.live()[key@],
                Ok(None) => !self.live().contains_key(key@),
                Err(_) => false,
            },
    {
        proof {
            lemma_replay_index_coherent(self.recs());
        }
        proof {
            assert(self.abs_index().contains_key(key@) == self.kv@.contains_key(key@));
        }
        match self.kv.get(key.as_str()) {
            None => Ok(None),
            Some(ptr) => {
                let p = *ptr;
                proof {
                    assert(self.abs_index().contains_key(key@));
                    assert(self.abs_index()[key@] == p as int);
                    assert(replay_index(self.recs()).contains_key(key@));
                    assert(self.recs().len() == self.log@.len());
                    assert(self.recs()[p as int] is Put);
                    assert(self.recs()[p as int] == self.log@[p as int]@);
                }
                let cmd = &self.log[p];
                proof {
                    assert(*cmd == self.log@[p as int]);
                    assert(cmd@ == self.recs()[p as int]);
                    assert(self.live()[key@] == self.recs()[p as int].value());
                }
                match cmd {
                    Command::Put { key: _, value } => Ok(Some(value.clone())),
                    Command::Rm { .. } => Err(KvsError::StoreCorruption),
                }
            },
        }
    }
}

/// Replays decoded records, in file order, into a fresh store's index:
/// `Put` points its key at the record's position, `Rm` withdraws its key,
/// and the pointer counter moves once per record of either kind.
pub fn build_log_pointers(in_mem_kv: &mut KvStore, deserialized_commands: Vec<Command>)
    requires
        old(in_mem_kv).kv@ == Map::<Seq<char>, usize>::empty(),
        old(in_mem_kv).log_pointer == 0,
    ensures
        final(in_mem_kv).abs_index() == replay_index(deserialized_commands.deep_view()),
        final(in_mem_kv).log_pointer == deserialized_commands@.len(),
        final(in_mem_kv).log == old(in_mem_kv).log,
        final(in_mem_kv).directory_path == old(in_mem_kv).directory_path,
{
    let ghost recs = deserialized_commands.deep_view();
    let mut i: usize = 0;
    proof {
        assert(recs.take(0) =~= Seq::<Rec>::empty());
        assert(in_mem_kv.abs_index() =~= replay_index(recs.take(0)));
    }
    while i < deserialized_commands.len()
        invariant
            i <= deserialized_commands.len(),
            recs == deserialized_commands.deep_view(),
            in_mem_kv.abs_index() == replay_index(recs.take(i as int)),
            in_mem_kv.log_pointer == i,
            in_mem_kv.log == old(in_mem_kv).log,
            in_mem_kv.directory_path == old(in_mem_kv).directory_path,
        decreases deserialized_commands.len() - i,
    {
        let ptr = in_mem_kv.log_pointer;
        match &deserialized_commands[i] {
            Command::Put { key, .. } => {
                in_mem_kv.kv.insert(key.clone(), ptr);
            },
            Command::Rm { key } => {
                in_mem_kv.kv.remove(key.as_str());
            },
        }
        in_mem_kv.log_pointer = ptr + 1;
        i = i + 1;
        proof {
            assert(recs.take(i as int).drop_last() =~= recs.take(i - 1));
            assert(recs.take(i as int).last() == recs[i - 1]);
            assert(in_mem_kv.abs_index() =~= replay_index(recs.take(i as int)));
        }
    }
    proof {
        assert(recs.take(recs.len() as int) =~= recs);
    }
}

/// Rewrites the store for compaction: walks the decoded records in order,
/// retains exactly the `Put` records the index still points at, hands them
/// back in `new_disc`, repoints each retained key at its new position, and
/// leaves the pointer counter at the new log's record count.
pub fn perform_compaction(
    in_mem_kv: &mut KvStore,
    deserialized_commands: Vec<Command>,
    new_disc: &mut Vec<Command>,
)
    requires
        old(in_mem_kv).abs_index() == replay_index(deserialized_commands.deep_view()),
        old(new_disc)@.len() == 0,
    ensures
        final(new_disc).deep_view() == compact(deserialized_commands.deep_view()),
        final(in_mem_kv).abs_index() == replay_index(compact(deserialized_commands.deep_view())),
        final(in_mem_kv).log_pointer == final(new_disc)@.len(),
        final(in_mem_kv).log == old(in_mem_kv).log,
        final(in_mem_kv).directory_path == old(in_mem_kv).directory_path,
{
    let ghost recs0 = deserialized_commands.deep_view();
    let ghost idx0 = replay_index(recs0);
    proof {
        lemma_replay_index_coherent(recs0);
        lemma_compact_with_structure(recs0, idx0);
        assert(recs0.take(0) =~= Seq::<Rec>::empty());
    }
    let mut removals: usize = 0;
    let mut i: usize = 0;
    while i < deserialized_commands.len()
        invariant
            i <= deserialized_commands.len(),
            recs0 == deserialized_commands.deep_view(),
            idx0 == replay_index(recs0),
            old(in_mem_kv).abs_index() == idx0,
            new_disc.deep_view() == compact_with(recs0.take(i as int), idx0),
            removals == i - new_disc@.len(),
            forall|k: Seq<char>| #[trigger]
                idx0.contains_key(k) <==> in_mem_kv.kv@.contains_key(k),
            forall|k: Seq<char>| #[trigger]
                idx0.contains_key(k) ==> if idx0[k] < i as int {
                    in_mem_kv.kv@[k] as int == compact_with(recs0.take(idx0[k]), idx0).len() as int
                } else {
                    in_mem_kv.kv@[k] as int == idx0[k]
                },
            in_mem_kv.log == old(in_mem_kv).log,
            in_mem_kv.directory_path == old(in_mem_kv).directory_path,
            in_mem_kv.log_pointer == old(in_mem_kv).log_pointer,
        decreases deserialized_commands.len() - i,
    {
        let ghost prev_disc = new_disc.deep_view();
        proof {
            lemma_replay_index_coherent(recs0);
            lemma_compact_with_take_step(recs0, idx0, i as int);
        }
        let cmd = &deserialized_commands[i];
        proof {
            assert(*cmd == deserialized_commands@[i as int]);
            assert(cmd@ == recs0[i as int]);
        }
        match cmd {
            Command::Rm { .. } => {
                proof {
                    assert(!keep_at(recs0, idx0, i as int));
                    assert forall|k: Seq<char>| #[trigger]
                        idx0.contains_key(k) && idx0[k] < i + 1 implies in_mem_kv.kv@[k] as int
                        == compact_with(recs0.take(idx0[k]), idx0).len() as int by {
                        if idx0[k] == i as int {
                            assert(recs0[idx0[k]] is Put);
                            assert(false);
                        }
                    }
                }
                removals = removals + 1;
            },
            Command::Put { key, .. } => {
                let retain = match in_mem_kv.kv.get(key.as_str()) {
                    Some(p) => *p == i,
                    None => false,
                };
                proof {
                    assert(recs0[i as int] is Put);
                    assert(recs0[i as int].key() == key@);
                    if in_mem_kv.kv@.contains_key(key@) {
                        assert(idx0.contains_key(key@));
                        if idx0[key@] < i as int {
                            lemma_compact_with_len(recs0.take(idx0[key@]), idx0);
                            assert(recs0.take(idx0[key@]).len() == idx0[key@]);
                            assert(in_mem_kv.kv@[key@] as int <= idx0[key@]);
                            assert(!retain);
                            assert(!keep_at(recs0, idx0, i as int));
                        } else {
                            assert(in_mem_kv.kv@[key@] as int == idx0[key@]);
                            assert(retain == (idx0[key@] == i as int));
                        }
                    } else {
                        assert(!idx0.contains_key(key@));
                        assert(!retain);
                        assert(!keep_at(recs0, idx0, i as int));
                    }
                    assert(retain == keep_at(recs0, idx0, i as int));
                }
                if retain {
                    new_disc.push(cmd.duplicate());
                    in_mem_kv.kv.insert(key.clone(), i - removals);
                    proof {
                        assert(new_disc.deep_view() =~= prev_disc.push(recs0[i as int]));
                        assert forall|k: Seq<char>| #[trigger]
                            idx0.contains_key(k) && idx0[k] < i + 1 implies in_mem_kv.kv@[k] as int
                            == compact_with(recs0.take(idx0[k]), idx0).len() as int by {
                            if idx0[k] == i as int {
                                assert(recs0[idx0[k]].key() == k);
                                assert(k == key@);
                            }
                        }
                    }
                } else {
                    proof {
                        assert forall|k: Seq<char>| #[trigger]
                            idx0.contains_key(k) && idx0[k] < i + 1 implies in_mem_kv.kv@[k] as int
                            == compact_with(recs0.take(idx0[k]), idx0).len() as int by {
                            if idx0[k] == i as int {
                                assert(recs0[idx0[k]].key() == k);
                                assert(keep_at(recs0, idx0, i as int));
                                assert(false);
                            }
                        }
                    }
                    removals = removals + 1;
                }
            },
        }
        i = i + 1;
    }
    proof {
        assert(recs0.take(recs0.len() as int) =~= recs0);
    }
    in_mem_kv.log_pointer = new_disc.len();
    proof {
        lemma_replay_index_coherent(recs0);
        lemma_compact_index(recs0);
        assert forall|k: Seq<char>| #[trigger]
            in_mem_kv.kv@.contains_key(k) <==> replay_index(compact(recs0)).contains_key(
            k,
        ) by {
            let a = idx0.contains_key(k);
            let b = replay_index(compact(recs0)).contains_key(k);
        }
        assert forall|k: Seq<char>| #[trigger]
            in_mem_kv.kv@.contains_key(k) implies in_mem_kv.kv@[k] as int == replay_index(
            compact(recs0),
        )[k] by {
            assert(idx0.contains_key(k));
            assert(0 <= idx0[k] < recs0.len());
        }
        assert(in_mem_kv.abs_index() =~= replay_index(compact(recs0)));
    }
}

impl KvStore {
    /// Opens a store from the bytes of its log file: decodes the records,
    /// tolerating a corrupt tail, replays them into a fresh index, and then
    /// unconditionally compacts, so the store's log holds exactly the
    /// current record of every live key.  The caller persists the compacted
    /// log, `encode_log(&s.log)`, back to disk.
    pub fn open(directory_path: String, log_bytes: &[u8]) -> (s: KvStore)
        ensures
            s.wf(),
            s.recs() == compact(spec_decode_log(log_bytes@)),
            s.live() == live_map(spec_decode_log(log_bytes@)),
            s.directory_path@ == directory_path@,
    {
        let deserialized_commands = crate::codec::decode_log(log_bytes);
        let mut in_mem_kv = KvStore::new(directory_path);
        build_log_pointers(&mut in_mem_kv, crate::codec::duplicate_commands(&deserialized_commands));
        let mut new_disc: Vec<Command> = Vec::new();
        perform_compaction(&mut in_mem_kv, deserialized_commands, &mut new_disc);
        in_mem_kv.log = new_disc;
        proof {
            lemma_compact_preserves_live(spec_decode_log(log_bytes@));
        }
        in_mem_kv
    }
}

/// Pointer/position coherence for a well-formed store, as every operation
/// leaves it: each key the index holds points inside the log, at a `Put`
/// record for exactly that key.
pub proof fn lemma_store_coherence(s: KvStore)
    requires
        s.wf(),
    ensures
        forall|k: Seq<char>| #[trigger]
            s.abs_index().contains_key(k) ==> 0 <= s.abs_index()[k] < s.recs().len()
                && s.recs()[s.abs_index()[k]] is Put && s.recs()[s.abs_index()[k]].key() == k,
{
    lemma_replay_index_coherent(s.recs());
}

/// The value that the last `Put` record for `k` assigned, unless an `Rm` of
/// `k` came later; nothing if `k` was never assigned or was removed last.
pub open spec fn last_live_value(recs: Seq<Rec>, k: Seq<char>) -> Option<Seq<char>>
    decreases recs.len(),
{
    if recs.len() == 0 {
        None
    } else {
        match recs.last() {
            Rec::Put { key, value } => if key == k {
                Some(value)
            } else {
                last_live_value(recs.drop_last(), k)
            },
            Rec::Rm { key } => if key == k {
                None
            } else {
                last_live_value(recs.drop_last(), k)
            },
        }
    }
}

/// Round trip: whatever sequence of operations built the log, the value read
/// for a key is the one from its last `Put` that no later `Rm` undid, and a
/// key whose last operation was `Rm`, or that was never written, reads as
/// absent.
pub proof fn lemma_round_trip(recs: Seq<Rec>, k: Seq<char>)
    ensures
        live_map(recs).contains_key(k) <==> last_live_value(recs, k) is Some,
        live_map(recs).contains_key(k) ==> Some(live_map(recs)[k]) == last_live_value(recs, k),
    decreases recs.len(),
{
    if recs.len() > 0 {
        lemma_round_trip(recs.drop_last(), k);
    }
}

/// Closing and reopening a store — encoding its log, decoding the bytes,
/// replaying them and compacting — answers every read exactly as the store
/// did before.
pub proof fn lemma_reopen_preserves_gets(recs: Seq<Rec>)
    requires
        recs_bounded(recs),
    ensures
        live_map(compact(spec_decode_log(spec_encode_log(recs)))) == live_map(recs),
{
    lemma_codec_round_trip(recs);
    lemma_compact_preserves_live(recs);
}

/// A replayed index covers finitely many keys; a fully compacted log indexes
/// exactly one key per record.
proof fn lemma_replay_index_finite(recs: Seq<Rec>)
    ensures
        replay_index(recs).dom().finite(),
        canonical(recs) ==> replay_index(recs).dom().len() == recs.len(),
    decreases recs.len(),
{
    if recs.len() == 0 {
        assert(replay_index(recs).dom() =~= Set::<Seq<char>>::empty());
    } else {
        let front = recs.drop_last();
        lemma_replay_index_finite(front);
        if canonical(recs) {
            assert(forall|i: int| 0 <= i < front.len() ==> front[i] == #[trigger] recs[i]);
            assert(canonical(front));
            lemma_replay_index_coherent(front);
            let last = recs.last();
            assert(!replay_index(front).contains_key(last.key()));
        }
    }
}

/// Writes to pairwise distinct keys, replayed from an empty log, lose
/// nothing: the log holds exactly one record per write, and the index maps
/// every written key to its own record and value.  One store serializes its
/// writers — `set` takes the store exclusively — so a group of writers with
/// disjoint keys leaves a log of exactly their records, in some order.
pub proof fn lemma_disjoint_key_writes(recs: Seq<Rec>)
    requires
        canonical(recs),
    ensures
        forall|i: int|
            0 <= i < recs.len() ==> {
                let r = #[trigger] recs[i];
                &&& replay_index(recs).contains_key(r.key())
                &&& replay_index(recs)[r.key()] == i
                &&& live_map(recs).contains_key(r.key())
                &&& live_map(recs)[r.key()] == r.value()
            },
        replay_index(recs).dom().len() == recs.len(),
{
    lemma_replay_index_canonical(recs);
    lemma_replay_index_finite(recs);
}

impl crate::engine::KvsEngine for KvStore {
    open spec fn kv_map(&self) -> Map<Seq<char>, Seq<char>> {
        self.live()
    }

    open spec fn inv(&self) -> bool {
        self.wf()
    }

    open spec fn reliable(&self) -> bool {
        true
    }

    fn set(&mut self, key: String, value: String) -> (r: Result<(), KvsError>) {
        KvStore::set(self, key, value)
    }

    fn get(&self, key: String) -> (r: Result<Option<String>, KvsError>) {
        KvStore::get(self, key)
    }

    fn remove(&mut self, key: String) -> (r: Result<(), KvsError>) {
        KvStore::remove(self, key)
    }
}

} // verus!
