use crate::command::Command;
use crate::error::KvsError;
use crate::keydir::{KeyDir, ValueEntry};
use crate::command::apply_segments;
use crate::segment::{
    commands_of, lemma_replay_index_keys, load, offsets_ascending, replay_index, segment_size,
    strictly_ascending, LoadedRecord,
};
use vstd::prelude::*;

verus! {

/// Size in bytes of the log above which the store compacts it.
pub const COMPACTION_THRESHOLD: u64 = 1048576;

/// The key directory after replaying segments `ids` (with decoded records
/// `segs`) in order, from an empty directory.
pub open spec fn replay_all(ids: Seq<u64>, segs: Seq<Seq<LoadedRecord>>) -> Map<
    Seq<char>,
    ValueEntry,
>
    decreases segs.len(),
{
    if segs.len() == 0 || ids.len() == 0 {
        Map::empty()
    } else {
        replay_index(replay_all(ids.drop_last(), segs.drop_last()), ids.last(), segs.last())
    }
}

/// Total number of bytes of decoded segments.
pub open spec fn total_size(segs: Seq<Seq<LoadedRecord>>) -> nat
    decreases segs.len(),
{
    if segs.len() == 0 {
        0
    } else {
        total_size(segs.drop_last()) + segment_size(segs.last()) as nat
    }
}

/// The id that a store opened over segments `ids` (ascending) appends to:
/// one more than the largest, or 1 if there is none.
pub open spec fn next_log_id(ids: Seq<u64>) -> int {
    if ids.len() == 0 {
        1
    } else {
        ids.last() + 1
    }
}

/// The directory's entries all point into segments of `ids`.
pub open spec fn points_into(d: Map<Seq<char>, ValueEntry>, ids: Seq<u64>) -> bool {
    forall|k: Seq<char>| #[trigger] d.contains_key(k) ==> ids.contains(d[k].log_id)
}

/// What `get` returns once the record at a key's location has been decoded:
/// the value of a `Put`, nothing at the end of the segment, and a
/// corruption error for a `Remove`.
pub open spec fn value_result(rec: Option<Command>) -> Option<Option<Seq<char>>> {
    match rec {
        Some(Command::Put { val, .. }) => Some(Some(val@)),
        Some(Command::Remove { .. }) => None,
        None => Some(None),
    }
}

/// The characters of an optional string.
pub open spec fn opt_view(x: Option<String>) -> Option<Seq<char>> {
    match x {
        Some(s) => Some(s@),
        None => None,
    }
}

/// Some entry of `d` points into segment `log_id`.
pub open spec fn referenced(d: Map<Seq<char>, ValueEntry>, log_id: u64) -> bool {
    exists|k: Seq<char>| #[trigger] d.contains_key(k) && d[k].log_id == log_id
}

proof fn lemma_replay_index_points(
    d: Map<Seq<char>, ValueEntry>,
    log_id: u64,
    recs: Seq<LoadedRecord>,
    ids: Seq<u64>,
)
    requires
        points_into(d, ids),
        ids.contains(log_id),
    ensures
        points_into(replay_index(d, log_id, recs), ids),
    decreases recs.len(),
{
    if recs.len() > 0 {
        lemma_replay_index_points(d, log_id, recs.drop_last(), ids);
    }
}

proof fn lemma_points_into_grow(d: Map<Seq<char>, ValueEntry>, ids: Seq<u64>, x: u64)
    requires
        points_into(d, ids),
    ensures
        points_into(d, ids.push(x)),
{
    assert forall|k: Seq<char>| #[trigger] d.contains_key(k) implies ids.push(x).contains(
        d[k].log_id,
    ) by {
        let i = choose|i: int| 0 <= i < ids.len() && ids[i] == d[k].log_id;
        assert(ids.push(x)[i] == d[k].log_id);
    }
}

/// The state of an open store: the key directory, the segments that exist
/// (each with a reader), the active segment and the byte counter.
pub struct Engine {
    key_dir: KeyDir,
    log_ids: Vec<u64>,
    log_id: u64,
    size: u64,
}

impl Engine {
    /// The key directory.
    pub closed spec fn dir(self) -> Map<Seq<char>, ValueEntry> {
        self.key_dir@
    }

    /// The directory's keys, in directory order.
    pub closed spec fn dir_keys(self) -> Seq<Seq<char>> {
        self.key_dir.keys()
    }

    /// Ids of the segments that exist, ascending.
    pub closed spec fn segments(self) -> Seq<u64> {
        self.log_ids@
    }

    /// Id of the active segment.
    pub closed spec fn active(self) -> u64 {
        self.log_id
    }

    /// The byte counter.
    pub closed spec fn byte_count(self) -> u64 {
        self.size
    }

    /// Segment ids ascend and the active one is the largest; every
    /// directory entry points into an existing segment.
    pub closed spec fn wf(self) -> bool {
        &&& self.key_dir.wf()
        &&& strictly_ascending(self.log_ids@)
        &&& self.log_ids@.len() > 0
        &&& self.log_ids@.last() == self.log_id
        &&& points_into(self.key_dir@, self.log_ids@)
    }

    /// Opens a store over the segments `ids`, given in ascending order with
    /// their decoded records. The directory is rebuilt by replaying them in
    /// order, the byte counter is their total size, and a new active segment
    /// gets the next id. `None` when no id is left for the active segment or
    /// the total size does not fit in `u64`.
    pub fn open(ids: Vec<u64>, segments: &Vec<Vec<LoadedRecord>>) -> (r: Option<Engine>)
        requires
            strictly_ascending(ids@),
            ids.len() == segments.len(),
            forall|i: int| 0 <= i < segments.len() ==> offsets_ascending(#[trigger] segments[i]@),
        ensures
            r is Some <==> next_log_id(ids@) <= u64::MAX && total_size(
                segments@.map_values(|v: Vec<LoadedRecord>| v@),
            ) <= u64::MAX,
            r matches Some(e) ==> {
                &&& e.wf()
                &&& e.dir() == replay_all(ids@, segments@.map_values(|v: Vec<LoadedRecord>| v@))
                &&& e.active() == next_log_id(ids@)
                &&& e.segments() == ids@.push(e.active())
                &&& e.byte_count() == total_size(
                    segments@.map_values(|v: Vec<LoadedRecord>| v@),
                )
            },
    {
        let ghost segs = segments@.map_values(|v: Vec<LoadedRecord>| v@);
        let mut key_dir = KeyDir::new();
        let mut size: u64 = 0;
        let mut overflow = false;
        let mut i: usize = 0;
        while i < ids.len()
            invariant
                i <= ids.len(),
                ids.len() == segments.len(),
                segs == segments@.map_values(|v: Vec<LoadedRecord>| v@),
                forall|j: int| 0 <= j < segments.len() ==> offsets_ascending(#[trigger] segments[j]@),
                key_dir.wf(),
                key_dir@ == replay_all(ids@.take(i as int), segs.take(i as int)),
                points_into(key_dir@, ids@.take(i as int)),
                !overflow ==> size == total_size(segs.take(i as int)),
                overflow ==> total_size(segs.take(i as int)) > u64::MAX,
            decreases ids.len() - i,
        {
            let ghost before = key_dir@;
            let n = load(ids[i], &segments[i], &mut key_dir);
            proof {
                let t = segs.take(i + 1);
                assert(t.drop_last() =~= segs.take(i as int));
                assert(t.last() == segments@[i as int]@);
                assert(ids@.take(i + 1).drop_last() =~= ids@.take(i as int));
                assert(ids@.take(i + 1).last() == ids@[i as int]);
                lemma_points_into_grow(before, ids@.take(i as int), ids@[i as int]);
                assert(ids@.take(i as int).push(ids@[i as int]) =~= ids@.take(i + 1));
                assert(ids@.take(i + 1).contains(ids@[i as int])) by {
                    assert(ids@.take(i + 1)[i as int] == ids@[i as int]);
                }
                lemma_replay_index_points(before, ids@[i as int], segments@[i as int]@, ids@.take(i + 1));
            }
            if !overflow {
                if n > u64::MAX - size {
                    overflow = true;
                } else {
                    size = size + n;
                }
            }
            i = i + 1;
        }
        proof {
            assert(ids@.take(ids.len() as int) =~= ids@);
            assert(segs.take(ids.len() as int) =~= segs);
        }
        if overflow {
            return None;
        }
        let log_id: u64;
        if ids.len() == 0 {
            log_id = 1;
        } else {
            let last = ids[ids.len() - 1];
            if last == u64::MAX {
                return None;
            }
            log_id = last + 1;
        }
        let mut log_ids = ids;
        let ghost old_ids = log_ids@;
        log_ids.push(log_id);
        proof {
            lemma_points_into_grow(key_dir@, old_ids, log_id);
            assert(strictly_ascending(log_ids@)) by {
                assert forall|a: int, b: int| 0 <= a < b < log_ids@.len() implies log_ids@[a]
                    < log_ids@[b] by {
                    if b == old_ids.len() && a < old_ids.len() - 1 {
                        assert(old_ids[a] < old_ids[old_ids.len() - 1]);
                    }
                }
            }
        }
        Some(Engine { key_dir, log_ids, log_id, size })
    }

    /// Id of the active segment.
    pub fn active_log_id(&self) -> (r: u64)
        ensures
            r == self.active(),
    {
        self.log_id
    }

    /// The byte counter.
    pub fn size(&self) -> (r: u64)
        ensures
            r == self.byte_count(),
    {
        self.size
    }

    /// Ids of the segments that exist, ascending.
    pub fn log_ids(&self) -> (r: &Vec<u64>)
        ensures
            r@ == self.segments(),
    {
        &self.log_ids
    }

    /// Number of keys in the directory.
    pub fn len(&self) -> (r: usize)
        requires
            self.wf(),
        ensures
            r == self.dir_keys().len(),
            forall|k: Seq<char>| self.dir().contains_key(k) <==> #[trigger] self.dir_keys().contains(
                k,
            ),
            self.dir_keys().no_duplicates(),
    {
        self.key_dir.len()
    }

    /// Location of the live record of `key`, if the key is present. Such a
    /// location lies in an existing segment.
    pub fn locate(&self, key: &String) -> (r: Option<ValueEntry>)
        requires
            self.wf(),
        ensures
            r == (if self.dir().contains_key(key@) {
                Some(self.dir()[key@])
            } else {
                None::<ValueEntry>
            }),
            r matches Some(e) ==> self.segments().contains(e.log_id),
    {
        self.key_dir.get(key)
    }

    /// Records that `Put { key, .. }` was appended to the active segment
    /// from `log_offset` up to `next_log_offset`. Returns whether the byte
    /// counter now exceeds the compaction threshold.
    pub fn record_set(&mut self, key: String, log_offset: u64, next_log_offset: u64) -> (compact:
        bool)
        requires
            old(self).wf(),
            log_offset <= next_log_offset,
            old(self).byte_count() + (next_log_offset - log_offset) <= u64::MAX,
        ensures
            final(self).wf(),
            final(self).dir() == old(self).dir().insert(
                key@,
                ValueEntry { log_id: old(self).active(), log_offset },
            ),
            final(self).byte_count() == old(self).byte_count() + (next_log_offset - log_offset),
            final(self).segments() == old(self).segments(),
            final(self).active() == old(self).active(),
            compact == (final(self).byte_count() > COMPACTION_THRESHOLD),
    {
        let ghost k = key@;
        self.key_dir.insert(key, ValueEntry { log_id: self.log_id, log_offset });
        proof {
            assert(self.log_ids@[self.log_ids@.len() - 1] == self.log_id);
            assert forall|x: Seq<char>| #[trigger] self.key_dir@.contains_key(
                x,
            ) implies self.log_ids@.contains(self.key_dir@[x].log_id) by {
                if x == k {
                    assert(self.log_ids@[self.log_ids@.len() - 1] == self.key_dir@[x].log_id);
                }
            }
        }
        self.size = self.size + (next_log_offset - log_offset);
        self.size > COMPACTION_THRESHOLD
    }

    /// Checks that `key` can be removed: `KeyNotFound` if it is absent.
    pub fn check_remove(&self, key: &String) -> (r: Result<(), KvsError>)
        requires
            self.wf(),
        ensures
            r is Ok <==> self.dir().contains_key(key@),
            r matches Err(e) ==> e is KeyNotFound,
    {
        if self.key_dir.contains_key(key) {
            Ok(())
        } else {
            Err(KvsError::KeyNotFound)
        }
    }

    /// Records that `Remove { key }` was appended to the active segment
    /// from `log_offset` up to `next_log_offset`. Returns whether the byte
    /// counter now exceeds the compaction threshold.
    pub fn record_remove(&mut self, key: &String, log_offset: u64, next_log_offset: u64) -> (compact:
        bool)
        requires
            old(self).wf(),
            log_offset <= next_log_offset,
            old(self).byte_count() + (next_log_offset - log_offset) <= u64::MAX,
        ensures
            final(self).wf(),
            final(self).dir() == old(self).dir().remove(key@),
            final(self).byte_count() == old(self).byte_count() + (next_log_offset - log_offset),
            final(self).segments() == old(self).segments(),
            final(self).active() == old(self).active(),
            compact == (final(self).byte_count() > COMPACTION_THRESHOLD),
    {
        self.key_dir.remove(key);
        self.size = self.size + (next_log_offset - log_offset);
        self.size > COMPACTION_THRESHOLD
    }

    /// Starts a compaction. Reserves the next id as the compaction target
    /// and the one after it as the new active segment; both become existing
    /// segments, and the byte counter restarts from 0. Returns the target,
    /// or `None`, changing nothing, when no two ids are left.
    pub fn begin_compaction(&mut self) -> (r: Option<u64>)
        requires
            old(self).wf(),
        ensures
            final(self).wf(),
            r is Some <==> old(self).active() <= u64::MAX - 2,
            final(self).dir() == old(self).dir(),
            final(self).dir_keys() == old(self).dir_keys(),
            r is None ==> *final(self) == *old(self),
            r matches Some(t) ==> {
                &&& t == old(self).active() + 1
                &&& final(self).active() == t + 1
                &&& final(self).segments() == old(self).segments().push(t).push((t + 1) as u64)
                &&& final(self).byte_count() == 0
            },
    {
        if self.log_id > u64::MAX - 2 {
            return None;
        }
        let target = self.log_id + 1;
        let ghost ids0 = self.log_ids@;
        self.log_ids.push(target);
        self.log_ids.push(target + 1);
        self.log_id = target + 1;
        self.size = 0;
        proof {
            lemma_points_into_grow(self.key_dir@, ids0, target);
            lemma_points_into_grow(self.key_dir@, ids0.push(target), (target + 1) as u64);
            let ids = self.log_ids@;
            assert forall|a: int, b: int| 0 <= a < b < ids.len() implies ids[a] < ids[b] by {
                if b >= ids0.len() && a < ids0.len() {
                    assert(ids0[a] <= ids0[ids0.len() - 1]);
                }
            }
        }
        Some(target)
    }

    /// Points the directory entry at index `i` of directory order to the
    /// record rewritten in segment `log_id` from `log_offset` up to
    /// `next_log_offset`, and counts its bytes.
    pub fn relocate(&mut self, i: usize, log_id: u64, log_offset: u64, next_log_offset: u64)
        requires
            old(self).wf(),
            i < old(self).dir_keys().len(),
            old(self).segments().contains(log_id),
            log_offset <= next_log_offset,
            old(self).byte_count() + (next_log_offset - log_offset) <= u64::MAX,
        ensures
            final(self).wf(),
            final(self).dir_keys() == old(self).dir_keys(),
            final(self).dir() == old(self).dir().insert(
                old(self).dir_keys()[i as int],
                ValueEntry { log_id, log_offset },
            ),
            final(self).byte_count() == old(self).byte_count() + (next_log_offset - log_offset),
            final(self).segments() == old(self).segments(),
            final(self).active() == old(self).active(),
    {
        self.key_dir.set_at(i, ValueEntry { log_id, log_offset });
        self.size = self.size + (next_log_offset - log_offset);
    }

    /// Key and location of the directory entry at index `i` of directory
    /// order.
    pub fn entry_at(&self, i: usize) -> (r: (&String, ValueEntry))
        requires
            self.wf(),
            i < self.dir_keys().len(),
        ensures
            r.0@ == self.dir_keys()[i as int],
            self.dir().contains_key(r.0@),
            r.1 == self.dir()[r.0@],
            self.segments().contains(r.1.log_id),
    {
        self.key_dir.entry_at(i)
    }

    /// Ends a compaction into segment `target`: every segment below
    /// `target` that no directory entry points into stops existing. Returns
    /// their ids, ascending, for their files to be deleted.
    pub fn finish_compaction(&mut self, target: u64) -> (stale: Vec<u64>)
        requires
            old(self).wf(),
            target <= old(self).active(),
        ensures
            final(self).wf(),
            final(self).dir() == old(self).dir(),
            final(self).dir_keys() == old(self).dir_keys(),
            final(self).active() == old(self).active(),
            final(self).byte_count() == old(self).byte_count(),
            strictly_ascending(stale@),
            forall|x: u64|
                stale@.contains(x) <==> (old(self).segments().contains(x) && x < target
                    && !referenced(old(self).dir(), x)),
            forall|x: u64|
                final(self).segments().contains(x) <==> (old(self).segments().contains(x)
                    && !stale@.contains(x)),
            (forall|k: Seq<char>| #[trigger] old(self).dir().contains_key(k) ==> old(self).dir()[k].log_id
                == target) ==> forall|x: u64|
                final(self).segments().contains(x) <==> (old(self).segments().contains(x) && x
                    >= target),
    {
        let ghost ids = self.log_ids@;
        let mut keep: Vec<u64> = Vec::new();
        let mut stale: Vec<u64> = Vec::new();
        let mut i: usize = 0;
        while i < self.log_ids.len()
            invariant
                self.wf(),
                ids == self.log_ids@,
                target <= self.log_id,
                i <= ids.len(),
                strictly_ascending(keep@),
                strictly_ascending(stale@),
                forall|a: int, k: int| 0 <= a < keep@.len() && i <= k < ids.len() ==> keep@[a] < ids[k],
                forall|a: int, k: int| 0 <= a < stale@.len() && i <= k < ids.len() ==> stale@[a] < ids[k],
                forall|x: u64|
                    stale@.contains(x) <==> (ids.take(i as int).contains(x) && x < target
                        && !referenced(self.key_dir@, x)),
                forall|x: u64|
                    keep@.contains(x) <==> (ids.take(i as int).contains(x) && !(x < target
                        && !referenced(self.key_dir@, x))),
            decreases ids.len() - i,
        {
            let id = self.log_ids[i];
            let ghost keep0 = keep@;
            let ghost stale0 = stale@;
            if id < target && !self.key_dir.references(id) {
                stale.push(id);
            } else {
                keep.push(id);
            }
            proof {
                assert(ids.take(i + 1) =~= ids.take(i as int).push(id));
                assert forall|a: int, k: int| 0 <= a < keep@.len() && i + 1 <= k < ids.len() implies keep@[a] < ids[k] by {
                    if a == keep0.len() {
                        assert(ids[i as int] < ids[k]);
                    }
                }
                assert forall|a: int, k: int| 0 <= a < stale@.len() && i + 1 <= k < ids.len() implies stale@[a] < ids[k] by {
                    if a == stale0.len() {
                        assert(ids[i as int] < ids[k]);
                    }
                }
                assert forall|x: u64| #[trigger] keep@.contains(x) <==> (keep0.contains(x) || (x == id && !(id < target && !referenced(self.key_dir@, id)))) by {
                    if keep@.len() > keep0.len() {
                        assert(keep@ == keep0.push(id));
                        if keep@.contains(x) {
                            let j = choose|j: int| 0 <= j < keep@.len() && keep@[j] == x;
                            if j < keep0.len() {
                                assert(keep0[j] == x);
                            }
                        }
                        if keep0.contains(x) {
                            let j = choose|j: int| 0 <= j < keep0.len() && keep0[j] == x;
                            assert(keep@[j] == x);
                        }
                        if x == id {
                            assert(keep@[keep0.len() as int] == x);
                        }
                    }
                }
                assert forall|x: u64| #[trigger] stale@.contains(x) <==> (stale0.contains(x) || (x == id && id < target && !referenced(self.key_dir@, id))) by {
                    if stale@.len() > stale0.len() {
                        assert(stale@ == stale0.push(id));
                        if stale@.contains(x) {
                            let j = choose|j: int| 0 <= j < stale@.len() && stale@[j] == x;
                            if j < stale0.len() {
                                assert(stale0[j] == x);
                            }
                        }
                        if stale0.contains(x) {
                            let j = choose|j: int| 0 <= j < stale0.len() && stale0[j] == x;
                            assert(stale@[j] == x);
                        }
                        if x == id {
                            assert(stale@[stale0.len() as int] == x);
                        }
                    }
                }
                assert forall|x: u64| ids.take(i as int).contains(x) && x == id implies false by {
                    let j = choose|j: int| 0 <= j < i && ids[j] == x;
                    assert(ids[j] < ids[i as int]);
                }
                assert forall|x: u64| #[trigger] ids.take(i + 1).contains(x) <==> (ids.take(
                    i as int,
                ).contains(x) || x == id) by {
                    if ids.take(i + 1).contains(x) {
                        let j = choose|j: int| 0 <= j < i + 1 && #[trigger] ids.take(i + 1)[j] == x;
                        if j < i {
                            assert(ids.take(i as int)[j] == x);
                        }
                    }
                    if ids.take(i as int).contains(x) {
                        let j = choose|j: int| 0 <= j < i && #[trigger] ids.take(i as int)[j] == x;
                        assert(ids.take(i + 1)[j] == x);
                    }
                    if x == id {
                        assert(ids.take(i + 1)[i as int] == x);
                    }
                }
                assert forall|x: u64| stale@.contains(x) <==> (ids.take(i + 1).contains(x)
                    && x < target && !referenced(self.key_dir@, x)) by {
                    assert(stale@.contains(x) <==> (stale0.contains(x) || (x == id && id < target
                        && !referenced(self.key_dir@, id))));
                    assert(ids.take(i + 1).contains(x) <==> (ids.take(i as int).contains(x) || x
                        == id));
                }
                assert forall|x: u64| keep@.contains(x) <==> (ids.take(i + 1).contains(x)
                    && !(x < target && !referenced(self.key_dir@, x))) by {
                    assert(keep@.contains(x) <==> (keep0.contains(x) || (x == id && !(id < target
                        && !referenced(self.key_dir@, id)))));
                    assert(ids.take(i + 1).contains(x) <==> (ids.take(i as int).contains(x) || x
                        == id));
                }
            }
            i = i + 1;
        }
        proof {
            assert(ids.take(ids.len() as int) =~= ids);
            let n = ids.len() as int;
            assert(ids[n - 1] == self.log_id);
            assert(keep@.contains(self.log_id)) by {
                assert(ids.contains(self.log_id)) by {
                    assert(ids[n - 1] == self.log_id);
                }
            }
            assert(keep@.len() > 0);
            assert(keep@.last() == self.log_id) by {
                let j = choose|j: int| 0 <= j < keep@.len() && keep@[j] == self.log_id;
                let last = keep@[keep@.len() - 1];
                assert(keep@.contains(last));
                let m = choose|m: int| 0 <= m < n && ids[m] == last;
                if j < keep@.len() - 1 {
                    assert(keep@[j] < last);
                    assert(ids[m] <= ids[n - 1]);
                }
            }
            assert forall|k: Seq<char>| #[trigger] self.key_dir@.contains_key(k) implies keep@.contains(
                self.key_dir@[k].log_id,
            ) by {
                assert(referenced(self.key_dir@, self.key_dir@[k].log_id));
            }
        }
        self.log_ids = keep;
        proof {
            assert forall|x: u64| self.log_ids@.contains(x) <==> (ids.contains(x) && !stale@.contains(x)) by {
            }
            let d = self.key_dir@;
            if forall|k: Seq<char>| #[trigger] d.contains_key(k) ==> d[k].log_id == target {
                assert forall|x: u64| self.log_ids@.contains(x) <==> (ids.contains(x) && x >= target) by {
                    if referenced(d, x) {
                        let k = choose|k: Seq<char>| #[trigger] d.contains_key(k) && d[k].log_id == x;
                        assert(x == target);
                    }
                }
            }
        }
        stale
    }
}

/// What `get` returns for the record decoded at a key's location (`None`
/// when the segment ends there).
pub fn value_of(rec: Option<Command>) -> (r: Result<Option<String>, KvsError>)
    ensures
        value_result(rec) matches Some(v) ==> (r matches Ok(x) && opt_view(x) == v),
        value_result(rec) is None ==> (r matches Err(e) && e is UnexpectedCommandType),
{
    match rec {
        Some(Command::Put { val, .. }) => Ok(Some(val)),
        Some(Command::Remove { .. }) => Err(KvsError::UnexpectedCommandType),
        None => Ok(None),
    }
}

/// The value that a compaction carries over from the record decoded at a
/// key's location: only a `Put` has one; anything else is corruption.
pub fn compacted_value(rec: Option<Command>) -> (r: Result<String, KvsError>)
    ensures
        rec matches Some(Command::Put { val, .. }) ==> (r matches Ok(v) && v@ == val@),
        !(rec matches Some(Command::Put { .. })) ==> (r matches Err(e)
            && e is UnexpectedCommandType),
{
    match rec {
        Some(Command::Put { val, .. }) => Ok(val),
        _ => Err(KvsError::UnexpectedCommandType),
    }
}

/// Read-your-writes: once `Put { key, val }` is recorded at a location, the
/// directory sends `key` to that location, and the record found there makes
/// `get` return `val`.
pub proof fn lemma_get_after_set(
    d: Map<Seq<char>, ValueEntry>,
    key: String,
    val: String,
    e: ValueEntry,
)
    ensures
        d.insert(key@, e).contains_key(key@),
        d.insert(key@, e)[key@] == e,
        value_result(Some(Command::Put { key, val })) == Some(Some(val@)),
{
}

/// Once a present key is removed, the directory no longer holds it, so a
/// second removal fails with `KeyNotFound` and `get` finds nothing.
pub proof fn lemma_remove_twice(d: Map<Seq<char>, ValueEntry>, key: String)
    ensures
        !d.remove(key@).contains_key(key@),
{
}

/// The commands of each decoded segment.
pub open spec fn segment_commands(segs: Seq<Seq<LoadedRecord>>) -> Seq<Seq<Command>> {
    segs.map_values(|r: Seq<LoadedRecord>| commands_of(r))
}

/// A store opened over some segments holds exactly the keys that replaying
/// their commands in ascending id order leaves in the visible mapping.
pub proof fn lemma_open_keys(ids: Seq<u64>, segs: Seq<Seq<LoadedRecord>>)
    requires
        ids.len() == segs.len(),
    ensures
        replay_all(ids, segs).dom() == apply_segments(Map::empty(), segment_commands(segs)).dom(),
    decreases segs.len(),
{
    if segs.len() > 0 {
        lemma_open_keys(ids.drop_last(), segs.drop_last());
        assert(segment_commands(segs).drop_last() =~= segment_commands(segs.drop_last()));
        assert(segment_commands(segs).last() == commands_of(segs.last()));
        lemma_replay_index_keys(
            replay_all(ids.drop_last(), segs.drop_last()),
            apply_segments(Map::empty(), segment_commands(segs.drop_last())),
            ids.last(),
            segs.last(),
        );
    } else {
        assert(replay_all(ids, segs).dom() =~= Set::<Seq<char>>::empty());
        assert(apply_segments(Map::empty(), segment_commands(segs)).dom() =~= Set::<Seq<char>>::empty());
    }
}

} // verus!
