use vstd::prelude::*;

verus! {

/// A command persisted in the log.
#[derive(Clone, Debug)]
pub enum Command {
    /// Associates `val` with `key`.
    Put { key: String, val: String },
    /// Drops `key` from the store.
    Remove { key: String },
}

/// The mapping that the store shows to its users: key to value.
pub type Mapping = Map<Seq<char>, Seq<char>>;

impl Command {
    /// The key that the command is about.
    pub open spec fn key_view(self) -> Seq<char> {
        match self {
            Command::Put { key, .. } => key@,
            Command::Remove { key } => key@,
        }
    }

    /// Returns the key that the command is about.
    pub fn key(&self) -> (r: &String)
        ensures
            r@ == self.key_view(),
    {
        match self {
            Command::Put { key, .. } => key,
            Command::Remove { key } => key,
        }
    }
}

/// The effect of one command on the visible mapping.
pub open spec fn apply_cmd(m: Mapping, c: Command) -> Mapping {
    match c {
        Command::Put { key, val } => m.insert(key@, val@),
        Command::Remove { key } => m.remove(key@),
    }
}

/// The effect of a sequence of commands, applied in order.
pub open spec fn apply_all(m: Mapping, cs: Seq<Command>) -> Mapping
    decreases cs.len(),
{
    if cs.len() == 0 {
        m
    } else {
        apply_cmd(apply_all(m, cs.drop_last()), cs.last())
    }
}

/// The commands of all segments, segment after segment.
pub open spec fn flatten(segs: Seq<Seq<Command>>) -> Seq<Command>
    decreases segs.len(),
{
    if segs.len() == 0 {
        Seq::empty()
    } else {
        flatten(segs.drop_last()) + segs.last()
    }
}

/// Replays segments in order, each one's commands in order.
pub open spec fn apply_segments(m: Mapping, segs: Seq<Seq<Command>>) -> Mapping
    decreases segs.len(),
{
    if segs.len() == 0 {
        m
    } else {
        apply_all(apply_segments(m, segs.drop_last()), segs.last())
    }
}

/// `cs` holds only `Put` records that agree with `m`, and one for each key
/// of `m`: the content of a compaction target written from `m`.
pub open spec fn compacted_log(cs: Seq<Command>, m: Mapping) -> bool {
    &&& forall|i: int|
        0 <= i < cs.len() ==> {
            &&& (#[trigger] cs[i]) is Put
            &&& m.contains_key(cs[i].key_view())
            &&& m[cs[i].key_view()] == cs[i]->Put_val@
        }
    &&& forall|k: Seq<char>|
        #[trigger] m.contains_key(k) ==> exists|i: int| 0 <= i < cs.len() && cs[i].key_view() == k
}

/// After `set(k, v)` the mapping holds `v` under `k`.
pub proof fn lemma_set_then_get(m: Mapping, key: String, val: String)
    ensures
        apply_cmd(m, Command::Put { key, val }).contains_key(key@),
        apply_cmd(m, Command::Put { key, val })[key@] == val@,
{
}

/// After `remove(k)` the mapping holds nothing under `k`, and no other key
/// changes.
pub proof fn lemma_remove_then_absent(m: Mapping, key: String)
    ensures
        !apply_cmd(m, Command::Remove { key }).contains_key(key@),
        forall|k: Seq<char>|
            k != key@ ==> (#[trigger] apply_cmd(m, Command::Remove { key }).contains_key(k)
                <==> m.contains_key(k)),
{
}

/// Applying two runs of commands one after the other is applying their
/// concatenation.
pub proof fn lemma_apply_all_append(m: Mapping, a: Seq<Command>, b: Seq<Command>)
    ensures
        apply_all(m, a + b) == apply_all(apply_all(m, a), b),
    decreases b.len(),
{
    if b.len() == 0 {
        assert(a + b =~= a);
    } else {
        lemma_apply_all_append(m, a, b.drop_last());
        assert((a + b).drop_last() =~= a + b.drop_last());
        assert((a + b).last() == b.last());
    }
}

/// Writes are durable across reopen: replaying the segments in ascending id
/// order yields exactly the mapping obtained by applying every command in
/// the order it was written, whichever way the commands were split among
/// segments.
pub proof fn lemma_replay_is_history(m: Mapping, segs: Seq<Seq<Command>>)
    ensures
        apply_segments(m, segs) == apply_all(m, flatten(segs)),
    decreases segs.len(),
{
    if segs.len() > 0 {
        lemma_replay_is_history(m, segs.drop_last());
        lemma_apply_all_append(m, flatten(segs.drop_last()), segs.last());
    }
}

/// Replaying two runs of segments one after the other is replaying their
/// concatenation.
pub proof fn lemma_apply_segments_append(m: Mapping, a: Seq<Seq<Command>>, b: Seq<Seq<Command>>)
    ensures
        apply_segments(m, a + b) == apply_segments(apply_segments(m, a), b),
    decreases b.len(),
{
    if b.len() == 0 {
        assert(a + b =~= a);
    } else {
        lemma_apply_segments_append(m, a, b.drop_last());
        assert((a + b).drop_last() =~= a + b.drop_last());
        assert((a + b).last() == b.last());
    }
}

/// Opening a store is idempotent in effect: opening appends a fresh, empty
/// active segment, and a replay of the segments with it yields the same
/// mapping as one without it, however often this is repeated.
pub proof fn lemma_reopen_keeps_mapping(m: Mapping, segs: Seq<Seq<Command>>)
    ensures
        apply_segments(m, segs.push(Seq::empty())) == apply_segments(m, segs),
{
    assert(segs.push(Seq::empty()).drop_last() =~= segs);
}

/// A compacted log replayed from an empty mapping yields the mapping it was
/// written from.
pub proof fn lemma_compacted_log_replays(cs: Seq<Command>, m: Mapping)
    requires
        compacted_log(cs, m),
    ensures
        apply_all(Map::empty(), cs) == m,
{
    lemma_compacted_prefix(cs, m, cs.len() as int);
    let r = apply_all(Map::empty(), cs);
    assert(cs.take(cs.len() as int) =~= cs);
    assert forall|k: Seq<char>| #[trigger] m.contains_key(k) implies r.contains_key(k) by {
        let i = choose|i: int| 0 <= i < cs.len() && cs[i].key_view() == k;
    }
    assert(r =~= m);
}

proof fn lemma_compacted_prefix(cs: Seq<Command>, m: Mapping, n: int)
    requires
        compacted_log(cs, m),
        0 <= n <= cs.len(),
    ensures
        forall|k: Seq<char>|
            #[trigger] apply_all(Map::empty(), cs.take(n)).contains_key(k) ==> m.contains_key(k)
                && apply_all(Map::empty(), cs.take(n))[k] == m[k],
        forall|i: int|
            0 <= i < n ==> apply_all(Map::empty(), cs.take(n)).contains_key(
                #[trigger] cs[i].key_view(),
            ),
    decreases n,
{
    if n > 0 {
        lemma_compacted_prefix(cs, m, n - 1);
        assert(cs.take(n).drop_last() =~= cs.take(n - 1));
        assert(cs.take(n).last() == cs[n - 1]);
        let prev = apply_all(Map::empty(), cs.take(n - 1));
        let cur = apply_all(Map::empty(), cs.take(n));
        assert(cs[n - 1] is Put);
        assert(cur == apply_cmd(prev, cs[n - 1]));
        let key = cs[n - 1].key_view();
        assert(cur == prev.insert(key, cs[n - 1]->Put_val@));
        assert forall|i: int| 0 <= i < n implies cur.contains_key(#[trigger] cs[i].key_view()) by {
            if i < n - 1 {
                assert(prev.contains_key(cs[i].key_view()));
            }
        }
    }
}

/// Compaction is transparent: replacing the segments that a compaction read
/// by the compacted log leaves the mapping of any later replay unchanged,
/// whatever segments are written after it.
pub proof fn lemma_compaction_transparent(
    segs: Seq<Seq<Command>>,
    cs: Seq<Command>,
    rest: Seq<Seq<Command>>,
)
    requires
        compacted_log(cs, apply_segments(Map::empty(), segs)),
    ensures
        apply_segments(Map::empty(), seq![cs] + rest) == apply_segments(
            Map::empty(),
            segs + rest,
        ),
{
    let m = apply_segments(Map::empty(), segs);
    lemma_compacted_log_replays(cs, m);
    lemma_apply_segments_append(Map::empty(), seq![cs], rest);
    lemma_apply_segments_append(Map::empty(), segs, rest);
    assert(seq![cs].drop_last() =~= Seq::<Seq<Command>>::empty());
    assert(apply_segments(Map::empty(), seq![cs]) == apply_all(
        apply_segments(Map::empty(), Seq::<Seq<Command>>::empty()),
        cs,
    ));
}

} // verus!
