use crate::command::Command;
use crate::keydir::{KeyDir, ValueEntry};
use vstd::prelude::*;
use vstd::string::StrSliceExecFns;

verus! {

/// The extension of a segment file's name.
pub open spec fn log_suffix() -> Seq<char> {
    seq!['.', 'l', 'o', 'g']
}

/// A decimal digit.
pub open spec fn is_digit(c: char) -> bool {
    '0' <= c && c <= '9'
}

/// The number that a run of decimal digits denotes.
pub open spec fn digits_value(s: Seq<char>) -> nat
    decreases s.len(),
{
    if s.len() == 0 {
        0
    } else {
        digits_value(s.drop_last()) * 10 + (s.last() as nat - '0' as nat) as nat
    }
}

/// The decimal digit for `d < 10`.
pub open spec fn digit_char(d: nat) -> char {
    ((d + '0' as nat) as u32) as char
}

/// The decimal notation of `n`, without leading zeros.
pub open spec fn decimal(n: nat) -> Seq<char>
    decreases n,
{
    if n < 10 {
        seq![digit_char(n)]
    } else {
        decimal(n / 10).push(digit_char(n % 10))
    }
}

/// The segment id that a file name denotes: one or more decimal digits
/// followed by `.log`, with a value that fits in `u64`.
pub open spec fn log_id_of(name: Seq<char>) -> Option<u64> {
    let stem = name.subrange(0, name.len() - 4);
    if name.len() > 4 && name.subrange(name.len() - 4, name.len() as int) == log_suffix() && (
    forall|i: int| 0 <= i < stem.len() ==> is_digit(#[trigger] stem[i])) && digits_value(stem)
        <= u64::MAX {
        Some(digits_value(stem) as u64)
    } else {
        None
    }
}

/// Ids in strictly ascending order.
pub open spec fn strictly_ascending(ids: Seq<u64>) -> bool {
    forall|i: int, j: int| 0 <= i < j < ids.len() ==> ids[i] < ids[j]
}

/// Relies on `u64`'s `ToString`: decimal notation, no sign, no leading zeros.
#[verifier::external_body]
fn u64_to_string(n: u64) -> (r: String)
    ensures
        r@ == decimal(n as nat),
{
    n.to_string()
}

/// Relies on `String::push_str`: appends the characters of `t`.
#[verifier::external_body]
fn push_str(s: &mut String, t: &str)
    ensures
        final(s)@ == old(s)@ + t@,
{
    s.push_str(t)
}

/// The file name of segment `log_id`: its decimal id followed by `.log`.
pub fn log_path(log_id: u64) -> (r: String)
    ensures
        r@ == decimal(log_id as nat) + log_suffix(),
{
    let mut r = u64_to_string(log_id);
    proof {
        reveal_strlit(".log");
    }
    push_str(&mut r, ".log");
    r
}

proof fn lemma_digits_value_monotone(s: Seq<char>, i: int, j: int)
    requires
        0 <= i <= j <= s.len(),
        forall|k: int| 0 <= k < s.len() ==> is_digit(#[trigger] s[k]),
    ensures
        digits_value(s.take(i)) <= digits_value(s.take(j)),
    decreases j - i,
{
    if i < j {
        lemma_digits_value_monotone(s, i, j - 1);
        assert(s.take(j).drop_last() =~= s.take(j - 1));
    }
}

/// Parses a segment file name, `<digits>.log`; any other name gives `None`.
pub fn parse_log_id(name: &str) -> (r: Option<u64>)
    ensures
        r == log_id_of(name@),
{
    let n = name.unicode_len();
    if n <= 4 {
        return None;
    }
    let ghost s = name@;
    let stem_len: usize = n - 4;
    let mut k: usize = stem_len;
    while k < n
        invariant
            stem_len <= k <= n,
            n == s.len(),
            n == stem_len + 4,
            s == name@,
            forall|j: int| stem_len <= j < k ==> s[j] == log_suffix()[j - stem_len],
        decreases n - k,
    {
        let c = name.get_char(k);
        let expected = if k == stem_len {
            '.'
        } else if k == stem_len + 1 {
            'l'
        } else if k == stem_len + 2 {
            'o'
        } else {
            'g'
        };
        proof {
            assert(log_suffix()[0] == '.' && log_suffix()[1] == 'l' && log_suffix()[2] == 'o'
                && log_suffix()[3] == 'g');
            assert(expected == log_suffix()[k - stem_len]);
        }
        if c != expected {
            proof {
                assert(s.subrange(stem_len as int, n as int)[k - stem_len] != log_suffix()[k
                    - stem_len]);
            }
            return None;
        }
        k = k + 1;
    }
    assert(s.subrange(stem_len as int, n as int) =~= log_suffix());
    let ghost stem = s.subrange(0, stem_len as int);
    let mut v: u64 = 0;
    let mut i: usize = 0;
    while i < stem_len
        invariant
            i <= stem_len,
            stem_len == s.len() - 4,
            s == name@,
            stem == s.subrange(0, stem_len as int),
            forall|j: int| 0 <= j < i ==> is_digit(#[trigger] stem[j]),
            v as nat == digits_value(stem.take(i as int)),
        decreases stem_len - i,
    {
        let c = name.get_char(i);
        if c < '0' || c > '9' {
            proof {
                assert(!is_digit(stem[i as int]));
            }
            return None;
        }
        let d: u64 = (c as u32 - '0' as u32) as u64;
        assert(stem.take(i + 1).drop_last() =~= stem.take(i as int));
        assert(stem.take(i + 1).last() == c);
        if v > 1844674407370955161 || (v == 1844674407370955161 && d > 5) {
            proof {
                assert(digits_value(stem.take(i + 1)) > u64::MAX);
                if forall|j: int| 0 <= j < stem.len() ==> is_digit(#[trigger] stem[j]) {
                    lemma_digits_value_monotone(stem, i + 1, stem.len() as int);
                    assert(stem.take(stem.len() as int) =~= stem);
                }
            }
            return None;
        }
        v = v * 10 + d;
        i = i + 1;
    }
    assert(stem.take(stem_len as int) =~= stem);
    Some(v)
}

proof fn lemma_decimal_digits(n: nat)
    ensures
        forall|i: int| 0 <= i < decimal(n).len() ==> is_digit(#[trigger] decimal(n)[i]),
        digits_value(decimal(n)) == n,
        decimal(n).len() > 0,
    decreases n,
{
    let d = n % 10;
    assert(digit_char(d) as nat - '0' as nat == d);
    if n >= 10 {
        lemma_decimal_digits(n / 10);
        assert(decimal(n).drop_last() =~= decimal(n / 10));
        assert(decimal(n).last() == digit_char(d));
        assert((n / 10) * 10 + n % 10 == n) by (nonlinear_arith);
    } else {
        assert(decimal(n).drop_last() =~= Seq::<char>::empty());
        assert(decimal(n).last() == digit_char(d));
        assert(digits_value(Seq::<char>::empty()) == 0);
    }
}

/// The file name of a segment parses back to its id, so a reopened store
/// finds every segment it created.
pub proof fn lemma_log_path_parses(log_id: u64)
    ensures
        log_id_of(decimal(log_id as nat) + log_suffix()) == Some(log_id),
{
    let digits = decimal(log_id as nat);
    let name = digits + log_suffix();
    lemma_decimal_digits(log_id as nat);
    assert(name.subrange(0, name.len() - 4) =~= digits);
    assert(name.subrange(name.len() - 4, name.len() as int) =~= log_suffix());
}

/// The ids of the segment files among `names`, each once, in ascending
/// order.
pub fn log_ids_of(names: &Vec<String>) -> (r: Vec<u64>)
    ensures
        strictly_ascending(r@),
        forall|x: u64|
            r@.contains(x) <==> exists|i: int|
                0 <= i < names.len() && log_id_of(#[trigger] names[i]@) == Some(x),
{
    let mut ids: Vec<u64> = Vec::new();
    let mut i: usize = 0;
    while i < names.len()
        invariant
            i <= names.len(),
            strictly_ascending(ids@),
            forall|x: u64|
                ids@.contains(x) <==> exists|j: int|
                    0 <= j < i && log_id_of(#[trigger] names[j]@) == Some(x),
        decreases names.len() - i,
    {
        let parsed = parse_log_id(names[i].as_str());
        if let Some(id) = parsed {
            let mut p: usize = 0;
            while p < ids.len() && ids[p] < id
                invariant
                    p <= ids.len(),
                    forall|j: int| 0 <= j < p ==> ids@[j] < id,
                decreases ids.len() - p,
            {
                p = p + 1;
            }
            if p == ids.len() || ids[p] != id {
                let ghost old_ids = ids@;
                ids.insert(p, id);
                proof {
                    assert forall|a: int, b: int| 0 <= a < b < ids@.len() implies ids@[a]
                        < ids@[b] by {
                        if b == p {
                        } else if a == p {
                            assert(ids@[b] == old_ids[b - 1]);
                            if p < old_ids.len() {
                                assert(old_ids[p as int] > id);
                                if b - 1 > p {
                                    assert(old_ids[p as int] < old_ids[b - 1]);
                                }
                            }
                        } else if a < p && b > p {
                            assert(ids@[b] == old_ids[b - 1]);
                            assert(old_ids[a] < old_ids[b - 1]);
                        } else if a > p {
                            assert(old_ids[a - 1] < old_ids[b - 1]);
                        }
                    }
                    assert forall|x: u64| #[trigger] ids@.contains(x) <==> (old_ids.contains(x)
                        || x == id) by {
                        if ids@.contains(x) {
                            let k = choose|k: int| 0 <= k < ids@.len() && ids@[k] == x;
                            if k < p {
                                assert(old_ids[k] == x);
                            } else if k > p {
                                assert(old_ids[k - 1] == x);
                            }
                        }
                        if old_ids.contains(x) {
                            let k = choose|k: int| 0 <= k < old_ids.len() && old_ids[k] == x;
                            if k < p {
                                assert(ids@[k] == x);
                            } else {
                                assert(ids@[k + 1] == x);
                            }
                        }
                        if x == id {
                            assert(ids@[p as int] == x);
                        }
                    }
                    assert(ids@.contains(id));
                }
            } else {
                assert(ids@[p as int] == id);
            }
            assert(ids@.contains(id));
        }
        proof {
            assert forall|x: u64| ids@.contains(x) <==> exists|j: int|
                0 <= j < i + 1 && log_id_of(#[trigger] names[j]@) == Some(x) by {
                if exists|j: int| 0 <= j < i + 1 && log_id_of(#[trigger] names[j]@) == Some(x) {
                    let j = choose|j: int| 0 <= j < i + 1 && log_id_of(#[trigger] names[j]@) == Some(x);
                    if j == i {
                        assert(parsed == Some(x));
                    }
                }
            }
        }
        i = i + 1;
    }
    ids
}

/// A record decoded from a segment, with the byte offset at which the next
/// record begins. The first record of a segment begins at offset 0, every
/// other one where the previous one ended.
pub struct LoadedRecord {
    /// The decoded command.
    pub cmd: Command,
    /// Offset just past the record.
    pub end: u64,
}

/// Offset at which record `i` of a segment begins.
pub open spec fn record_start(recs: Seq<LoadedRecord>, i: int) -> u64 {
    if i == 0 {
        0
    } else {
        recs[i - 1].end
    }
}

/// Each record ends at or after the offset at which it begins.
pub open spec fn offsets_ascending(recs: Seq<LoadedRecord>) -> bool {
    forall|i: int| 0 <= i < recs.len() ==> record_start(recs, i) <= #[trigger] recs[i].end
}

/// The commands of a decoded segment, in order.
pub open spec fn commands_of(recs: Seq<LoadedRecord>) -> Seq<Command> {
    recs.map_values(|r: LoadedRecord| r.cmd)
}

/// The key directory after replaying the records of segment `log_id` over
/// `d`: a `Put` points its key at the record, a `Remove` drops its key.
pub open spec fn replay_index(
    d: Map<Seq<char>, ValueEntry>,
    log_id: u64,
    recs: Seq<LoadedRecord>,
) -> Map<Seq<char>, ValueEntry>
    decreases recs.len(),
{
    if recs.len() == 0 {
        d
    } else {
        let prev = replay_index(d, log_id, recs.drop_last());
        match recs.last().cmd {
            Command::Put { key, .. } => prev.insert(
                key@,
                ValueEntry { log_id, log_offset: record_start(recs, recs.len() - 1) },
            ),
            Command::Remove { key } => prev.remove(key@),
        }
    }
}

/// Total size of a decoded segment: the offset just past its last record.
pub open spec fn segment_size(recs: Seq<LoadedRecord>) -> u64 {
    if recs.len() == 0 {
        0
    } else {
        recs.last().end
    }
}

/// Replays the records of segment `log_id` into `key_dir` and returns the
/// number of bytes they take.
pub fn load(log_id: u64, records: &Vec<LoadedRecord>, key_dir: &mut KeyDir) -> (size: u64)
    requires
        old(key_dir).wf(),
        offsets_ascending(records@),
    ensures
        final(key_dir).wf(),
        final(key_dir)@ == replay_index(old(key_dir)@, log_id, records@),
        size == segment_size(records@),
{
    let ghost d0 = key_dir@;
    let mut log_offset: u64 = 0;
    let mut size: u64 = 0;
    let mut i: usize = 0;
    while i < records.len()
        invariant
            i <= records.len(),
            offsets_ascending(records@),
            key_dir.wf(),
            key_dir@ == replay_index(d0, log_id, records@.take(i as int)),
            log_offset == record_start(records@, i as int),
            size == log_offset,
        decreases records.len() - i,
    {
        let rec = &records[i];
        let next_log_offset = rec.end;
        assert(records@.take(i + 1).drop_last() =~= records@.take(i as int));
        assert(records@.take(i + 1).last() == records@[i as int]);
        assert(record_start(records@.take(i + 1), i as int) == record_start(records@, i as int));
        match &rec.cmd {
            Command::Put { key, .. } => {
                key_dir.insert(key.clone(), ValueEntry { log_id, log_offset });
            },
            Command::Remove { key } => {
                key_dir.remove(key);
            },
        }
        assert(records@[i as int].end >= log_offset);
        size = size + (next_log_offset - log_offset);
        log_offset = next_log_offset;
        i = i + 1;
    }
    assert(records@.take(records.len() as int) =~= records@);
    size
}

/// The keys that replay puts in the directory are exactly the keys that the
/// same commands leave in the visible mapping.
pub proof fn lemma_replay_index_keys(
    d: Map<Seq<char>, ValueEntry>,
    m: Map<Seq<char>, Seq<char>>,
    log_id: u64,
    recs: Seq<LoadedRecord>,
)
    requires
        d.dom() == m.dom(),
    ensures
        replay_index(d, log_id, recs).dom() == crate::command::apply_all(m, commands_of(recs)).dom(),
    decreases recs.len(),
{
    if recs.len() > 0 {
        lemma_replay_index_keys(d, m, log_id, recs.drop_last());
        assert(commands_of(recs).drop_last() =~= commands_of(recs.drop_last()));
        let a = replay_index(d, log_id, recs);
        let b = crate::command::apply_all(m, commands_of(recs));
        assert(a.dom() =~= b.dom());
    }
}

/// After replaying a segment, each key of the directory either keeps its
/// earlier location and value, or is located at a `Put` record of this
/// segment for that key whose value is the key's value in the mapping.
pub open spec fn replay_locates(
    d: Map<Seq<char>, ValueEntry>,
    m: Map<Seq<char>, Seq<char>>,
    log_id: u64,
    recs: Seq<LoadedRecord>,
    k: Seq<char>,
) -> bool {
    let d2 = replay_index(d, log_id, recs);
    let m2 = crate::command::apply_all(m, commands_of(recs));
    ||| (d.contains_key(k) && d2[k] == d[k] && m2[k] == m[k])
    ||| exists|i: int|
        0 <= i < recs.len() && (#[trigger] recs[i]).cmd is Put && recs[i].cmd.key_view() == k
            && d2[k] == (ValueEntry { log_id, log_offset: record_start(recs, i) }) && m2[k]
            == recs[i].cmd->Put_val@
}

/// Replay keeps every directory entry pointing at a `Put` record of its own
/// key that carries the key's current value.
pub proof fn lemma_replay_locates(
    d: Map<Seq<char>, ValueEntry>,
    m: Map<Seq<char>, Seq<char>>,
    log_id: u64,
    recs: Seq<LoadedRecord>,
)
    requires
        d.dom() == m.dom(),
    ensures
        forall|k: Seq<char>|
            #[trigger] replay_index(d, log_id, recs).contains_key(k) ==> replay_locates(
                d,
                m,
                log_id,
                recs,
                k,
            ),
    decreases recs.len(),
{
    if recs.len() > 0 {
        let p = recs.drop_last();
        let n = recs.len() - 1;
        lemma_replay_locates(d, m, log_id, p);
        lemma_replay_index_keys(d, m, log_id, p);
        assert(commands_of(recs).drop_last() =~= commands_of(p));
        assert(commands_of(recs).last() == recs[n].cmd);
        assert forall|k: Seq<char>| #[trigger] replay_index(d, log_id, recs).contains_key(
            k,
        ) implies replay_locates(d, m, log_id, recs, k) by {
            if recs[n].cmd.key_view() == k {
                assert(recs[n].cmd is Put);
                assert(recs[n] == recs[n]);
            } else {
                assert(replay_index(d, log_id, p).contains_key(k));
                assert(replay_locates(d, m, log_id, p, k));
                if !(d.contains_key(k) && replay_index(d, log_id, p)[k] == d[k]
                    && crate::command::apply_all(m, commands_of(p))[k] == m[k]) {
                    let i = choose|i: int|
                        0 <= i < p.len() && (#[trigger] p[i]).cmd is Put && p[i].cmd.key_view()
                            == k && replay_index(d, log_id, p)[k] == (ValueEntry {
                            log_id,
                            log_offset: record_start(p, i),
                        }) && crate::command::apply_all(m, commands_of(p))[k]
                            == p[i].cmd->Put_val@;
                    assert(p[i] == recs[i]);
                    assert(record_start(p, i) == record_start(recs, i));
                }
            }
        }
    }
}

} // verus!
