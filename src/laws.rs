use vstd::prelude::*;
use crate::command::Command;
use crate::state::{contents_step, lemma_index_points_at_puts, open_contents, replay_contents, LogState};

verus! {

/// Key-to-value map left by applying `ops`, in order, to an empty store.
pub open spec fn apply_all(ops: Seq<Command>) -> Map<Seq<char>, Seq<char>>
    decreases ops.len(),
{
    if ops.len() == 0 {
        Map::empty()
    } else {
        contents_step(apply_all(ops.drop_last()), ops.last())
    }
}

/// The value of the last `Put` of `k` in `ops` that no `Remove` of `k`
/// follows, if there is one.
pub open spec fn last_write(ops: Seq<Command>, k: Seq<char>) -> Option<Seq<char>>
    decreases ops.len(),
{
    if ops.len() == 0 {
        None
    } else if ops.last().key_view() == k {
        match ops.last() {
            Command::Put { value, .. } => Some(value@),
            Command::Remove { .. } => None,
        }
    } else {
        last_write(ops.drop_last(), k)
    }
}

/// What a lookup of `k` in `m` yields.
pub open spec fn get_view(m: Map<Seq<char>, Seq<char>>, k: Seq<char>) -> Option<Seq<char>> {
    if m.contains_key(k) { Some(m[k]) } else { None }
}

/// The commands of a segment's records.
pub open spec fn commands_of(records: Seq<(Command, u64)>) -> Seq<Command> {
    records.map_values(|r: (Command, u64)| r.0)
}

/// After any sequence of `set` and `remove` on a fresh store, a key reads as
/// the value of its last `set` that no `remove` followed, and as absent
/// otherwise.
pub proof fn lemma_last_write_wins(ops: Seq<Command>, k: Seq<char>)
    ensures
        get_view(apply_all(ops), k) == last_write(ops, k),
    decreases ops.len(),
{
    if ops.len() > 0 {
        lemma_last_write_wins(ops.drop_last(), k);
    }
}

/// Key-to-value map left by applying `ops`, in order, to `m`.
pub open spec fn apply_from(m: Map<Seq<char>, Seq<char>>, ops: Seq<Command>) -> Map<Seq<char>, Seq<char>>
    decreases ops.len(),
{
    if ops.len() == 0 {
        m
    } else {
        contents_step(apply_from(m, ops.drop_last()), ops.last())
    }
}

/// Every command of the first `n` segments, segment after segment.
pub open spec fn all_commands(segments: Seq<(u64, Vec<(Command, u64)>)>, n: nat) -> Seq<Command>
    decreases n,
{
    if n == 0 || n > segments.len() {
        Seq::empty()
    } else {
        all_commands(segments, (n - 1) as nat) + commands_of(segments[n - 1].1@)
    }
}

proof fn lemma_apply_all_from_empty(ops: Seq<Command>)
    ensures
        apply_all(ops) == apply_from(Map::empty(), ops),
    decreases ops.len(),
{
    if ops.len() > 0 {
        lemma_apply_all_from_empty(ops.drop_last());
    }
}

proof fn lemma_apply_from_concat(m: Map<Seq<char>, Seq<char>>, a: Seq<Command>, b: Seq<Command>)
    ensures
        apply_from(m, a + b) == apply_from(apply_from(m, a), b),
    decreases b.len(),
{
    if b.len() == 0 {
        assert(a + b =~= a);
    } else {
        lemma_apply_from_concat(m, a, b.drop_last());
        assert((a + b).drop_last() =~= a + b.drop_last());
        assert((a + b).last() == b.last());
    }
}

/// Replaying one segment applies its commands in order.
proof fn lemma_replay_is_apply(m: Map<Seq<char>, Seq<char>>, records: Seq<(Command, u64)>)
    ensures
        replay_contents(m, records, records.len()) == apply_from(m, commands_of(records)),
    decreases records.len(),
{
    if records.len() > 0 {
        let prefix = records.drop_last();
        lemma_replay_is_apply(m, prefix);
        lemma_replay_prefix(m, records, prefix, prefix.len());
        assert(commands_of(records).drop_last() =~= commands_of(prefix));
    }
}

/// Opening a directory rebuilds exactly the contents that applying every
/// command of its segments, in order, produced: closing and reopening a
/// store preserves every lookup.
pub proof fn lemma_reopen_preserves_contents(segments: Seq<(u64, Vec<(Command, u64)>)>, n: nat)
    requires
        n <= segments.len(),
    ensures
        open_contents(segments, n) == apply_all(all_commands(segments, n)),
    decreases n,
{
    lemma_apply_all_from_empty(all_commands(segments, n));
    if n > 0 {
        lemma_reopen_preserves_contents(segments, (n - 1) as nat);
        lemma_apply_all_from_empty(all_commands(segments, (n - 1) as nat));
        let recs = segments[n - 1].1@;
        lemma_replay_is_apply(open_contents(segments, (n - 1) as nat), recs);
        lemma_apply_from_concat(Map::empty(), all_commands(segments, (n - 1) as nat), commands_of(recs));
    }
}

/// Replaying a prefix only looks at the prefix.
proof fn lemma_replay_prefix(
    m: Map<Seq<char>, Seq<char>>,
    records: Seq<(Command, u64)>,
    prefix: Seq<(Command, u64)>,
    n: nat,
)
    requires
        prefix.len() <= records.len(),
        n <= prefix.len(),
        forall|i: int| 0 <= i < prefix.len() ==> prefix[i] == records[i],
    ensures
        replay_contents(m, records, n) == replay_contents(m, prefix, n),
    decreases n,
{
    if n > 0 {
        lemma_replay_prefix(m, records, prefix, (n - 1) as nat);
    }
}

/// Records that are all `Put`s of distinct keys.
pub open spec fn distinct_puts(records: Seq<(Command, u64)>) -> bool {
    &&& forall|i: int| 0 <= i < records.len() ==> #[trigger] records[i].0 is Put
    &&& forall|i: int, j: int|
        0 <= i < j < records.len() ==> records[i].0.key_view() != records[j].0.key_view()
}

proof fn lemma_replay_puts(records: Seq<(Command, u64)>, n: nat)
    requires
        n <= records.len(),
        distinct_puts(records),
    ensures
        forall|k: Seq<char>| #[trigger] replay_contents(Map::empty(), records, n).contains_key(k)
            <==> exists|i: int| 0 <= i < n && #[trigger] records[i].0.key_view() == k,
        forall|i: int| 0 <= i < n ==> #[trigger] replay_contents(Map::empty(), records, n)[records[i].0.key_view()]
            == records[i].0->Put_value@,
    decreases n,
{
    if n > 0 {
        lemma_replay_puts(records, (n - 1) as nat);
        let prev = replay_contents(Map::empty(), records, (n - 1) as nat);
        let cur = replay_contents(Map::empty(), records, n);
        assert(records[n - 1].0 is Put);
        assert(cur == prev.insert(records[n - 1].0.key_view(), records[n - 1].0->Put_value@));
        assert forall|k: Seq<char>| #[trigger] cur.contains_key(k)
            <==> exists|i: int| 0 <= i < n && #[trigger] records[i].0.key_view() == k by {
            if cur.contains_key(k) && k != records[n - 1].0.key_view() {
                assert(prev.contains_key(k));
            }
            if exists|i: int| 0 <= i < n && #[trigger] records[i].0.key_view() == k {
                let i = choose|i: int| 0 <= i < n && #[trigger] records[i].0.key_view() == k;
                if i < n - 1 {
                    assert(prev.contains_key(k));
                }
            }
        }
        assert forall|i: int| 0 <= i < n implies #[trigger] cur[records[i].0.key_view()]
            == records[i].0->Put_value@ by {
            if i < n - 1 {
                assert(records[i].0.key_view() != records[n - 1].0.key_view());
            }
        }
    }
}

/// A segment written by compaction (one `Put` per live key, carrying its
/// value) replays to exactly the contents it was written from.
pub proof fn lemma_replay_compacted(records: Seq<(Command, u64)>, contents: Map<Seq<char>, Seq<char>>)
    requires
        distinct_puts(records),
        forall|i: int| 0 <= i < records.len() ==> contents.contains_key(#[trigger] records[i].0.key_view())
            && contents[records[i].0.key_view()] == records[i].0->Put_value@,
        forall|k: Seq<char>| #[trigger] contents.contains_key(k) ==> exists|i: int|
            0 <= i < records.len() && #[trigger] records[i].0.key_view() == k,
    ensures
        replay_contents(Map::empty(), records, records.len()) == contents,
{
    lemma_replay_puts(records, records.len());
    let m = replay_contents(Map::empty(), records, records.len());
    assert forall|k: Seq<char>| #[trigger] m.contains_key(k) implies contents.contains_key(k) && m[k] == contents[k] by {
        let i = choose|i: int| 0 <= i < records.len() && #[trigger] records[i].0.key_view() == k;
    }
    assert forall|k: Seq<char>| #[trigger] contents.contains_key(k) implies m.contains_key(k) by {
        let i = choose|i: int| 0 <= i < records.len() && #[trigger] records[i].0.key_view() == k;
    }
    assert(m =~= contents);
}

/// States of a store that go from empty contents through `ops`, one command
/// per step, as `LogState::record` moves them (compaction keeps the
/// contents, so it adds no step).
pub open spec fn is_trace(sts: Seq<LogState>, ops: Seq<Command>) -> bool {
    &&& sts.len() == ops.len() + 1
    &&& sts[0].contents() == Map::<Seq<char>, Seq<char>>::empty()
    &&& forall|i: int| 0 <= i < ops.len() ==> #[trigger] sts[i + 1].contents() == contents_step(
        sts[i].contents(),
        ops[i],
    )
}

proof fn lemma_trace_contents(sts: Seq<LogState>, ops: Seq<Command>)
    requires
        is_trace(sts, ops),
    ensures
        sts.last().contents() == apply_all(ops),
    decreases ops.len(),
{
    if ops.len() > 0 {
        let n = ops.len() as int;
        let p = sts.subrange(0, n);
        assert(p[0] == sts[0]);
        assert forall|i: int| 0 <= i < n - 1 implies #[trigger] p[i + 1].contents() == contents_step(
            p[i].contents(),
            ops.drop_last()[i],
        ) by {
            assert(sts[i + 1].contents() == contents_step(sts[i].contents(), ops[i]));
        }
        lemma_trace_contents(p, ops.drop_last());
        assert(sts[n].contents() == contents_step(sts[n - 1].contents(), ops[n - 1]));
    }
}

/// After any sequence of `set` and `remove` on a fresh store, the index entry
/// of a key exists exactly when the key's last `set` was not followed by a
/// `remove`, and it locates a `Put` of that key carrying that last value:
/// that record is what `get` reads and returns.
pub proof fn lemma_store_last_write_wins(sts: Seq<LogState>, ops: Seq<Command>, k: Seq<char>)
    requires
        is_trace(sts, ops),
        sts.last().wf(),
    ensures
        sts.last().index().contains_key(k) <==> last_write(ops, k) is Some,
        last_write(ops, k) is Some ==> sts.last().log()[(sts.last().index()[k].gen, sts.last().index()[k].pos)]
            == (k, last_write(ops, k)->Some_0),
{
    lemma_trace_contents(sts, ops);
    lemma_last_write_wins(ops, k);
    lemma_index_points_at_puts(&sts.last());
    let st = sts.last();
    if st.index().contains_key(k) {
        assert(st.contents().contains_key(k));
    }
    if st.contents().contains_key(k) {
        assert(st.index().dom().contains(k));
    }
}

/// Reopening a directory whose segments hold exactly the commands a store
/// applied yields that store's contents, so every lookup is preserved.
pub proof fn lemma_reopen_matches_store(
    sts: Seq<LogState>,
    ops: Seq<Command>,
    segments: Seq<(u64, Vec<(Command, u64)>)>,
)
    requires
        is_trace(sts, ops),
        all_commands(segments, segments.len()) == ops,
    ensures
        open_contents(segments, segments.len()) == sts.last().contents(),
{
    lemma_trace_contents(sts, ops);
    lemma_reopen_preserves_contents(segments, segments.len());
}

} // verus!
