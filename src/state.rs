use vstd::prelude::*;
use crate::command::{Command, CommandPos};

verus! {

/// Reclaimable bytes at or above which the log is compacted (1 MiB).
pub const COMPACTION_THRESHOLD: u64 = 1048576;

/// `x`, capped at the largest `u64`.
pub open spec fn capped(x: int) -> nat {
    if x > u64::MAX { u64::MAX as nat } else if x < 0 { 0 } else { x as nat }
}

/// Length of the index entry of `k`, or zero when `k` has none.
pub open spec fn entry_len(index: Map<Seq<char>, CommandPos>, k: Seq<char>) -> nat {
    if index.contains_key(k) { index[k].len as nat } else { 0 }
}

/// The index after replaying `cmd`, stored in segment `gen` at bytes `[pos, end)`.
pub open spec fn index_step(
    index: Map<Seq<char>, CommandPos>,
    gen: u64,
    cmd: Command,
    pos: u64,
    end: u64,
) -> Map<Seq<char>, CommandPos> {
    match cmd {
        Command::Put { key, .. } => index.insert(key@, CommandPos { gen, pos, len: (end - pos) as u64 }),
        Command::Remove { key } => index.remove(key@),
    }
}

/// The reclaimable-byte count after replaying `cmd` at `[pos, end)`: a displaced
/// entry becomes dead, and so does a tombstone as soon as it is written.
pub open spec fn uncompacted_step(
    index: Map<Seq<char>, CommandPos>,
    uncompacted: nat,
    cmd: Command,
    pos: u64,
    end: u64,
) -> nat {
    match cmd {
        Command::Put { key, .. } => capped((uncompacted + entry_len(index, key@)) as int),
        Command::Remove { key } => capped(uncompacted + entry_len(index, key@) + (end - pos)),
    }
}

/// The key-to-value map after `cmd`.
pub open spec fn contents_step(
    contents: Map<Seq<char>, Seq<char>>,
    cmd: Command,
) -> Map<Seq<char>, Seq<char>> {
    match cmd {
        Command::Put { key, value } => contents.insert(key@, value@),
        Command::Remove { key } => contents.remove(key@),
    }
}

/// Start offset of record `i` of a segment whose records end at the given offsets.
pub open spec fn record_start(records: Seq<(Command, u64)>, i: int) -> u64 {
    if i == 0 { 0 } else { records[i - 1].1 }
}

/// Record ends strictly increase from offset zero.
pub open spec fn offsets_increase(records: Seq<(Command, u64)>) -> bool {
    forall|i: int| 0 <= i < records.len() ==> record_start(records, i) < #[trigger] records[i].1
}

/// Index after replaying the first `n` records of segment `gen`.
pub open spec fn replay_index(
    index: Map<Seq<char>, CommandPos>,
    gen: u64,
    records: Seq<(Command, u64)>,
    n: nat,
) -> Map<Seq<char>, CommandPos>
    decreases n,
{
    if n == 0 || n > records.len() {
        index
    } else {
        let prev = replay_index(index, gen, records, (n - 1) as nat);
        index_step(prev, gen, records[n - 1].0, record_start(records, n - 1), records[n - 1].1)
    }
}

/// Reclaimable bytes after replaying the first `n` records of segment `gen`.
pub open spec fn replay_uncompacted(
    index: Map<Seq<char>, CommandPos>,
    uncompacted: nat,
    gen: u64,
    records: Seq<(Command, u64)>,
    n: nat,
) -> nat
    decreases n,
{
    if n == 0 || n > records.len() {
        uncompacted
    } else {
        let prev_index = replay_index(index, gen, records, (n - 1) as nat);
        let prev = replay_uncompacted(index, uncompacted, gen, records, (n - 1) as nat);
        uncompacted_step(prev_index, prev, records[n - 1].0, record_start(records, n - 1), records[n - 1].1)
    }
}

/// Key-to-value map after applying the first `n` records.
pub open spec fn replay_contents(
    contents: Map<Seq<char>, Seq<char>>,
    records: Seq<(Command, u64)>,
    n: nat,
) -> Map<Seq<char>, Seq<char>>
    decreases n,
{
    if n == 0 || n > records.len() {
        contents
    } else {
        contents_step(replay_contents(contents, records, (n - 1) as nat), records[n - 1].0)
    }
}

/// Index after replaying the first `n` segments, in order.
pub open spec fn open_index(segments: Seq<(u64, Vec<(Command, u64)>)>, n: nat) -> Map<Seq<char>, CommandPos>
    decreases n,
{
    if n == 0 || n > segments.len() {
        Map::empty()
    } else {
        let s = segments[n - 1];
        replay_index(open_index(segments, (n - 1) as nat), s.0, s.1@, s.1@.len())
    }
}

/// Reclaimable bytes after replaying the first `n` segments, in order.
pub open spec fn open_uncompacted(segments: Seq<(u64, Vec<(Command, u64)>)>, n: nat) -> nat
    decreases n,
{
    if n == 0 || n > segments.len() {
        0
    } else {
        let s = segments[n - 1];
        replay_uncompacted(
            open_index(segments, (n - 1) as nat),
            open_uncompacted(segments, (n - 1) as nat),
            s.0,
            s.1@,
            s.1@.len(),
        )
    }
}

/// Key-to-value map after replaying the first `n` segments, in order.
pub open spec fn open_contents(segments: Seq<(u64, Vec<(Command, u64)>)>, n: nat) -> Map<Seq<char>, Seq<char>>
    decreases n,
{
    if n == 0 || n > segments.len() {
        Map::empty()
    } else {
        replay_contents(open_contents(segments, (n - 1) as nat), segments[n - 1].1@, segments[n - 1].1@.len())
    }
}

/// Bytes of the first `n` segments, each up to the end of its last record.
pub open spec fn segments_len(segments: Seq<(u64, Vec<(Command, u64)>)>, n: nat) -> nat
    decreases n,
{
    if n == 0 || n > segments.len() {
        0
    } else {
        (segments_len(segments, (n - 1) as nat) + record_start(segments[n - 1].1@, segments[n - 1].1@.len() as int))
            as nat
    }
}

proof fn lemma_seg_total_of_segments(segments: Seq<(u64, Vec<(Command, u64)>)>, ends: Map<u64, nat>, n: nat)
    requires
        n <= segments.len(),
        forall|i: int| 0 <= i < n ==> #[trigger] ends[segments[i].0] == record_start(
            segments[i].1@,
            segments[i].1@.len() as int,
        ),
    ensures
        seg_total(segments.subrange(0, n as int).map_values(|s: (u64, Vec<(Command, u64)>)| s.0), ends)
            == segments_len(segments, n),
    decreases n,
{
    if n > 0 {
        lemma_seg_total_of_segments(segments, ends, (n - 1) as nat);
        let g = segments.subrange(0, n as int).map_values(|s: (u64, Vec<(Command, u64)>)| s.0);
        assert(g.drop_last() =~= segments.subrange(0, n - 1).map_values(|s: (u64, Vec<(Command, u64)>)| s.0));
        assert(g.last() == segments[n - 1].0);
    }
}

/// Sum of the lengths of the first `n` entries.
pub open spec fn lens_sum(entries: Seq<(String, CommandPos)>, n: nat) -> nat
    decreases n,
{
    if n == 0 || n > entries.len() {
        0
    } else {
        (lens_sum(entries, (n - 1) as nat) + entries[n - 1].1.len) as nat
    }
}

proof fn lemma_lens_sum_monotone(entries: Seq<(String, CommandPos)>, i: nat, j: nat)
    requires
        i <= j <= entries.len(),
    ensures
        lens_sum(entries, i) <= lens_sum(entries, j),
    decreases j,
{
    if i < j {
        lemma_lens_sum_monotone(entries, i, (j - 1) as nat);
    }
}

/// Lengths summed over a sequence after one entry's length changes.
proof fn lemma_lens_sum_update(e: Seq<(String, CommandPos)>, i: int, x: (String, CommandPos), n: nat)
    requires
        0 <= i < e.len(),
        n <= e.len(),
    ensures
        lens_sum(e.update(i, x), n) == if i < n { lens_sum(e, n) - e[i].1.len + x.1.len } else { lens_sum(e, n) as int },
    decreases n,
{
    if n > 0 {
        lemma_lens_sum_update(e, i, x, (n - 1) as nat);
        if i < n - 1 {
            lemma_lens_sum_monotone(e, (i + 1) as nat, (n - 1) as nat);
        }
    }
}

/// Lengths summed over a sequence with one more entry at its end.
proof fn lemma_lens_sum_push(e: Seq<(String, CommandPos)>, x: (String, CommandPos), n: nat)
    requires
        n <= e.len(),
    ensures
        lens_sum(e.push(x), n) == lens_sum(e, n),
        lens_sum(e.push(x), e.len() + 1) == lens_sum(e, e.len()) + x.1.len,
    decreases n,
{
    if n > 0 {
        lemma_lens_sum_push(e, x, (n - 1) as nat);
    }
    lemma_lens_sum_push_prefix(e, x, e.len());
}

proof fn lemma_lens_sum_push_prefix(e: Seq<(String, CommandPos)>, x: (String, CommandPos), n: nat)
    requires
        n <= e.len(),
    ensures
        lens_sum(e.push(x), n) == lens_sum(e, n),
    decreases n,
{
    if n > 0 {
        lemma_lens_sum_push_prefix(e, x, (n - 1) as nat);
    }
}

/// Lengths summed over a sequence with entry `i` taken out.
proof fn lemma_lens_sum_remove(e: Seq<(String, CommandPos)>, i: int, n: nat)
    requires
        0 <= i < e.len(),
        n <= e.len(),
    ensures
        n <= i ==> lens_sum(e.remove(i), n) == lens_sum(e, n),
        n > i ==> lens_sum(e.remove(i), (n - 1) as nat) == lens_sum(e, n) - e[i].1.len,
    decreases n,
{
    if n > 0 {
        lemma_lens_sum_remove(e, i, (n - 1) as nat);
        if n - 1 > i {
            assert(e.remove(i)[n - 2] == e[n - 1]);
        }
    }
}

/// Bytes accounted for over the segments `gens`.
pub open spec fn seg_total(gens: Seq<u64>, ends: Map<u64, nat>) -> nat
    decreases gens.len(),
{
    if gens.len() == 0 {
        0
    } else {
        seg_total(gens.drop_last(), ends) + ends[gens.last()]
    }
}

/// Changing one segment's end changes the total by as much, when the
/// segment occurs once.
proof fn lemma_seg_total_insert(gens: Seq<u64>, ends: Map<u64, nat>, g: u64, v: nat)
    requires
        forall|i: int, j: int| 0 <= i < j < gens.len() ==> gens[i] < gens[j],
    ensures
        seg_total(gens, ends.insert(g, v)) == if gens.contains(g) {
            seg_total(gens, ends) - ends[g] + v
        } else {
            seg_total(gens, ends) as int
        },
    decreases gens.len(),
{
    if gens.len() > 0 {
        let p = gens.drop_last();
        lemma_seg_total_insert(p, ends, g, v);
        if gens.last() == g {
            assert forall|i: int| 0 <= i < p.len() implies p[i] != g by {
                assert(gens[i] < gens[gens.len() - 1]);
            }
            assert(!p.contains(g));
        } else {
            if gens.contains(g) {
                let j = choose|j: int| 0 <= j < gens.len() && gens[j] == g;
                assert(p[j] == g);
            }
            if p.contains(g) {
                let j = choose|j: int| 0 <= j < p.len() && p[j] == g;
                assert(gens[j] == g);
            }
        }
    }
}

/// The total only reads the ends of the segments listed.
proof fn lemma_seg_total_agree(gens: Seq<u64>, a: Map<u64, nat>, b: Map<u64, nat>)
    requires
        forall|i: int| 0 <= i < gens.len() ==> a[#[trigger] gens[i]] == b[gens[i]],
    ensures
        seg_total(gens, a) == seg_total(gens, b),
    decreases gens.len(),
{
    if gens.len() > 0 {
        let p = gens.drop_last();
        assert forall|i: int| 0 <= i < p.len() implies a[#[trigger] p[i]] == b[p[i]] by {
            assert(p[i] == gens[i]);
        }
        lemma_seg_total_agree(p, a, b);
    }
}

/// With every length positive, a longer prefix sums to strictly more.
proof fn lemma_lens_sum_strict(e: Seq<(String, CommandPos)>, a: nat, b: nat)
    requires
        a < b <= e.len(),
        forall|i: int| 0 <= i < e.len() ==> #[trigger] e[i].1.len > 0,
    ensures
        lens_sum(e, a) < lens_sum(e, b),
    decreases b,
{
    if a + 1 < b {
        lemma_lens_sum_strict(e, a, (b - 1) as nat);
    }
}

/// The records of a compacted segment: entry `j` of `e`, as a `Put` of its
/// key with its value, at the offset where the entries before it end.
pub open spec fn relocated_log(
    e: Seq<(String, CommandPos)>,
    contents: Map<Seq<char>, Seq<char>>,
    cg: u64,
    n: nat,
) -> Map<(u64, u64), (Seq<char>, Seq<char>)>
    decreases n,
{
    if n == 0 || n > e.len() {
        Map::empty()
    } else {
        relocated_log(e, contents, cg, (n - 1) as nat).insert(
            (cg, lens_sum(e, (n - 1) as nat) as u64),
            (e[n - 1].0@, contents[e[n - 1].0@]),
        )
    }
}

proof fn lemma_relocated_log(
    e: Seq<(String, CommandPos)>,
    contents: Map<Seq<char>, Seq<char>>,
    cg: u64,
    n: nat,
)
    requires
        n <= e.len(),
        forall|i: int| 0 <= i < e.len() ==> #[trigger] e[i].1.len > 0,
        lens_sum(e, e.len()) <= u64::MAX,
    ensures
        forall|j: int| 0 <= j < n ==> #[trigger] relocated_log(e, contents, cg, n).contains_key(
            (cg, lens_sum(e, j as nat) as u64),
        ) && relocated_log(e, contents, cg, n)[(cg, lens_sum(e, j as nat) as u64)] == (e[j].0@, contents[e[j].0@]),
    decreases n,
{
    if n > 0 {
        lemma_relocated_log(e, contents, cg, (n - 1) as nat);
        let prev = relocated_log(e, contents, cg, (n - 1) as nat);
        let m = relocated_log(e, contents, cg, n);
        let last = lens_sum(e, (n - 1) as nat);
        lemma_lens_sum_monotone(e, (n - 1) as nat, e.len());
        assert(m == prev.insert((cg, last as u64), (e[n - 1].0@, contents[e[n - 1].0@])));
        assert forall|j: int| 0 <= j < n implies #[trigger] m.contains_key((cg, lens_sum(e, j as nat) as u64))
            && m[(cg, lens_sum(e, j as nat) as u64)] == (e[j].0@, contents[e[j].0@]) by {
            if j < n - 1 {
                lemma_lens_sum_strict(e, j as nat, (n - 1) as nat);
                let pj = lens_sum(e, j as nat);
                assert(pj < last);
                assert((pj as u64) as int == pj);
                assert((last as u64) as int == last);
                assert((cg, pj as u64) != (cg, last as u64));
                assert(prev.contains_key((cg, pj as u64)));
                assert(m[(cg, pj as u64)] == prev[(cg, pj as u64)]);
            }
        }
    }
}

/// Sequences whose entries have the same lengths have the same sums.
proof fn lemma_lens_sum_same_lens(a: Seq<(String, CommandPos)>, b: Seq<(String, CommandPos)>, n: nat)
    requires
        n <= a.len(),
        a.len() == b.len(),
        forall|i: int| 0 <= i < a.len() ==> #[trigger] a[i].1.len == b[i].1.len,
    ensures
        lens_sum(a, n) == lens_sum(b, n),
    decreases n,
{
    if n > 0 {
        lemma_lens_sum_same_lens(a, b, (n - 1) as nat);
    }
}

/// Segments that hold nothing add up to nothing.
proof fn lemma_seg_total_zero(gens: Seq<u64>, ends: Map<u64, nat>)
    requires
        forall|g: u64| #[trigger] ends[g] == 0,
    ensures
        seg_total(gens, ends) == 0,
    decreases gens.len(),
{
    if gens.len() > 0 {
        lemma_seg_total_zero(gens.drop_last(), ends);
    }
}

/// The engine's bookkeeping: the in-memory index from key to the location of
/// its latest `Put`, the generations that have a segment file, the active
/// generation and the count of reclaimable bytes.
///
/// The segment files themselves are read and written by the caller; this type
/// decides where each record goes and what the index says about it.
pub struct LogState {
    entries: Vec<(String, CommandPos)>,
    gens: Vec<u64>,
    current_gen: u64,
    uncompacted: u64,
    compacting: bool,
    active_end: u64,
    index: Ghost<Map<Seq<char>, CommandPos>>,
    contents: Ghost<Map<Seq<char>, Seq<char>>>,
    ends: Ghost<Map<u64, nat>>,
    dead: Ghost<nat>,
    log: Ghost<Map<(u64, u64), (Seq<char>, Seq<char>)>>,
}

impl LogState {
    /// Key to location of its latest `Put`.
    pub closed spec fn index(&self) -> Map<Seq<char>, CommandPos> {
        self.index@
    }

    /// Key to value, as the commands applied so far leave it.
    pub closed spec fn contents(&self) -> Map<Seq<char>, Seq<char>> {
        self.contents@
    }

    /// The index entries in the order compaction copies them.
    pub closed spec fn entries(&self) -> Seq<(String, CommandPos)> {
        self.entries@
    }

    /// Generations that have a segment file, ascending.
    pub closed spec fn gens(&self) -> Seq<u64> {
        self.gens@
    }

    pub closed spec fn current_gen(&self) -> u64 {
        self.current_gen
    }

    pub closed spec fn uncompacted(&self) -> u64 {
        self.uncompacted
    }

    /// For each generation with a segment, the bytes accounted for in it.
    pub closed spec fn ends(&self) -> Map<u64, nat> {
        self.ends@
    }

    /// The `Put` records written so far, by (generation, offset): their key
    /// and value.
    pub closed spec fn log(&self) -> Map<(u64, u64), (Seq<char>, Seq<char>)> {
        self.log@
    }

    /// Bytes accounted for in the active segment: where the next record goes.
    pub closed spec fn active_end(&self) -> u64 {
        self.active_end
    }

    /// Every index entry is a non-empty record below its segment's end that
    /// is a `Put` of its key with the key's current value.
    pub closed spec fn log_wf(&self) -> bool {
        &&& forall|g: u64| #[trigger] self.gens@.contains(g) ==> self.ends@.contains_key(g)
        &&& self.ends@.contains_key(self.current_gen)
        &&& self.ends@[self.current_gen] == self.active_end as nat
        &&& forall|k: Seq<char>| #[trigger] self.index@.contains_key(k) ==> {
            let cp = self.index@[k];
            &&& cp.len > 0
            &&& self.ends@.contains_key(cp.gen)
            &&& cp.pos < self.ends@[cp.gen]
            &&& self.log@.contains_key((cp.gen, cp.pos))
            &&& self.log@[(cp.gen, cp.pos)] == (k, self.contents@[k])
        }
    }

    /// Bytes of the live records.
    pub closed spec fn live_bytes(&self) -> nat {
        lens_sum(self.entries@, self.entries@.len())
    }

    /// Bytes accounted for over all segments.
    pub closed spec fn segment_bytes(&self) -> nat {
        seg_total(self.gens@, self.ends@)
    }

    /// Every accounted byte is live or dead, and the dead ones are counted,
    /// up to the largest `u64`, as reclaimable.
    pub closed spec fn space_wf(&self) -> bool {
        &&& seg_total(self.gens@, self.ends@) == lens_sum(self.entries@, self.entries@.len()) + self.dead@
        &&& self.uncompacted as nat == capped(self.dead@ as int)
        &&& self.compacting ==> self.active_end == 0
    }

    /// A compaction was begun and not yet finished.
    pub closed spec fn compacting(&self) -> bool {
        self.compacting
    }

    /// The entries hold each indexed key once, with its index entry.
    pub closed spec fn entries_wf(&self) -> bool {
        &&& forall|i: int, j: int|
            0 <= i < j < self.entries@.len() ==> self.entries@[i].0@ != self.entries@[j].0@
        &&& forall|i: int|
            0 <= i < self.entries@.len() ==> #[trigger] self.index@.contains_key(self.entries@[i].0@)
                && self.index@[self.entries@[i].0@] == self.entries@[i].1
        &&& forall|k: Seq<char>|
            #[trigger] self.index@.contains_key(k) ==> exists|i: int|
                0 <= i < self.entries@.len() && #[trigger] self.entries@[i].0@ == k
    }

    pub closed spec fn wf(&self) -> bool {
        &&& self.entries_wf()
        &&& self.contents@.dom() == self.index@.dom()
        &&& forall|k: Seq<char>|
            #[trigger] self.index@.contains_key(k) ==> self.gens@.contains(self.index@[k].gen)
        &&& forall|i: int, j: int| 0 <= i < j < self.gens@.len() ==> self.gens@[i] < self.gens@[j]
        &&& self.gens@.len() > 0
        &&& self.gens@.last() == self.current_gen
        &&& self.current_gen >= 1
        &&& self.compacting ==> self.gens@.len() >= 2 && self.gens@[self.gens@.len() - 2] == self.current_gen - 1
        &&& self.log_wf()
        &&& self.space_wf()
    }

    /// Position in `entries` of `key`, if it has an index entry.
    fn find(&self, key: &String) -> (r: Option<usize>)
        requires
            self.entries_wf(),
        ensures
            match r {
                Some(i) => i < self.entries@.len() && self.entries@[i as int].0@ == key@,
                None => !self.index@.contains_key(key@),
            },
    {
        let mut i: usize = 0;
        while i < self.entries.len()
            invariant
                self.entries_wf(),
                i <= self.entries@.len(),
                forall|j: int| 0 <= j < i ==> self.entries@[j].0@ != key@,
            decreases self.entries@.len() - i,
        {
            if self.entries[i].0 == *key {
                return Some(i);
            }
            i = i + 1;
        }
        None
    }

    /// The index entry of `key`, if any.
    pub fn lookup(&self, key: &String) -> (r: Option<CommandPos>)
        requires
            self.wf(),
        ensures
            r == (if self.index().contains_key(key@) {
                Some(self.index()[key@])
            } else {
                None::<CommandPos>
            }),
    {
        match self.find(key) {
            Some(i) => Some(self.entries[i].1),
            None => None,
        }
    }

    /// Whether `key` has an index entry, that is, whether it is bound.
    pub fn contains(&self, key: &String) -> (r: bool)
        requires
            self.wf(),
        ensures
            r == self.index().contains_key(key@),
            r == self.contents().contains_key(key@),
    {
        self.find(key).is_some()
    }

    /// Apply `cmd`, stored in segment `gen` at bytes `[pos, end)`, to the index,
    /// the reclaimable-byte count and the contents.
    fn apply(&mut self, gen: u64, cmd: &Command, pos: u64, end: u64)
        requires
            old(self).wf(),
            old(self).gens@.contains(gen),
            pos < end,
            old(self).ends@[gen] == pos,
            old(self).compacting ==> gen != old(self).current_gen,
        ensures
            final(self).wf(),
            final(self).ends@ == old(self).ends@.insert(gen, end as nat),
            final(self).log@ == (match *cmd {
                Command::Put { key, value } => old(self).log@.insert((gen, pos), (key@, value@)),
                Command::Remove { .. } => old(self).log@,
            }),
            final(self).active_end == (if gen == old(self).current_gen { end } else { old(self).active_end }),
            final(self).index@ == index_step(old(self).index@, gen, *cmd, pos, end),
            final(self).uncompacted as nat == uncompacted_step(
                old(self).index@,
                old(self).uncompacted as nat,
                *cmd,
                pos,
                end,
            ),
            final(self).contents@ == contents_step(old(self).contents@, *cmd),
            final(self).gens@ == old(self).gens@,
            final(self).current_gen == old(self).current_gen,
            final(self).compacting == old(self).compacting,
    {
        let found = self.find(cmd.key());
        self.ends = Ghost(self.ends@.insert(gen, end as nat));
        if gen == self.current_gen {
            self.active_end = end;
        }
        match cmd {
            Command::Put { key, value } => {
                let cp = CommandPos { gen, pos, len: end - pos };
                let displaced: u64 = match found {
                    Some(i) => {
                        let old_len = self.entries[i].1.len;
                        self.entries.set(i, (key.clone(), cp));
                        old_len
                    },
                    None => {
                        self.entries.push((key.clone(), cp));
                        0
                    },
                };
                self.uncompacted = self.uncompacted.saturating_add(displaced);
                self.index = Ghost(self.index@.insert(key@, cp));
                self.contents = Ghost(self.contents@.insert(key@, value@));
                self.log = Ghost(self.log@.insert((gen, pos), (key@, value@)));
                self.dead = Ghost(self.dead@ + displaced as nat);
                proof {
                    let e = self.entries@;
                    let o = old(self).entries@;
                    lemma_seg_total_insert(old(self).gens@, old(self).ends@, gen, end as nat);
                    match found {
                        Some(i) => {
                            assert(e =~= o.update(i as int, e[i as int]));
                            lemma_lens_sum_update(o, i as int, e[i as int], o.len());
                        },
                        None => {
                            assert(e =~= o.push(e[o.len() as int]));
                            lemma_lens_sum_push(o, e[o.len() as int], o.len());
                        },
                    }
                    assert(self.uncompacted as nat == capped(self.dead@ as int));
                }
                proof {
                    assert forall|g: u64| #[trigger] self.gens@.contains(g) implies self.ends@.contains_key(g) by {
                        assert(old(self).gens@.contains(g));
                    }
                    assert forall|k: Seq<char>| #[trigger] self.index@.contains_key(k) implies {
                        let cp = self.index@[k];
                        &&& cp.len > 0
                        &&& self.ends@.contains_key(cp.gen)
                        &&& cp.pos < self.ends@[cp.gen]
                        &&& self.log@.contains_key((cp.gen, cp.pos))
                        &&& self.log@[(cp.gen, cp.pos)] == (k, self.contents@[k])
                    } by {
                        if k != key@ {
                            assert(old(self).index@.contains_key(k));
                            let ocp = old(self).index@[k];
                            assert(ocp.pos < old(self).ends@[ocp.gen]);
                            assert((ocp.gen, ocp.pos) != (gen, pos));
                        }
                    }
                    let e = self.entries@;
                    let o = old(self).entries@;
                    // the slot that now holds `key`
                    let s: int = match found {
                        Some(i) => i as int,
                        None => o.len() as int,
                    };
                    assert(e[s].0@ == key@ && e[s].1 == cp);
                    assert forall|j: int| 0 <= j < o.len() && j != s implies #[trigger] e[j] == o[j] by {}
                    assert forall|j: int| 0 <= j < e.len() && j != s implies e[j].0@ != key@ by {
                        assert(e[j] == o[j]);
                        match found {
                            Some(i) => {
                                if j < s {
                                    assert(o[j].0@ != o[s].0@);
                                } else {
                                    assert(o[s].0@ != o[j].0@);
                                }
                            },
                            None => {
                                assert(old(self).index@.contains_key(o[j].0@));
                            },
                        }
                    }
                    assert forall|a: int, b: int| 0 <= a < b < e.len() implies e[a].0@ != e[b].0@ by {
                        if a != s && b != s {
                            assert(e[a] == o[a]);
                            assert(e[b] == o[b]);
                        }
                    }
                    assert forall|j: int| 0 <= j < e.len() implies #[trigger] self.index@.contains_key(e[j].0@)
                        && self.index@[e[j].0@] == e[j].1 by {
                        if j != s {
                            assert(e[j] == o[j]);
                            assert(old(self).index@.contains_key(o[j].0@));
                        }
                    }
                    assert forall|k: Seq<char>| #[trigger] self.index@.contains_key(k) implies exists|i: int|
                        0 <= i < e.len() && #[trigger] e[i].0@ == k by {
                        if k == key@ {
                            assert(e[s].0@ == k);
                        } else {
                            let i = choose|i: int| 0 <= i < o.len() && #[trigger] o[i].0@ == k;
                            assert(e[i] == o[i]);
                        }
                    }
                    assert(self.contents@.dom() =~= self.index@.dom());
                }
            },
            Command::Remove { key } => {
                let displaced: u64 = match found {
                    Some(i) => {
                        let old_entry = self.entries.remove(i);
                        proof {
                            let e = self.entries@;
                            let o = old(self).entries@;
                            assert forall|a: int, b: int| 0 <= a < b < e.len() implies e[a].0@ != e[b].0@ by {
                                let oa = if a < i { a } else { a + 1 };
                                let ob = if b < i { b } else { b + 1 };
                                assert(e[a] == o[oa]);
                                assert(e[b] == o[ob]);
                            }
                        }
                        old_entry.1.len
                    },
                    None => 0,
                };
                self.uncompacted = self.uncompacted.saturating_add(displaced).saturating_add(end - pos);
                self.index = Ghost(self.index@.remove(key@));
                self.contents = Ghost(self.contents@.remove(key@));
                self.dead = Ghost(self.dead@ + displaced as nat + (end - pos) as nat);
                proof {
                    let e = self.entries@;
                    let o = old(self).entries@;
                    lemma_seg_total_insert(old(self).gens@, old(self).ends@, gen, end as nat);
                    match found {
                        Some(i) => {
                            lemma_lens_sum_remove(o, i as int, o.len());
                        },
                        None => {},
                    }
                    assert(self.uncompacted as nat == capped(self.dead@ as int));
                }
                proof {
                    assert forall|g: u64| #[trigger] self.gens@.contains(g) implies self.ends@.contains_key(g) by {
                        assert(old(self).gens@.contains(g));
                    }
                    assert forall|k: Seq<char>| #[trigger] self.index@.contains_key(k) implies {
                        let cp = self.index@[k];
                        &&& cp.len > 0
                        &&& self.ends@.contains_key(cp.gen)
                        &&& cp.pos < self.ends@[cp.gen]
                        &&& self.log@.contains_key((cp.gen, cp.pos))
                        &&& self.log@[(cp.gen, cp.pos)] == (k, self.contents@[k])
                    } by {
                        assert(old(self).index@.contains_key(k));
                        let ocp = old(self).index@[k];
                        assert(ocp.pos < old(self).ends@[ocp.gen]);
                    }
                    let e = self.entries@;
                    let o = old(self).entries@;
                    assert forall|j: int| 0 <= j < e.len() implies #[trigger] self.index@.contains_key(e[j].0@)
                        && self.index@[e[j].0@] == e[j].1 by {
                        if old(self).index@.contains_key(key@) {
                            let i = choose|i: int| 0 <= i < o.len() && #[trigger] o[i].0@ == key@;
                            let oj = if j < i { j } else { j + 1 };
                            assert(e[j] == o[oj]);
                            if oj < i {
                                assert(o[oj].0@ != o[i].0@);
                            } else {
                                assert(o[i].0@ != o[oj].0@);
                            }
                            assert(old(self).index@.contains_key(o[oj].0@));
                        } else {
                            assert(e[j] == o[j]);
                            assert(old(self).index@.contains_key(o[j].0@));
                        }
                    }
                    assert forall|k: Seq<char>| #[trigger] self.index@.contains_key(k) implies exists|j: int|
                        0 <= j < e.len() && #[trigger] e[j].0@ == k by {
                        let i0 = choose|i: int| 0 <= i < o.len() && #[trigger] o[i].0@ == k;
                        if old(self).index@.contains_key(key@) {
                            let i = choose|i: int| 0 <= i < o.len() && #[trigger] o[i].0@ == key@;
                            let j = if i0 < i { i0 } else { i0 - 1 };
                            assert(e[j] == o[i0]);
                        } else {
                            assert(e[i0] == o[i0]);
                        }
                    }
                    assert(self.contents@.dom() =~= self.index@.dom());
                }
            },
        }
    }

    /// A fresh state over the existing generations `gen_list` (ascending): the
    /// active generation is one past the largest, and gets a segment of its
    /// own. `None` when no generation number is left for it.
    fn new(gen_list: Vec<u64>) -> (r: Option<LogState>)
        requires
            forall|i: int, j: int| 0 <= i < j < gen_list@.len() ==> gen_list@[i] < gen_list@[j],
        ensures
            match r {
                Some(st) => {
                    &&& st.wf()
                    &&& st.index@ == Map::<Seq<char>, CommandPos>::empty()
                    &&& st.contents@ == Map::<Seq<char>, Seq<char>>::empty()
                    &&& st.uncompacted == 0
                    &&& st.current_gen == (if gen_list@.len() == 0 { 1 } else { gen_list@.last() + 1 })
                    &&& st.gens@ == gen_list@.push(st.current_gen)
                    &&& !st.compacting
                    &&& st.active_end == 0
                    &&& forall|g: u64| #[trigger] st.ends@[g] == 0
                },
                None => gen_list@.len() > 0 && gen_list@.last() == u64::MAX,
            },
    {
        let n = gen_list.len();
        let current_gen: u64 = if n == 0 {
            1
        } else if gen_list[n - 1] == u64::MAX {
            return None;
        } else {
            gen_list[n - 1] + 1
        };
        let mut gens = gen_list;
        gens.push(current_gen);
        let st = LogState {
            entries: Vec::new(),
            gens,
            current_gen,
            uncompacted: 0,
            compacting: false,
            active_end: 0,
            index: Ghost(Map::empty()),
            contents: Ghost(Map::empty()),
            ends: Ghost(Map::new(|g: u64| true, |g: u64| 0nat)),
            dead: Ghost(0),
            log: Ghost(Map::empty()),
        };
        proof {
            lemma_seg_total_zero(st.gens@, st.ends@);
            let g = st.gens@;
            let o = gen_list@;
            assert forall|a: int, b: int| 0 <= a < b < g.len() implies g[a] < g[b] by {
                if b < o.len() {
                    assert(g[a] == o[a] && g[b] == o[b]);
                } else if a < o.len() - 1 {
                    assert(g[a] == o[a]);
                    assert(o[a] < o[o.len() - 1]);
                }
            }
        }
        Some(st)
    }

    /// Replay the records of segment `gen`, each given with the offset where
    /// it ends (the first starts at offset zero), into the index and the
    /// reclaimable-byte count.
    #[verifier::rlimit(50)]
    fn load(&mut self, gen: u64, records: &Vec<(Command, u64)>)
        requires
            old(self).wf(),
            old(self).gens@.contains(gen),
            gen != old(self).current_gen,
            old(self).ends@[gen] == 0,
            offsets_increase(records@),
        ensures
            final(self).wf(),
            final(self).index@ == replay_index(old(self).index@, gen, records@, records@.len()),
            final(self).uncompacted as nat == replay_uncompacted(
                old(self).index@,
                old(self).uncompacted as nat,
                gen,
                records@,
                records@.len(),
            ),
            final(self).contents@ == replay_contents(old(self).contents@, records@, records@.len()),
            final(self).gens@ == old(self).gens@,
            final(self).current_gen == old(self).current_gen,
            final(self).compacting == old(self).compacting,
            final(self).active_end == old(self).active_end,
            forall|g: u64| g != gen ==> #[trigger] final(self).ends@[g] == old(self).ends@[g],
            final(self).ends@[gen] == record_start(records@, records@.len() as int),
    {
        let mut pos: u64 = 0;
        let mut i: usize = 0;
        while i < records.len()
            invariant
                self.wf(),
                i <= records@.len(),
                self.gens@.contains(gen),
                offsets_increase(records@),
                pos == record_start(records@, i as int),
                self.ends@[gen] == pos as nat,
                forall|g: u64| g != gen ==> #[trigger] self.ends@[g] == old(self).ends@[g],
                self.index@ == replay_index(old(self).index@, gen, records@, i as nat),
                self.uncompacted as nat == replay_uncompacted(
                    old(self).index@,
                    old(self).uncompacted as nat,
                    gen,
                    records@,
                    i as nat,
                ),
                self.contents@ == replay_contents(old(self).contents@, records@, i as nat),
                self.gens@ == old(self).gens@,
                self.current_gen == old(self).current_gen,
                self.compacting == old(self).compacting,
                self.active_end == old(self).active_end,
                gen != self.current_gen,
            decreases records@.len() - i,
        {
            let end = records[i].1;
            assert(record_start(records@, i as int) < records@[i as int].1);
            self.apply(gen, &records[i].0, pos, end);
            pos = end;
            i = i + 1;
        }
    }

    /// The state of a store whose directory holds `segments`: each
    /// generation, ascending, with its decoded records and the offset where
    /// each ends. The records are replayed in order; the active generation is
    /// one past the largest and starts empty. `None` when no generation
    /// number is left for it.
    #[verifier::rlimit(100)]
    pub fn open(segments: &Vec<(u64, Vec<(Command, u64)>)>) -> (r: Option<LogState>)
        requires
            forall|i: int, j: int| 0 <= i < j < segments@.len() ==> segments@[i].0 < segments@[j].0,
            forall|i: int| 0 <= i < segments@.len() ==> offsets_increase(#[trigger] segments@[i].1@),
        ensures
            match r {
                Some(st) => {
                    &&& st.wf()
                    &&& st.index() == open_index(segments@, segments@.len())
                    &&& st.contents() == open_contents(segments@, segments@.len())
                    &&& st.uncompacted() as nat == open_uncompacted(segments@, segments@.len())
                    &&& st.current_gen() == (if segments@.len() == 0 {
                        1
                    } else {
                        segments@.last().0 + 1
                    })
                    &&& st.gens() == segments@.map_values(|s: (u64, Vec<(Command, u64)>)| s.0).push(
                        st.current_gen(),
                    )
                    &&& !st.compacting()
                    &&& st.active_end() == 0
                    &&& forall|i: int| 0 <= i < segments@.len() ==> #[trigger] st.ends()[segments@[i].0]
                        == record_start(segments@[i].1@, segments@[i].1@.len() as int)
                    &&& st.ends()[st.current_gen()] == 0
                    &&& st.segment_bytes() == segments_len(segments@, segments@.len())
                    &&& st.uncompacted() < u64::MAX ==> st.segment_bytes() == st.live_bytes() + st.uncompacted()
                },
                None => segments@.len() > 0 && segments@.last().0 == u64::MAX,
            },
    {
        let mut gen_list: Vec<u64> = Vec::new();
        let mut i: usize = 0;
        while i < segments.len()
            invariant
                i <= segments@.len(),
                gen_list@ == segments@.subrange(0, i as int).map_values(|s: (u64, Vec<(Command, u64)>)| s.0),
            decreases segments@.len() - i,
        {
            gen_list.push(segments[i].0);
            i = i + 1;
            proof {
                assert(segments@.subrange(0, i as int).map_values(|s: (u64, Vec<(Command, u64)>)| s.0)
                    =~= gen_list@);
            }
        }
        proof {
            assert(segments@.subrange(0, segments@.len() as int) =~= segments@);
        }
        let ghost gl = gen_list@;
        let mut st = match LogState::new(gen_list) {
            Some(st) => st,
            None => {
                return None;
            },
        };
        let mut i: usize = 0;
        while i < segments.len()
            invariant
                st.wf(),
                i <= segments@.len(),
                forall|a: int, b: int| 0 <= a < b < segments@.len() ==> segments@[a].0 < segments@[b].0,
                forall|a: int| 0 <= a < segments@.len() ==> offsets_increase(#[trigger] segments@[a].1@),
                gl == segments@.map_values(|s: (u64, Vec<(Command, u64)>)| s.0),
                st.gens@ == gl.push(st.current_gen),
                st.current_gen == (if segments@.len() == 0 { 1 } else { segments@.last().0 + 1 }),
                forall|a: int| i <= a < segments@.len() ==> #[trigger] st.ends@[segments@[a].0] == 0,
                forall|a: int| 0 <= a < i ==> #[trigger] st.ends@[segments@[a].0] == record_start(
                    segments@[a].1@,
                    segments@[a].1@.len() as int,
                ),
                st.index@ == open_index(segments@, i as nat),
                st.contents@ == open_contents(segments@, i as nat),
                st.uncompacted as nat == open_uncompacted(segments@, i as nat),
                !st.compacting,
                st.active_end == 0,
            decreases segments@.len() - i,
        {
            let gen = segments[i].0;
            proof {
                assert(st.gens@[i as int] == gen);
                if i < segments@.len() - 1 {
                    assert(segments@[i as int].0 < segments@[segments@.len() - 1].0);
                }
            }
            st.load(gen, &segments[i].1);
            proof {
                assert forall|a: int| 0 <= a < i + 1 implies #[trigger] st.ends@[segments@[a].0] == record_start(
                    segments@[a].1@,
                    segments@[a].1@.len() as int,
                ) by {
                    if a < i {
                        assert(segments@[a].0 < segments@[i as int].0);
                    }
                }
                assert forall|a: int| i + 1 <= a < segments@.len() implies #[trigger] st.ends@[segments@[a].0] == 0 by {
                    assert(segments@[i as int].0 < segments@[a].0);
                }
            }
            i = i + 1;
        }
        proof {
            lemma_seg_total_of_segments(segments@, st.ends@, segments@.len());
            assert(segments@.subrange(0, segments@.len() as int) =~= segments@);
            assert(st.gens@.drop_last() =~= gl);
        }
        Some(st)
    }

    /// Account for `cmd`, just appended to the active segment at bytes
    /// `[pos, end)`, right after the records before it. Returns whether the
    /// reclaimable bytes have reached `COMPACTION_THRESHOLD`, that is,
    /// whether the log is due for compaction.
    ///
    /// A tombstone is only written for a bound key.
    pub fn record(&mut self, cmd: &Command, pos: u64, end: u64) -> (compact: bool)
        requires
            old(self).wf(),
            !old(self).compacting(),
            pos == old(self).active_end(),
            pos < end,
            cmd is Remove ==> old(self).contents().contains_key(cmd.key_view()),
        ensures
            final(self).wf(),
            final(self).index() == index_step(old(self).index(), old(self).current_gen(), *cmd, pos, end),
            final(self).uncompacted() as nat == uncompacted_step(
                old(self).index(),
                old(self).uncompacted() as nat,
                *cmd,
                pos,
                end,
            ),
            final(self).contents() == contents_step(old(self).contents(), *cmd),
            final(self).gens() == old(self).gens(),
            final(self).current_gen() == old(self).current_gen(),
            final(self).compacting() == old(self).compacting(),
            final(self).active_end() == end,
            final(self).log() == (match *cmd {
                Command::Put { key, value } => old(self).log().insert((old(self).current_gen(), pos), (key@, value@)),
                Command::Remove { .. } => old(self).log(),
            }),
            compact == (final(self).uncompacted() >= COMPACTION_THRESHOLD),
    {
        let gen = self.current_gen;
        proof {
            assert(self.gens@[self.gens@.len() - 1] == gen);
        }
        self.apply(gen, cmd, pos, end);
        self.uncompacted >= COMPACTION_THRESHOLD
    }

    /// Whether a compaction was begun and not yet finished.
    pub fn is_compacting(&self) -> (r: bool)
        ensures
            r == self.compacting(),
    {
        self.compacting
    }

    /// Where the next record of the active segment starts.
    pub fn active_len(&self) -> (r: u64)
        ensures
            r == self.active_end(),
    {
        self.active_end
    }

    /// Start a compaction: allocate `current_gen + 1` for the compacted
    /// output and `current_gen + 2` as the new active generation, both with a
    /// segment file. Returns the compaction generation, or `None`, with the
    /// state unchanged, when the generation numbers are exhausted.
    #[verifier::rlimit(60)]
    pub fn begin_compaction(&mut self) -> (r: Option<u64>)
        requires
            old(self).wf(),
        ensures
            final(self).wf(),
            final(self).index() == old(self).index(),
            final(self).contents() == old(self).contents(),
            final(self).entries() == old(self).entries(),
            final(self).uncompacted() == old(self).uncompacted(),
            match r {
                Some(cg) => {
                    &&& old(self).current_gen() <= u64::MAX - 2
                    &&& cg == old(self).current_gen() + 1
                    &&& final(self).current_gen() == cg + 1
                    &&& final(self).gens() == old(self).gens().push(cg).push((cg + 1) as u64)
                    &&& final(self).compacting()
                },
                None => {
                    &&& old(self).current_gen() > u64::MAX - 2
                    &&& *final(self) == *old(self)
                },
            },
    {
        if self.current_gen > u64::MAX - 2 {
            return None;
        }
        let cg = self.current_gen + 1;
        self.gens.push(cg);
        self.gens.push(cg + 1);
        self.current_gen = cg + 1;
        self.compacting = true;
        self.active_end = 0;
        self.ends = Ghost(self.ends@.insert(cg, 0).insert((cg + 1) as u64, 0));
        proof {
            let o = old(self).gens@;
            assert forall|i: int| 0 <= i < o.len() implies self.ends@[#[trigger] o[i]] == old(self).ends@[o[i]] by {
                if i < o.len() - 1 {
                    assert(o[i] < o[o.len() - 1]);
                }
                assert(o[i] <= old(self).current_gen);
                assert(o[i] != cg && o[i] != cg + 1);
            }
            lemma_seg_total_agree(o, self.ends@, old(self).ends@);
            assert(self.gens@.drop_last() =~= o.push(cg));
            assert(o.push(cg).drop_last() =~= o);
            assert(seg_total(o.push(cg), self.ends@) == seg_total(o, self.ends@) + self.ends@[cg]);
            assert(seg_total(self.gens@, self.ends@) == seg_total(o.push(cg), self.ends@) + self.ends@[(cg + 1) as u64]);
            assert forall|g: u64| #[trigger] self.gens@.contains(g) implies self.ends@.contains_key(g) by {
                if g != cg && g != cg + 1 {
                    let j = choose|j: int| 0 <= j < self.gens@.len() && self.gens@[j] == g;
                    assert(j < old(self).gens@.len());
                    assert(old(self).gens@[j] == g);
                    assert(old(self).gens@.contains(g));
                }
            }
            assert forall|k: Seq<char>| #[trigger] self.index@.contains_key(k) implies self.index@[k].gen < cg by {
                let o = old(self).gens@;
                let j = choose|j: int| 0 <= j < o.len() && o[j] == self.index@[k].gen;
                if j < o.len() - 1 {
                    assert(o[j] < o[o.len() - 1]);
                }
            }
            let g = self.gens@;
            let o = old(self).gens@;
            assert forall|i: int| 0 <= i < o.len() implies #[trigger] g[i] == o[i] && o[i] < cg by {
                if i < o.len() - 1 {
                    assert(o[i] < o[o.len() - 1]);
                }
            }
            assert forall|a: int, b: int| 0 <= a < b < g.len() implies g[a] < g[b] by {
                if b < o.len() {
                    assert(g[a] == o[a] && g[b] == o[b]);
                } else if a < o.len() {
                    assert(g[a] == o[a]);
                }
            }
            assert forall|k: Seq<char>| #[trigger] self.index@.contains_key(k) implies g.contains(self.index@[k].gen) by {
                let j = choose|j: int| 0 <= j < o.len() && o[j] == self.index@[k].gen;
                assert(g[j] == o[j]);
            }
            assert forall|k: Seq<char>| #[trigger] self.index@.contains_key(k) implies exists|i: int|
                0 <= i < self.entries@.len() && #[trigger] self.entries@[i].0@ == k by {
                let i = choose|i: int| 0 <= i < old(self).entries@.len() && #[trigger] old(self).entries@[i].0@ == k;
                assert(self.entries@[i].0@ == k);
            }
        }
        Some(cg)
    }

    /// Where the live records are, in the order compaction copies them into
    /// the compaction segment, back to back from offset zero.
    pub fn compaction_plan(&self) -> (r: Vec<CommandPos>)
        requires
            self.wf(),
        ensures
            r@.len() == self.entries().len(),
            forall|i: int| 0 <= i < r@.len() ==> #[trigger] r@[i] == self.entries()[i].1,
    {
        let mut r: Vec<CommandPos> = Vec::new();
        let mut i: usize = 0;
        while i < self.entries.len()
            invariant
                i <= self.entries@.len(),
                r@.len() == i,
                forall|j: int| 0 <= j < i ==> #[trigger] r@[j] == self.entries@[j].1,
            decreases self.entries@.len() - i,
        {
            r.push(self.entries[i].1);
            i = i + 1;
        }
        r
    }

    /// Total length of the live records, if it fits in a `u64`.
    fn live_len(&self) -> (r: Option<u64>)
        ensures
            match r {
                Some(t) => t == lens_sum(self.entries@, self.entries@.len()),
                None => lens_sum(self.entries@, self.entries@.len()) > u64::MAX,
            },
    {
        let mut total: u64 = 0;
        let mut i: usize = 0;
        while i < self.entries.len()
            invariant
                i <= self.entries@.len(),
                total == lens_sum(self.entries@, i as nat),
            decreases self.entries@.len() - i,
        {
            match total.checked_add(self.entries[i].1.len) {
                Some(t) => {
                    total = t;
                },
                None => {
                    proof {
                        lemma_lens_sum_monotone(self.entries@, (i + 1) as nat, self.entries@.len());
                    }
                    return None;
                },
            }
            i = i + 1;
        }
        Some(total)
    }

    /// Finish a compaction whose output segment is generation
    /// `current_gen - 1` and holds the records of `compaction_plan` back to
    /// back: every index entry is moved there, every older generation is
    /// retired, and the reclaimable bytes drop to zero. Returns the retired
    /// generations, ascending, whose segment files are to be deleted.
    ///
    /// `None`, with the state unchanged, when no compaction is under way or
    /// when the live records do not fit in a `u64` of bytes.
    #[verifier::rlimit(100)]
    pub fn finish_compaction(&mut self) -> (r: Option<Vec<u64>>)
        requires
            old(self).wf(),
        ensures
            final(self).wf(),
            match r {
                Some(stale) => {
                    let cg = (old(self).current_gen() - 1) as u64;
                    &&& old(self).compacting()
                    &&& lens_sum(old(self).entries(), old(self).entries().len()) <= u64::MAX
                    &&& !final(self).compacting()
                    &&& final(self).uncompacted() == 0
                    &&& final(self).gens() == seq![cg, old(self).current_gen()]
                    &&& stale@ + final(self).gens() == old(self).gens()
                    &&& forall|i: int| 0 <= i < stale@.len() ==> #[trigger] stale@[i] < cg
                    &&& final(self).current_gen() == old(self).current_gen()
                    &&& final(self).contents() == old(self).contents()
                    &&& final(self).index().dom() == old(self).index().dom()
                    &&& final(self).entries().len() == old(self).entries().len()
                    &&& forall|i: int| 0 <= i < old(self).entries().len() ==> #[trigger] final(self).entries()[i]
                        == (old(self).entries()[i].0, CommandPos {
                            gen: cg,
                            pos: lens_sum(old(self).entries(), i as nat) as u64,
                            len: old(self).entries()[i].1.len,
                        })
                    &&& forall|i: int| 0 <= i < final(self).entries().len() ==> #[trigger] final(self).index()[final(self).entries()[i].0@]
                        == final(self).entries()[i].1
                    &&& forall|k: Seq<char>| #[trigger] old(self).index().contains_key(k) ==> final(self).index()[k].gen
                        == cg && final(self).index()[k].len == old(self).index()[k].len
                    &&& final(self).active_end() == 0
                    &&& final(self).ends()[cg] == lens_sum(old(self).entries(), old(self).entries().len())
                    &&& final(self).segment_bytes() == final(self).live_bytes()
                    &&& final(self).live_bytes() == old(self).live_bytes()
                },
                None => {
                    &&& *final(self) == *old(self)
                    &&& (!old(self).compacting() || lens_sum(old(self).entries(), old(self).entries().len())
                        > u64::MAX)
                },
            },
    {
        if !self.compacting {
            return None;
        }
        let cg = self.current_gen - 1;
        let n = self.gens.len();
        let total = match self.live_len() {
            Some(t) => t,
            None => {
                return None;
            },
        };
        let ghost old_entries = self.entries@;
        proof {
            assert forall|j: int| 0 <= j < old_entries.len() implies #[trigger] old_entries[j].1.len > 0 by {
                assert(self.index@.contains_key(old_entries[j].0@));
            }
        }
        let mut new_pos: u64 = 0;
        let mut i: usize = 0;
        while i < self.entries.len()
            invariant
                i <= self.entries@.len(),
                self.entries@.len() == old_entries.len(),
                new_pos == lens_sum(old_entries, i as nat),
                total == lens_sum(old_entries, old_entries.len()),
                forall|j: int| 0 <= j < i ==> #[trigger] self.entries@[j] == (old_entries[j].0, CommandPos {
                    gen: cg,
                    pos: lens_sum(old_entries, j as nat) as u64,
                    len: old_entries[j].1.len,
                }),
                forall|j: int| i <= j < old_entries.len() ==> #[trigger] self.entries@[j] == old_entries[j],
                self.gens@ == old(self).gens@,
                self.current_gen == old(self).current_gen,
                self.contents == old(self).contents,
                self.index == old(self).index,
                n == self.gens@.len(),
                cg == self.current_gen - 1,
                forall|j: int| 0 <= j < old_entries.len() ==> #[trigger] old_entries[j].1.len > 0,
                self.ends == old(self).ends,
                self.active_end == old(self).active_end,
                self.compacting == old(self).compacting,
                self.uncompacted == old(self).uncompacted,
                self.log == old(self).log,
            decreases self.entries@.len() - i,
        {
            proof {
                lemma_lens_sum_monotone(old_entries, (i + 1) as nat, old_entries.len());
            }
            let key = self.entries[i].0.clone();
            let len = self.entries[i].1.len;
            self.entries.set(i, (key, CommandPos { gen: cg, pos: new_pos, len }));
            new_pos = new_pos + len;
            i = i + 1;
        }
        let mut stale: Vec<u64> = Vec::new();
        let mut j: usize = 0;
        while j < n - 2
            invariant
                j <= n - 2,
                n == self.gens@.len(),
                stale@ == self.gens@.subrange(0, j as int),
                self.gens@ == old(self).gens@,
            decreases n - 2 - j,
        {
            stale.push(self.gens[j]);
            j = j + 1;
        }
        let ghost new_entries = self.entries@;
        self.gens = vec![cg, self.current_gen];
        self.uncompacted = 0;
        self.compacting = false;
        self.ends = Ghost(self.ends@.insert(cg, total as nat));
        self.dead = Ghost(0);
        self.log = Ghost(relocated_log(old_entries, self.contents@, cg, old_entries.len()));
        self.index = Ghost(Map::new(
            |k: Seq<char>| old(self).index@.contains_key(k),
            |k: Seq<char>| {
                let i = choose|i: int| 0 <= i < new_entries.len() && #[trigger] new_entries[i].0@ == k;
                new_entries[i].1
            },
        ));
        proof {
            let o = old(self);
            assert(stale@ + self.gens@ =~= o.gens@);
            assert forall|a: int| 0 <= a < stale@.len() implies #[trigger] stale@[a] < cg by {
                assert(o.gens@[a] < o.gens@[n - 2]);
            }
            assert forall|a: int, b: int| 0 <= a < b < new_entries.len() implies new_entries[a].0@ != new_entries[b].0@ by {
                assert(new_entries[a].0 == old_entries[a].0);
                assert(new_entries[b].0 == old_entries[b].0);
            }
            assert forall|j: int| 0 <= j < new_entries.len() implies #[trigger] self.index@.contains_key(new_entries[j].0@)
                && self.index@[new_entries[j].0@] == new_entries[j].1 by {
                assert(new_entries[j].0 == old_entries[j].0);
                assert(o.index@.contains_key(old_entries[j].0@));
                let i = choose|i: int| 0 <= i < new_entries.len() && #[trigger] new_entries[i].0@ == new_entries[j].0@;
                if i != j {
                    if i < j {
                        assert(new_entries[i].0@ != new_entries[j].0@);
                    } else {
                        assert(new_entries[j].0@ != new_entries[i].0@);
                    }
                }
            }
            assert forall|k: Seq<char>| #[trigger] self.index@.contains_key(k) implies exists|i: int|
                0 <= i < new_entries.len() && #[trigger] new_entries[i].0@ == k by {
                let i = choose|i: int| 0 <= i < old_entries.len() && #[trigger] old_entries[i].0@ == k;
                assert(new_entries[i].0 == old_entries[i].0);
            }
            assert forall|k: Seq<char>| #[trigger] self.index@.contains_key(k) implies self.gens@.contains(self.index@[k].gen) by {
                let i = choose|i: int| 0 <= i < new_entries.len() && #[trigger] new_entries[i].0@ == k;
                assert(self.gens@[0] == cg);
            }
            assert(self.index@.dom() =~= o.index@.dom());
            assert(self.contents@.dom() =~= self.index@.dom());
            assert(o.gens@.contains(self.current_gen));
            lemma_relocated_log(old_entries, self.contents@, cg, old_entries.len());
            lemma_lens_sum_same_lens(new_entries, old_entries, new_entries.len());
            assert(self.gens@.drop_last() =~= seq![cg]);
            assert(seq![cg].drop_last() =~= Seq::<u64>::empty());
            assert(seg_total(seq![cg], self.ends@) == seg_total(Seq::<u64>::empty(), self.ends@) + self.ends@[cg]);
            assert(self.ends@[cg] == total);
            assert(self.ends@[self.current_gen] == 0);
            assert(seg_total(self.gens@, self.ends@) == seg_total(seq![cg], self.ends@) + self.ends@[self.current_gen]);
            assert(seg_total(self.gens@, self.ends@) == total);
            assert forall|g: u64| #[trigger] self.gens@.contains(g) implies self.ends@.contains_key(g) by {
                assert(self.gens@[0] == cg && self.gens@[1] == self.current_gen);
            }
            assert forall|k: Seq<char>| #[trigger] self.index@.contains_key(k) implies {
                let cp = self.index@[k];
                &&& cp.len > 0
                &&& self.ends@.contains_key(cp.gen)
                &&& cp.pos < self.ends@[cp.gen]
                &&& self.log@.contains_key((cp.gen, cp.pos))
                &&& self.log@[(cp.gen, cp.pos)] == (k, self.contents@[k])
            } by {
                let i = choose|i: int| 0 <= i < new_entries.len() && #[trigger] new_entries[i].0@ == k;
                assert(self.index@[k] == new_entries[i].1);
                assert(new_entries[i].0 == old_entries[i].0);
                lemma_lens_sum_monotone(old_entries, (i + 1) as nat, old_entries.len());
                assert(lens_sum(old_entries, (i + 1) as nat) == lens_sum(old_entries, i as nat) + old_entries[i].1.len);
                assert(self.log@.contains_key((cg, lens_sum(old_entries, i as nat) as u64)));
            }
            assert forall|k: Seq<char>| #[trigger] self.index@.contains_key(k) implies exists|i: int|
                0 <= i < self.entries@.len() && #[trigger] self.entries@[i].0@ == k by {
                let i = choose|i: int| 0 <= i < old_entries.len() && #[trigger] old_entries[i].0@ == k;
                assert(new_entries[i].0 == old_entries[i].0);
                assert(self.entries@[i].0@ == k);
            }
        }
        proof {
            assert forall|k: Seq<char>| #[trigger] old(self).index@.contains_key(k) implies self.index@[k].gen == cg
                && self.index@[k].len == old(self).index@[k].len by {
                let i = choose|i: int| 0 <= i < old_entries.len() && #[trigger] old_entries[i].0@ == k;
                assert(new_entries[i].0 == old_entries[i].0);
                assert(self.index@[new_entries[i].0@] == new_entries[i].1);
            }
        }
        Some(stale)
    }

    /// The generation that new records are appended to.
    pub fn active_gen(&self) -> (r: u64)
        ensures
            r == self.current_gen(),
    {
        self.current_gen
    }

    /// Bytes of the log that no index entry refers to.
    pub fn reclaimable(&self) -> (r: u64)
        ensures
            r == self.uncompacted(),
    {
        self.uncompacted
    }
}

/// Exactly the bound keys have an index entry. Every index entry locates, in
/// a segment that exists, a `Put` record of its own key carrying the key's
/// current value; and no two keys share a location.
pub proof fn lemma_index_points_at_puts(st: &LogState)
    requires
        st.wf(),
    ensures
        st.index().dom() == st.contents().dom(),
        forall|k: Seq<char>| #[trigger] st.index().contains_key(k) ==> {
            let cp = st.index()[k];
            &&& st.gens().contains(cp.gen)
            &&& cp.len > 0
            &&& st.contents().contains_key(k)
            &&& st.log().contains_key((cp.gen, cp.pos))
            &&& st.log()[(cp.gen, cp.pos)] == (k, st.contents()[k])
        },
        forall|k1: Seq<char>, k2: Seq<char>|
            #[trigger] st.index().contains_key(k1) && #[trigger] st.index().contains_key(k2) && k1 != k2
                ==> (st.index()[k1].gen, st.index()[k1].pos) != (st.index()[k2].gen, st.index()[k2].pos),
{
    assert forall|k1: Seq<char>, k2: Seq<char>|
        #[trigger] st.index().contains_key(k1) && #[trigger] st.index().contains_key(k2) && k1 != k2
            implies (st.index()[k1].gen, st.index()[k1].pos) != (st.index()[k2].gen, st.index()[k2].pos) by {
        let l1 = (st.index()[k1].gen, st.index()[k1].pos);
        let l2 = (st.index()[k2].gen, st.index()[k2].pos);
        assert(st.log@[l1].0 == k1);
        assert(st.log@[l2].0 == k2);
    }
}

/// Space is bounded by live data: the bytes accounted for over all segments
/// are the live records' bytes plus the reclaimable count (while that count
/// is below the largest `u64`). So whenever no compaction is due, the
/// segments hold less than the live bytes plus `COMPACTION_THRESHOLD`.
pub proof fn lemma_space_bound(st: &LogState)
    requires
        st.wf(),
    ensures
        st.uncompacted() < u64::MAX ==> st.segment_bytes() == st.live_bytes() + st.uncompacted(),
        st.segment_bytes() >= st.live_bytes(),
        st.uncompacted() < COMPACTION_THRESHOLD ==> st.segment_bytes() < st.live_bytes()
            + COMPACTION_THRESHOLD,
{
}

} // verus!
