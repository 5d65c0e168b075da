use std::collections::{BTreeMap, HashMap};

use kvs::command::{encode, value_of, Command, CommandPos, KvsError};
use kvs::gens::{log_file_name, sorted_gen_list};
use kvs::state::{LogState, COMPACTION_THRESHOLD};

/// The engine's bookkeeping over segments held in memory, read and written
/// the way the file-backed store does it.
struct Disk {
    segments: HashMap<u64, Vec<u8>>,
    state: LogState,
}

fn to_command(v: serde_json::Value) -> Option<Command> {
    if let Some(set) = v.get("Set") {
        let key = set.get("key")?.as_str()?.to_string();
        let value = set.get("value")?.as_str()?.to_string();
        return Some(Command::set(key, value));
    }
    let rm = v.get("Remove")?;
    Some(Command::remove(rm.get("key")?.as_str()?.to_string()))
}

fn decode_segment(bytes: &[u8]) -> Vec<(Command, u64)> {
    let mut out = Vec::new();
    let mut stream = serde_json::Deserializer::from_slice(bytes).into_iter::<serde_json::Value>();
    while let Some(Ok(v)) = stream.next() {
        let end = stream.byte_offset() as u64;
        match to_command(v) {
            Some(c) => out.push((c, end)),
            None => break,
        }
    }
    out
}

impl Disk {
    fn open_with(segments: HashMap<u64, Vec<u8>>) -> Disk {
        let names: Vec<String> = segments.keys().map(|g| log_file_name(*g)).collect();
        let gens = sorted_gen_list(&names);
        let decoded: Vec<(u64, Vec<(Command, u64)>)> =
            gens.iter().map(|g| (*g, decode_segment(&segments[g]))).collect();
        let state = LogState::open(&decoded).unwrap();
        let mut segments = segments;
        segments.insert(state.active_gen(), Vec::new());
        Disk { segments, state }
    }

    fn open() -> Disk {
        Disk::open_with(HashMap::new())
    }

    fn reopen(self) -> Disk {
        Disk::open_with(self.segments)
    }

    fn append(&mut self, cmd: Command) {
        let text = encode(&cmd);
        let seg = self.segments.get_mut(&self.state.active_gen()).unwrap();
        let pos = seg.len() as u64;
        seg.extend_from_slice(text.as_bytes());
        let end = seg.len() as u64;
        if self.state.record(&cmd, pos, end) {
            self.compact();
        }
    }

    fn compact(&mut self) {
        let cg = self.state.begin_compaction().unwrap();
        self.segments.insert(cg, Vec::new());
        self.segments.insert(cg + 1, Vec::new());
        let mut out = Vec::new();
        for cp in self.state.compaction_plan() {
            let src = &self.segments[&cp.gen];
            out.extend_from_slice(&src[cp.pos as usize..(cp.pos + cp.len) as usize]);
        }
        self.segments.insert(cg, out);
        let stale = self.state.finish_compaction().unwrap();
        for g in stale {
            self.segments.remove(&g);
        }
        assert_eq!(self.state.reclaimable(), 0);
    }

    fn segment_bytes(&self) -> u64 {
        self.segments.values().map(|s| s.len() as u64).sum()
    }

    fn live_bytes(&self, keys: &[String]) -> u64 {
        keys.iter().filter_map(|k| self.state.lookup(k)).map(|cp| cp.len).sum()
    }

    fn set(&mut self, k: &str, v: &str) {
        self.append(Command::set(k.to_string(), v.to_string()));
    }

    fn remove(&mut self, k: &str) -> Result<(), KvsError> {
        if !self.state.contains(&k.to_string()) {
            return Err(KvsError::KeyNotFound);
        }
        self.append(Command::remove(k.to_string()));
        Ok(())
    }

    fn get(&self, k: &str) -> Result<Option<String>, KvsError> {
        match self.state.lookup(&k.to_string()) {
            None => Ok(None),
            Some(cp) => {
                let seg = &self.segments[&cp.gen];
                let bytes = &seg[cp.pos as usize..(cp.pos + cp.len) as usize];
                let v: serde_json::Value = serde_json::from_slice(bytes).unwrap();
                value_of(to_command(v).unwrap()).map(Some)
            }
        }
    }
}

fn value(r: Result<Option<String>, KvsError>) -> Option<String> {
    match r {
        Ok(v) => v,
        Err(e) => panic!("get failed: {}", e.message()),
    }
}

#[test]
fn overwrite_returns_latest() {
    let mut d = Disk::open();
    d.set("k", "v1");
    d.set("k", "v2");
    assert_eq!(value(d.get("k")), Some("v2".to_string()));
}

#[test]
fn remove_then_get_and_remove_again() {
    let mut d = Disk::open();
    d.set("a", "1");
    d.set("b", "2");
    assert!(d.remove("a").is_ok());
    assert_eq!(value(d.get("a")), None);
    assert_eq!(value(d.get("b")), Some("2".to_string()));
    assert!(matches!(d.remove("a"), Err(KvsError::KeyNotFound)));
}

#[test]
fn value_survives_reopen() {
    let mut d = Disk::open();
    d.set("x", "y");
    let d = d.reopen();
    assert_eq!(value(d.get("x")), Some("y".to_string()));
}

#[test]
fn compaction_keeps_final_value() {
    let mut d = Disk::open();
    let mut compacted = false;
    let mut last = String::new();
    for i in 0..200 {
        last = format!("{:05}{}", i, "v".repeat(10 * 1024));
        d.set("k", &last);
        if d.segments.len() <= 2 && i > 0 {
            compacted = true;
        }
        let live = d.live_bytes(&["k".to_string()]);
        assert!(d.segment_bytes() < live + COMPACTION_THRESHOLD);
        assert_eq!(d.segment_bytes(), live + d.state.reclaimable());
    }
    assert!(compacted);
    assert!(d.segments.len() <= 3);
    assert_eq!(value(d.get("k")), Some(last.clone()));
    let d = d.reopen();
    assert_eq!(value(d.get("k")), Some(last));
}

#[test]
fn many_keys_match_expected_map() {
    let mut d = Disk::open();
    let mut expected: BTreeMap<String, String> = BTreeMap::new();
    for i in 0..1000 {
        let k = format!("key{}", i);
        let v = format!("value{}", i);
        d.set(&k, &v);
        expected.insert(k, v);
    }
    for round in 0..5 {
        for i in 0..500 {
            let k = format!("key{}", i);
            let v = format!("value{}-{}", i, round);
            d.set(&k, &v);
            expected.insert(k, v);
        }
    }
    for i in 0..250 {
        let k = format!("key{}", i * 4);
        assert!(d.remove(&k).is_ok());
        expected.remove(&k);
    }
    for i in 0..1000 {
        let k = format!("key{}", i);
        assert_eq!(value(d.get(&k)), expected.get(&k).cloned());
    }
    let d = d.reopen();
    for i in 0..1000 {
        let k = format!("key{}", i);
        assert_eq!(value(d.get(&k)), expected.get(&k).cloned());
    }
}

#[test]
fn truncated_tail_is_dropped() {
    let mut d = Disk::open();
    d.set("a", "1");
    d.set("b", "2");
    let gen = d.state.active_gen();
    let seg = d.segments.get_mut(&gen).unwrap();
    let keep = seg.len() - 5;
    seg.truncate(keep);
    let d = d.reopen();
    assert_eq!(value(d.get("a")), Some("1".to_string()));
    assert_eq!(value(d.get("b")), None);
}

#[test]
fn overwrite_and_tombstone_are_reclaimable() {
    let mut st = LogState::open(&Vec::new()).unwrap();
    assert_eq!(st.active_gen(), 1);
    let put1 = Command::set("k".to_string(), "v1".to_string());
    assert!(!st.record(&put1, 0, 30));
    let put2 = Command::set("k".to_string(), "v2".to_string());
    assert!(!st.record(&put2, 30, 60));
    assert_eq!(st.lookup(&"k".to_string()), Some(CommandPos { gen: 1, pos: 30, len: 30 }));
    assert_eq!(st.reclaimable(), 30);
    let rm = Command::remove("k".to_string());
    assert!(!st.record(&rm, 60, 80));
    assert_eq!(st.lookup(&"k".to_string()), None);
    assert_eq!(st.reclaimable(), 30 + 30 + 20);
}

#[test]
fn reaching_threshold_asks_for_compaction() {
    let mut st = LogState::open(&vec![(3, Vec::new()), (7, Vec::new())]).unwrap();
    assert_eq!(st.active_gen(), 8);
    let put = Command::set("k".to_string(), "v".to_string());
    assert!(!st.record(&put, 0, COMPACTION_THRESHOLD));
    assert!(st.record(&put, COMPACTION_THRESHOLD, COMPACTION_THRESHOLD + 10));
    assert_eq!(st.begin_compaction(), Some(9));
    assert_eq!(st.active_gen(), 10);
    assert_eq!(st.compaction_plan(), vec![CommandPos { gen: 8, pos: COMPACTION_THRESHOLD, len: 10 }]);
    assert_eq!(st.finish_compaction(), Some(vec![3, 7, 8]));
    assert_eq!(st.reclaimable(), 0);
    assert_eq!(st.active_len(), 0);
    assert!(!st.is_compacting());
    assert_eq!(st.lookup(&"k".to_string()), Some(CommandPos { gen: 9, pos: 0, len: 10 }));
}

#[test]
fn load_replays_tombstones_as_removals() {
    let records = vec![
        (Command::set("a".to_string(), "1".to_string()), 10),
        (Command::set("b".to_string(), "2".to_string()), 20),
        (Command::set("a".to_string(), "3".to_string()), 32),
        (Command::remove("b".to_string()), 40),
    ];
    let st = LogState::open(&vec![(1, records)]).unwrap();
    assert_eq!(st.lookup(&"a".to_string()), Some(CommandPos { gen: 1, pos: 20, len: 12 }));
    assert_eq!(st.lookup(&"b".to_string()), None);
    assert_eq!(st.reclaimable(), 10 + 10 + 8);
    assert_eq!(st.active_gen(), 2);
}

#[test]
fn finish_without_begin_is_refused() {
    let mut st = LogState::open(&vec![(5, Vec::new())]).unwrap();
    assert_eq!(st.finish_compaction(), None);
}

#[test]
fn largest_generation_cannot_open() {
    assert!(LogState::open(&vec![(u64::MAX, Vec::new())]).is_none());
}

#[test]
fn random_operations_match_a_map_across_reopens() {
    let mut d = Disk::open();
    let mut expected: BTreeMap<String, String> = BTreeMap::new();
    let mut seed: u64 = 0x2545_f491_4f6c_dd1d;
    for step in 0..3000u64 {
        seed = seed.wrapping_mul(6364136223846793005).wrapping_add(1442695040888963407);
        let k = format!("k{}", (seed >> 33) % 40);
        if (seed >> 20) % 4 == 0 {
            let r = d.remove(&k);
            assert_eq!(r.is_ok(), expected.remove(&k).is_some());
        } else {
            let v = format!("v{}-{}", step, "x".repeat(((seed >> 40) % 3000) as usize));
            d.set(&k, &v);
            expected.insert(k, v);
        }
        if step % 700 == 699 {
            d = d.reopen();
        }
    }
    for i in 0..40 {
        let k = format!("k{}", i);
        assert_eq!(value(d.get(&k)), expected.get(&k).cloned());
    }
    let d = d.reopen();
    for i in 0..40 {
        let k = format!("k{}", i);
        assert_eq!(value(d.get(&k)), expected.get(&k).cloned());
    }
}
