use std::collections::HashMap;

use opal::engine::{Config, DataFile, Engine, EngineError, Op};

fn open() -> Engine {
    Engine::new(Config::new())
}

fn reopen(e: &Engine) -> Engine {
    let files: Vec<DataFile> = e
        .files()
        .iter()
        .map(|f| DataFile { id: f.id, bytes: f.bytes.clone() })
        .collect();
    Engine::recover(e.config(), &files).unwrap()
}

fn total_bytes(e: &Engine) -> usize {
    e.files().iter().map(|f| f.bytes.len()).sum()
}

#[test]
fn basic_round_trip() {
    let mut e = open();
    e.set(b"foo", b"bar", 1).unwrap();
    assert_eq!(e.get(b"foo"), Some(b"bar".to_vec()));
    assert_eq!(e.del(b"foo", 2), Ok(true));
    assert_eq!(e.get(b"foo"), None);
    assert_eq!(e.del(b"foo", 3), Ok(false));
}

#[test]
fn set_then_get_arbitrary() {
    let mut e = open();
    for i in 0..50u32 {
        let k = vec![(i % 7) as u8; (i % 5 + 1) as usize];
        let v: Vec<u8> = (0..i).map(|j| (j * 31 + i) as u8).collect();
        e.set(&k, &v, i as u64).unwrap();
        assert_eq!(e.get(&k), Some(v));
    }
}

#[test]
fn set_del_get_absent() {
    let mut e = open();
    e.set(b"k", b"v", 1).unwrap();
    assert_eq!(e.del(b"k", 2), Ok(true));
    assert_eq!(e.get(b"k"), None);
    assert_eq!(e.len(), 0);
}

#[test]
fn overwrite_keeps_last() {
    let mut e = open();
    e.set(b"k", b"v1", 1).unwrap();
    e.set(b"k", b"v2", 2).unwrap();
    assert_eq!(e.get(b"k"), Some(b"v2".to_vec()));
    assert_eq!(e.len(), 1);
}

struct Lcg(u64);

impl Lcg {
    fn next(&mut self) -> u64 {
        self.0 = self.0.wrapping_mul(6364136223846793005).wrapping_add(1442695040888963407);
        self.0 >> 33
    }
}

fn random_ops(n: usize, seed: u64) -> Vec<Op> {
    let mut rng = Lcg(seed);
    (0..n)
        .map(|_| {
            let key = vec![b'a' + (rng.next() % 12) as u8];
            if rng.next() % 3 == 0 {
                Op::Delete { key }
            } else {
                let len = (rng.next() % 9) as usize;
                let value = (0..len).map(|_| rng.next() as u8).collect();
                Op::Write { key, value }
            }
        })
        .collect()
}

fn apply_reference(m: &mut HashMap<Vec<u8>, Vec<u8>>, op: &Op) {
    match op {
        Op::Write { key, value } => {
            m.insert(key.clone(), value.clone());
        }
        Op::Delete { key } => {
            m.remove(key);
        }
    }
}

fn same_contents(e: &Engine, m: &HashMap<Vec<u8>, Vec<u8>>) {
    assert_eq!(e.len(), m.len());
    for c in b'a'..b'a' + 12 {
        assert_eq!(e.get(&[c]), m.get(&vec![c]).cloned());
    }
}

#[test]
fn random_ops_match_reference_map() {
    let ops = random_ops(400, 7);
    let mut config = Config::new();
    config.max_file_size = 300;
    let mut e = Engine::new(config);
    let mut m = HashMap::new();
    e.run(&ops, 10).unwrap();
    for op in &ops {
        apply_reference(&mut m, op);
    }
    same_contents(&e, &m);
}

#[test]
fn every_prefix_recovers() {
    let ops = random_ops(120, 11);
    let mut config = Config::new();
    config.max_file_size = 200;
    let mut e = Engine::new(config);
    let mut m = HashMap::new();
    for (i, op) in ops.iter().enumerate() {
        e.run(&vec![clone_op(op)], i as u64).unwrap();
        apply_reference(&mut m, op);
        same_contents(&reopen(&e), &m);
    }
}

fn clone_op(op: &Op) -> Op {
    match op {
        Op::Write { key, value } => Op::Write { key: key.clone(), value: value.clone() },
        Op::Delete { key } => Op::Delete { key: key.clone() },
    }
}

#[test]
fn rewrite_then_crash() {
    let mut e = open();
    e.set(b"k", b"v1", 1).unwrap();
    e.set(b"k", b"v2", 2).unwrap();
    let r = reopen(&e);
    assert_eq!(r.get(b"k"), Some(b"v2".to_vec()));
}

#[test]
fn rotation() {
    let mut config = Config::new();
    config.max_file_size = 256;
    let mut e = Engine::new(config);
    for i in 0..100u32 {
        let k = format!("key-{:05}", i);
        let v = format!("value-{:013}", i);
        e.set(k.as_bytes(), v.as_bytes(), i as u64).unwrap();
    }
    assert!(e.files().len() >= 3);
    for f in e.files() {
        assert!(f.bytes.len() < 256 + 64);
    }
    for i in 0..100u32 {
        let k = format!("key-{:05}", i);
        let v = format!("value-{:013}", i);
        assert_eq!(e.get(k.as_bytes()), Some(v.into_bytes()));
    }
    let r = reopen(&e);
    assert_eq!(r.len(), 100);
}

#[test]
fn merge_reclaims_space() {
    let mut e = open();
    let mut last = Vec::new();
    for i in 0..10u8 {
        last = vec![i; 1 << 20];
        e.set(b"x", &last, i as u64).unwrap();
    }
    assert!(total_bytes(&e) >= 10 << 20);
    e.merge().unwrap();
    assert!(total_bytes(&e) <= (11 << 20) / 10);
    assert_eq!(e.get(b"x"), Some(last));
}

#[test]
fn merge_preserves_every_key() {
    let ops = random_ops(300, 3);
    let mut config = Config::new();
    config.max_file_size = 500;
    let mut e = Engine::new(config);
    e.run(&ops, 1).unwrap();
    let mut m = HashMap::new();
    for op in &ops {
        apply_reference(&mut m, op);
    }
    e.merge().unwrap();
    same_contents(&e, &m);
    assert_eq!(e.files().len(), 2);
    assert!(e.files()[1].bytes.is_empty());
    e.merge().unwrap();
    same_contents(&e, &m);
    same_contents(&reopen(&e), &m);
}

#[test]
fn tombstone_survives_merge() {
    let mut e = open();
    e.set(b"k", b"v", 1).unwrap();
    e.rotate().unwrap();
    assert_eq!(e.del(b"k", 2), Ok(true));
    e.rotate().unwrap();
    let before: Vec<u64> = e.files().iter().map(|f| f.id).collect();
    assert_eq!(before, vec![1, 2, 3]);
    e.merge().unwrap();
    assert_eq!(e.get(b"k"), None);
    let ids: Vec<u64> = e.files().iter().map(|f| f.id).collect();
    assert_eq!(ids, vec![4, 5]);
    assert_eq!(total_bytes(&e), 0);
    assert_eq!(reopen(&e).get(b"k"), None);
}

#[test]
fn readers_interleaved_with_writer_and_merge() {
    let mut e = open();
    for k in 0..100u32 {
        e.set(format!("k{}", k).as_bytes(), format!("v{}-0", k).as_bytes(), 0).unwrap();
    }
    let mut step = 0u32;
    for round in 1..20u32 {
        for k in 0..100u32 {
            let v = format!("v{}-{}", k, round);
            e.set(format!("k{}", k).as_bytes(), v.as_bytes(), round as u64).unwrap();
            for r in 0..8u32 {
                step += 1;
                let q = (step * 7 + r) % 100;
                let got = e.get(format!("k{}", q).as_bytes()).unwrap();
                let s = String::from_utf8(got).unwrap();
                let prefix = format!("v{}-", q);
                assert!(s.starts_with(&prefix));
                let seen: u32 = s[prefix.len()..].parse().unwrap();
                assert!(seen == round || seen + 1 == round);
            }
        }
        if round % 5 == 0 {
            e.merge().unwrap();
        }
    }
}

#[test]
fn empty_key_rejected_empty_value_allowed() {
    let mut e = open();
    assert_eq!(e.set(b"", b"v", 1), Err(EngineError::EmptyKey));
    assert_eq!(e.files()[0].bytes.len(), 0);
    e.set(b"k", b"", 2).unwrap();
    assert_eq!(e.get(b"k"), Some(Vec::new()));
    assert_eq!(reopen(&e).get(b"k"), Some(Vec::new()));
}

#[test]
fn records_stay_within_one_file() {
    let mut config = Config::new();
    config.max_file_size = 50;
    let mut e = Engine::new(config);
    for i in 0..20u8 {
        e.set(&[b'k', i], &vec![i; 40], i as u64).unwrap();
    }
    for f in e.files() {
        let mut pos = 0;
        while pos < f.bytes.len() {
            match opal::codec::decode_at(&f.bytes, pos) {
                opal::codec::Decode::Record { len, .. } => pos += len,
                _ => panic!("torn record"),
            }
        }
    }
}

#[test]
fn corrupt_record_truncates_file() {
    let mut e = open();
    e.set(b"a", b"1", 1).unwrap();
    e.set(b"b", b"2", 2).unwrap();
    e.set(b"c", b"3", 3).unwrap();
    let mut bytes = e.files()[0].bytes.clone();
    let first = 20 + 1 + 1;
    bytes[first + 20] ^= 0xFF;
    let files = vec![DataFile { id: 1, bytes }];
    let r = Engine::recover(Config::new(), &files).unwrap();
    assert_eq!(r.get(b"a"), Some(b"1".to_vec()));
    assert_eq!(r.get(b"b"), None);
    assert_eq!(r.get(b"c"), None);
    assert_eq!(r.files()[0].bytes.len(), first);
}

#[test]
fn torn_tail_truncates_file() {
    let mut e = open();
    e.set(b"a", b"1", 1).unwrap();
    e.set(b"b", b"22", 2).unwrap();
    let mut bytes = e.files()[0].bytes.clone();
    bytes.pop();
    let r = Engine::recover(Config::new(), &vec![DataFile { id: 1, bytes }]).unwrap();
    assert_eq!(r.get(b"a"), Some(b"1".to_vec()));
    assert_eq!(r.get(b"b"), None);
    assert_eq!(r.files()[0].bytes.len(), 22);
}

#[test]
fn recover_without_files_starts_empty() {
    let r = Engine::recover(Config::new(), &Vec::new()).unwrap();
    assert_eq!(r.len(), 0);
    assert_eq!(r.files().len(), 1);
    assert_eq!(r.files()[0].id, 1);
}

#[test]
fn recover_refuses_unordered_files() {
    let files = vec![DataFile { id: 2, bytes: Vec::new() }, DataFile { id: 1, bytes: Vec::new() }];
    assert_eq!(Engine::recover(Config::new(), &files).err(), Some(EngineError::UnorderedFiles));
}

#[test]
fn clock_exhausted() {
    let mut e = open();
    e.set(b"k", b"v", u64::MAX).unwrap();
    assert_eq!(e.set(b"k", b"w", 5), Err(EngineError::ClockExhausted));
    assert_eq!(e.get(b"k"), Some(b"v".to_vec()));
}

#[test]
fn timestamps_bump_when_clock_steps_back() {
    let mut e = open();
    e.set(b"a", b"1", 100).unwrap();
    e.set(b"b", b"2", 50).unwrap();
    let bytes = &e.files()[0].bytes;
    let second = 22;
    let ts = u64::from_be_bytes(bytes[second + 4..second + 12].try_into().unwrap());
    assert_eq!(ts, 101);
}

#[test]
fn file_ids_exhausted() {
    let files = vec![DataFile { id: u64::MAX, bytes: Vec::new() }];
    let mut e = Engine::recover(Config::new(), &files).unwrap();
    assert_eq!(e.rotate(), Err(EngineError::FileIdExhausted));
    assert_eq!(e.merge(), Err(EngineError::FileIdExhausted));
    let mut config = Config::new();
    config.max_file_size = 1;
    let mut e = Engine::recover(config, &files).unwrap();
    assert_eq!(e.set(b"k", b"v", 1), Err(EngineError::FileIdExhausted));
}

#[test]
fn merge_due_policy() {
    let mut config = Config::new();
    config.merge_trigger_bytes = 1000;
    config.min_live_percent = 50;
    let mut e = Engine::new(config);
    assert!(!e.merge_due());
    e.set(b"k", b"value", 1).unwrap();
    e.rotate().unwrap();
    // one sealed record, all of it live
    assert!(!e.merge_due());
    e.set(b"k", b"other", 2).unwrap();
    e.rotate().unwrap();
    // two sealed records of 26 bytes, one live: exactly half
    assert!(!e.merge_due());
    e.set(b"k", b"third", 3).unwrap();
    e.rotate().unwrap();
    // a third of the sealed bytes live
    assert!(e.merge_due());
    e.merge().unwrap();
    assert!(!e.merge_due());
    for i in 0..40u8 {
        e.set(&[b'a', i], &[i; 20], 10 + i as u64).unwrap();
    }
    e.rotate().unwrap();
    // over the byte trigger although every record is live
    assert!(e.merge_due());
}

#[test]
fn run_reports_first_refused_operation() {
    let mut e = open();
    let ops = vec![
        Op::Write { key: b"a".to_vec(), value: b"1".to_vec() },
        Op::Write { key: Vec::new(), value: b"2".to_vec() },
        Op::Write { key: b"c".to_vec(), value: b"3".to_vec() },
    ];
    assert_eq!(e.run(&ops, 1), Err((1, EngineError::EmptyKey)));
    assert_eq!(e.get(b"a"), Some(b"1".to_vec()));
    assert_eq!(e.get(b"c"), None);
}
