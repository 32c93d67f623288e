use kvs::KvStore;
use kvs::KvsError;

fn fresh() -> KvStore {
    KvStore::open(Vec::new()).unwrap()
}

fn chars(s: &str) -> Vec<char> {
    s.chars().collect()
}

#[test]
fn set_then_get() {
    let mut st = fresh();
    st.set("a".to_string(), "1".to_string()).unwrap();
    assert_eq!(st.get("a".to_string()).unwrap(), Some("1".to_string()));
}

#[test]
fn overwrite_keeps_last_value() {
    let mut st = fresh();
    st.set("a".to_string(), "1".to_string()).unwrap();
    st.set("a".to_string(), "2".to_string()).unwrap();
    assert_eq!(st.get("a".to_string()).unwrap(), Some("2".to_string()));
}

#[test]
fn remove_then_remove_again() {
    let mut st = fresh();
    st.set("a".to_string(), "1".to_string()).unwrap();
    assert!(st.remove("a".to_string()).is_ok());
    assert_eq!(st.get("a".to_string()).unwrap(), None);
    assert_eq!(st.remove("a".to_string()), Err(KvsError::KeyNotFound));
}

#[test]
fn remove_absent_key_fails() {
    let mut st = fresh();
    assert_eq!(st.remove("missing".to_string()), Err(KvsError::KeyNotFound));
}

#[test]
fn get_absent_key_is_none() {
    let st = fresh();
    assert_eq!(st.get("nothing".to_string()).unwrap(), None);
}

#[test]
fn ten_thousand_overwrites_read_back() {
    let mut st = fresh();
    for i in 1..=10000u32 {
        st.set("k".to_string(), format!("{}", i)).unwrap();
    }
    assert_eq!(st.get("k".to_string()).unwrap(), Some("10000".to_string()));
}

#[test]
fn compaction_reclaims_space() {
    let mut st = fresh();
    let value: String = std::iter::repeat('x').take(1000).collect();
    // enough superseded bytes to cross the threshold several times over
    for _ in 0..3000 {
        st.set("k".to_string(), value.clone()).unwrap();
    }
    assert_eq!(st.get("k".to_string()).unwrap(), Some(value.clone()));
    // ~3 million chars were appended, but the files stay bounded by the
    // live record plus the compaction threshold, independent of the count
    assert!(
        st.stored <= 1024 * 1024 + 2200,
        "stored {} chars after compaction",
        st.stored
    );
    // superseded bytes never rest above the threshold
    assert!(st.uncompacted <= 1024 * 1024);
}

#[test]
fn compaction_bumps_generations_and_safe_point() {
    let mut st = fresh();
    let g0 = st.cur_gen;
    let value: String = std::iter::repeat('y').take(4096).collect();
    for _ in 0..300 {
        st.set("k".to_string(), value.clone()).unwrap();
    }
    assert!(st.cur_gen > g0);
    assert_eq!(st.safe_point + 1, st.cur_gen);
}

#[test]
fn hundred_keys_survive_reopen() {
    let mut st = fresh();
    for i in 0..100u32 {
        st.set(format!("key{}", i), format!("value{}", i)).unwrap();
    }
    let files: Vec<(u64, Vec<char>)> =
        st.files.iter().map(|f| (f.gen, f.data.clone())).collect();
    drop(st);
    let st2 = KvStore::open(files).unwrap();
    for i in 0..100u32 {
        assert_eq!(st2.get(format!("key{}", i)).unwrap(), Some(format!("value{}", i)));
    }
}

#[test]
fn removed_keys_stay_removed_after_reopen() {
    let mut st = fresh();
    st.set("a".to_string(), "1".to_string()).unwrap();
    st.set("b".to_string(), "2".to_string()).unwrap();
    st.remove("a".to_string()).unwrap();
    let files: Vec<(u64, Vec<char>)> =
        st.files.iter().map(|f| (f.gen, f.data.clone())).collect();
    let st2 = KvStore::open(files).unwrap();
    assert_eq!(st2.get("a".to_string()).unwrap(), None);
    assert_eq!(st2.get("b".to_string()).unwrap(), Some("2".to_string()));
}

#[test]
fn open_empty_directory() {
    let st = fresh();
    assert_eq!(st.cur_gen, 1);
    assert_eq!(st.get("any".to_string()).unwrap(), None);
}

#[test]
fn open_rejects_garbage_file() {
    let r = KvStore::open(vec![(1u64, chars("this is not a log"))]);
    assert_eq!(r.err(), Some(KvsError::Decode));
}

#[test]
fn open_replays_handwritten_log() {
    // two puts and a remove, written in the record grammar by hand
    let log = chars("S 1 1\na1S 1 1\nb2R 1\na");
    let st = KvStore::open(vec![(1u64, log)]).unwrap();
    assert_eq!(st.get("a".to_string()).unwrap(), None);
    assert_eq!(st.get("b".to_string()).unwrap(), Some("2".to_string()));
}

#[test]
fn open_uses_next_generation() {
    let log = chars("S 1 1\na1");
    let st = KvStore::open(vec![(7u64, log)]).unwrap();
    assert_eq!(st.cur_gen, 8);
    assert_eq!(st.get("a".to_string()).unwrap(), Some("1".to_string()));
}

#[test]
fn take_ops_records_appends() {
    let mut st = fresh();
    let ops = st.take_ops();
    assert_eq!(ops.len(), 1); // the fresh writer file
    st.set("a".to_string(), "1".to_string()).unwrap();
    let ops = st.take_ops();
    assert_eq!(ops.len(), 1);
    match &ops[0] {
        kvs::store::DiskOp::Append { gen, chars } => {
            assert_eq!(*gen, st.cur_gen);
            let text: String = chars.iter().collect();
            assert_eq!(text, "S 1 1\na1");
        }
        _ => panic!("expected an append"),
    }
}

#[test]
fn empty_key_and_value_round_trip() {
    let mut st = fresh();
    st.set("".to_string(), "".to_string()).unwrap();
    assert_eq!(st.get("".to_string()).unwrap(), Some("".to_string()));
}

#[test]
fn unicode_keys_and_values() {
    let mut st = fresh();
    st.set("clé".to_string(), "väärde ✓".to_string()).unwrap();
    assert_eq!(st.get("clé".to_string()).unwrap(), Some("väärde ✓".to_string()));
}

#[test]
fn compacted_files_replay_on_reopen() {
    let mut st = fresh();
    let value: String = std::iter::repeat('z').take(2000).collect();
    for i in 0..600u32 {
        st.set(format!("k{}", i % 7), value.clone()).unwrap();
    }
    st.set("last".to_string(), "word".to_string()).unwrap();
    assert!(st.safe_point > 0, "compaction should have run");
    let files: Vec<(u64, Vec<char>)> =
        st.files.iter().map(|f| (f.gen, f.data.clone())).collect();
    let st2 = KvStore::open(files).unwrap();
    for i in 0..7u32 {
        assert_eq!(st2.get(format!("k{}", i)).unwrap(), Some(value.clone()));
    }
    assert_eq!(st2.get("last".to_string()).unwrap(), Some("word".to_string()));
}

#[test]
fn later_generations_shadow_earlier_ones() {
    // the same key written in two generations: the higher generation wins
    let old_gen = chars("S 1 3\nkold");
    let new_gen = chars("S 1 3\nknew");
    let st = KvStore::open(vec![(1u64, old_gen), (2u64, new_gen)]).unwrap();
    assert_eq!(st.get("k".to_string()).unwrap(), Some("new".to_string()));
    assert_eq!(st.cur_gen, 3);
}
