use kvs::codec::{Command, decode_command, encode_command};
use kvs::gens::{parse_gen_name, sorted_gen_list};
use kvs::KvsError;

fn chars(s: &str) -> Vec<char> {
    s.chars().collect()
}

#[test]
fn encode_put_record() {
    let mut out: Vec<char> = Vec::new();
    let c = Command::Put { key: "key1".to_string(), value: "value1".to_string() };
    encode_command(&c, &mut out);
    let text: String = out.iter().collect();
    assert_eq!(text, "S 4 6\nkey1value1");
}

#[test]
fn encode_remove_record() {
    let mut out: Vec<char> = Vec::new();
    let c = Command::Remove { key: "gone".to_string() };
    encode_command(&c, &mut out);
    let text: String = out.iter().collect();
    assert_eq!(text, "R 4\ngone");
}

#[test]
fn decode_reads_back_what_encode_wrote() {
    let mut out: Vec<char> = Vec::new();
    let c = Command::Put { key: "k".to_string(), value: "v22".to_string() };
    encode_command(&c, &mut out);
    let n = out.len();
    let (d, used) = decode_command(&out, 0).unwrap();
    assert_eq!(used, n);
    match d {
        Command::Put { key, value } => {
            assert_eq!(key, "k");
            assert_eq!(value, "v22");
        }
        _ => panic!("wrong variant"),
    }
}

#[test]
fn decode_concatenated_records() {
    let data = chars("S 1 1\na1R 1\na");
    let (c1, u1) = decode_command(&data, 0).unwrap();
    assert!(matches!(c1, Command::Put { .. }));
    let (c2, u2) = decode_command(&data, u1).unwrap();
    assert!(matches!(c2, Command::Remove { .. }));
    assert_eq!(u1 + u2, data.len());
}

#[test]
fn decode_rejects_bad_tag() {
    let data = chars("X 1 1\na1");
    assert_eq!(decode_command(&data, 0).err(), Some(KvsError::Decode));
}

#[test]
fn decode_rejects_leading_zero_length() {
    let data = chars("S 01 1\na1");
    assert_eq!(decode_command(&data, 0).err(), Some(KvsError::Decode));
}

#[test]
fn decode_rejects_truncated_record() {
    let data = chars("S 5 5\nabc");
    assert_eq!(decode_command(&data, 0).err(), Some(KvsError::Decode));
}

#[test]
fn gen_name_parses() {
    assert_eq!(parse_gen_name(&chars("42.log")), Some(42));
    assert_eq!(parse_gen_name(&chars("0.log")), Some(0));
    assert_eq!(parse_gen_name(&chars("007.log")), None);
    assert_eq!(parse_gen_name(&chars("a.log")), None);
    assert_eq!(parse_gen_name(&chars("12.txt")), None);
    assert_eq!(parse_gen_name(&chars("12.log.bak")), None);
    assert_eq!(parse_gen_name(&chars("")), None);
}

#[test]
fn gen_list_sorts_ascending() {
    let sorted = sorted_gen_list(vec![5, 1, 4, 1, 3]);
    assert_eq!(sorted, vec![1, 1, 3, 4, 5]);
    let empty = sorted_gen_list(Vec::new());
    assert!(empty.is_empty());
}

#[test]
fn gen_file_name_builds() {
    let name = kvs::gens::log_file_name(42);
    let text: String = name.iter().collect();
    assert_eq!(text, "42.log");
    assert_eq!(kvs::gens::parse_gen_name(&name), Some(42));
}

#[test]
fn reader_cache_evicts_stale_generations() {
    let mut cache = kvs::reader::ReaderCache::new();
    cache.note_open(1);
    cache.note_open(2);
    cache.note_open(5);
    assert!(cache.is_cached(1));
    assert!(!cache.is_cached(3));
    cache.close_stale(4);
    assert!(!cache.is_cached(1));
    assert!(!cache.is_cached(2));
    assert!(cache.is_cached(5));
    // idempotent: nothing more is below the safe point
    cache.close_stale(4);
    assert!(cache.is_cached(5));
}
