use testless::cache::Cache;

#[test]
fn corrupt_cache_returns_none() {
    assert!(Cache::open(&b"garbage".to_vec()).is_none());
}

#[test]
fn save_load_roundtrip() {
    let kept = vec![("a.ts".to_string(), vec![1u8; 32])];
    let payload = bincode::serialize(&kept).unwrap();
    let bytes = Cache::seal(&payload);
    let opened = Cache::open(&bytes).unwrap();
    let back: Vec<(String, Vec<u8>)> = bincode::deserialize(&opened).unwrap();
    assert_eq!(back, kept);
}

#[test]
fn wrong_magic_returns_none() {
    let mut bytes = b"TST9".to_vec();
    bytes.extend(bincode::serialize(&Vec::<String>::new()).unwrap());
    assert!(Cache::open(&bytes).is_none());
}

#[test]
fn a_sealed_payload_begins_with_the_tag() {
    assert_eq!(Cache::seal(&vec![7, 8]), b"TST2\x07\x08".to_vec());
    assert_eq!(Cache::open(&b"TST2".to_vec()), Some(Vec::new()));
    assert_eq!(Cache::open(&b"TST".to_vec()), None);
}

#[test]
fn the_cache_is_one_file_in_its_directory() {
    let cache = Cache {
        root: "/repo/.testless".to_string(),
    };
    assert_eq!(cache.file(), "/repo/.testless/graph.bin");
}
