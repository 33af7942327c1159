//! Tests of the record formats and integrity modes, through the public
//! store: write a log, compare its bytes, read it back, and corrupt it.

use logmap::{
    map_from_text_file, BTreeMap, HashMap, Cfg, Format, Integrity, IntegrityError, I64StringCodec,
    LoadFileError, MapOperation, MapTrait, SpecSeq, StringI32Codec, Transform, VecMap,
};

/// The entries of a string-keyed map, ordered by key.
fn sorted_entries(map: &BTreeMap<String, i32, StringI32Codec>) -> (Vec<String>, Vec<i32>) {
    let mut entries = map.map().entries();
    entries.sort_by(|a, b| a.0.cmp(&b.0));
    let keys = entries.iter().map(|(k, _)| k.clone()).collect();
    let values = entries.iter().map(|(_, v)| *v).collect();
    (keys, values)
}

/// Hands every operation through unchanged.
struct KeepAll;

impl Transform<i64, String, i64, String> for KeepAll {
    fn spec_transform(
        &self,
        _op: MapOperation<i64, SpecSeq<char>>,
    ) -> MapOperation<i64, SpecSeq<char>> {
        unreachable!()
    }

    fn apply(&self, op: MapOperation<i64, String>) -> MapOperation<i64, String> {
        op
    }
}

fn text_cfg(integrity: Option<Integrity>) -> Cfg {
    Cfg { format: Format::Text, integrity }
}

fn bin_cfg(integrity: Option<Integrity>) -> Cfg {
    Cfg { format: Format::Bin, integrity }
}

#[test]
fn crc32_integrity() {
    let cfg = text_cfg(Some(Integrity::Crc32));
    let mut map: BTreeMap<i64, String> = BTreeMap::open_from_log(Vec::new(), cfg).unwrap();
    map.insert(0, "a".to_string()).unwrap();
    map.insert(3, "b".to_string()).unwrap();
    map.insert(5, "c".to_string()).unwrap();
    let file_content = String::from_utf8(map.take_pending()).unwrap();
    let expected_content =
        "ins [0,\"a\"] 1874290170\nins [3,\"b\"] 3949308173\nins [5,\"c\"] 1023287335\n";
    assert_eq!(file_content, expected_content);

    let cfg = text_cfg(Some(Integrity::Crc32));
    let mut map: HashMap<i64, String> =
        HashMap::open_from_log(expected_content.as_bytes().to_vec(), cfg).unwrap();
    map.remove(&3).unwrap();
    let mut full = expected_content.as_bytes().to_vec();
    full.extend_from_slice(&map.take_pending());
    let file_content = String::from_utf8(full).unwrap();
    let expected_content = "ins [0,\"a\"] 1874290170\nins [3,\"b\"] 3949308173\nins [5,\"c\"] 1023287335\nrem 3 596860484\n";
    assert_eq!(file_content, expected_content);

    // wrong crc 3949338173
    let bad_content =
        "ins [0,\"a\"] 1874290170\nins [3,\"b\"] 3949338173\nins [5,\"c\"] 1023287335\n";
    let cfg = text_cfg(Some(Integrity::Crc32));
    let res: Result<BTreeMap<i64, String>, LoadFileError> =
        BTreeMap::open_from_log(bad_content.as_bytes().to_vec(), cfg);
    let mut crc_is_correct = true;
    if let Err(LoadFileError::IntegrityError(IntegrityError::Crc32Error { line_num })) = res {
        if line_num == 2 {
            crc_is_correct = false;
        }
    }
    assert!(!crc_is_correct);
}

#[test]
fn sha1_chain_integrity() {
    let inital_hash = [
        0, 2, 4, 56, 32, 6, 6, 23, 34, 32, 1, 234, 115, 141, 153, 20, 34, 50, 01, 45,
    ];

    let cfg = text_cfg(Some(Integrity::Sha1Chain(inital_hash.clone())));
    let mut map: BTreeMap<i64, String> = BTreeMap::open_from_log(Vec::new(), cfg).unwrap();
    map.insert(0, "a".to_string()).unwrap();
    map.insert(3, "b".to_string()).unwrap();
    map.insert(5, "c".to_string()).unwrap();
    let file_content = String::from_utf8(map.take_pending()).unwrap();
    let expected = "ins [0,\"a\"] d89086c29dac4f39a47d05aed7f78a2b310cd82d\n\
                    ins [3,\"b\"] 7add20016461fb0e9d8ed53abca6912cb30cbd15\n\
                    ins [5,\"c\"] ed9f607342b112c6dc8b6136f0d405dd1ef946de\n";
    assert_eq!(file_content, expected);

    let cfg = text_cfg(Some(Integrity::Sha1Chain(inital_hash.clone())));
    let mut map: BTreeMap<i64, String> =
        BTreeMap::open_from_log(expected.as_bytes().to_vec(), cfg).unwrap();
    map.remove(&3).unwrap();
    let mut full = expected.as_bytes().to_vec();
    full.extend_from_slice(&map.take_pending());
    let file_content = String::from_utf8(full).unwrap();
    let expected = "ins [0,\"a\"] d89086c29dac4f39a47d05aed7f78a2b310cd82d\n\
                    ins [3,\"b\"] 7add20016461fb0e9d8ed53abca6912cb30cbd15\n\
                    ins [5,\"c\"] ed9f607342b112c6dc8b6136f0d405dd1ef946de\n\
                    rem 3 40bfdfd88c6a74e36b07c21abbd87decb1062e1e\n";
    assert_eq!(file_content, expected);

    // wrong 7add20016461fb3e9d8ed53abca6912cb30cbd15
    let bad_content = "ins [0,\"a\"] d89086c29dac4f39a47d05aed7f78a2b310cd82d\n\
                       ins [3,\"b\"] 7add20016461fb3e9d8ed53abca6912cb30cbd15\n\
                       ins [5,\"c\"] ed9f607342b112c6dc8b6136f0d405dd1ef946de\n";
    let cfg = text_cfg(Some(Integrity::Sha1Chain(inital_hash.clone())));
    let res: Result<HashMap<i64, String>, LoadFileError> =
        HashMap::open_from_log(bad_content.as_bytes().to_vec(), cfg);
    let mut crc_is_correct = true;
    if let Err(LoadFileError::IntegrityError(IntegrityError::Sha1ChainError { line_num })) = res {
        if line_num == 2 {
            crc_is_correct = false;
        }
    }
    assert!(!crc_is_correct);
}

#[test]
fn sha256_chain_integrity() {
    let inital_hash = [
        0, 2, 1, 234, 115, 141, 153, 20, 34, 56, 32, 115, 141, 153, 20, 34, 50, 01, 45, 6, 23,
        34, 32, 1, 234, 141, 153, 20, 34, 50, 01, 45,
    ];

    let cfg = text_cfg(Some(Integrity::Sha256Chain(inital_hash.clone())));
    let mut map: BTreeMap<i64, String> = BTreeMap::open_from_log(Vec::new(), cfg).unwrap();
    map.insert(0, "a".to_string()).unwrap();
    map.insert(3, "b".to_string()).unwrap();
    map.insert(5, "c".to_string()).unwrap();
    let file_content = String::from_utf8(map.take_pending()).unwrap();
    let expected = "ins [0,\"a\"] 54337bc91f5e7ff1fff6ef55c341c95112cfba4ae0fc6b5a0f38fc1271cc30ba\n\
                    ins [3,\"b\"] 792abea8afabf421de44af6aa458d6123d4245b401ecac931066ea3cd1c938f5\n\
                    ins [5,\"c\"] ce8434b92d512311b5c0cceaaf93305b74e7c740f0a342f94f2488a25b792b2a\n";
    assert_eq!(file_content, expected);

    let cfg = text_cfg(Some(Integrity::Sha256Chain(inital_hash.clone())));
    let mut map: BTreeMap<i64, String> =
        BTreeMap::open_from_log(expected.as_bytes().to_vec(), cfg).unwrap();
    map.remove(&3).unwrap();
    let mut full = expected.as_bytes().to_vec();
    full.extend_from_slice(&map.take_pending());
    let file_content = String::from_utf8(full).unwrap();
    let expected = "ins [0,\"a\"] 54337bc91f5e7ff1fff6ef55c341c95112cfba4ae0fc6b5a0f38fc1271cc30ba\n\
                    ins [3,\"b\"] 792abea8afabf421de44af6aa458d6123d4245b401ecac931066ea3cd1c938f5\n\
                    ins [5,\"c\"] ce8434b92d512311b5c0cceaaf93305b74e7c740f0a342f94f2488a25b792b2a\n\
                    rem 3 e60936f0133f6f27df7b5521c0b792d6467ed07e19a0919ad3ece9d8be84913d\n";
    assert_eq!(file_content, expected);

    // wrong 792abea8af3bf421de44af6aa458d6123d4245b401ecac931066ea3cd1c938f5
    let bad_content = "ins [0,\"a\"] 54337bc91f5e7ff1fff6ef55c341c95112cfba4ae0fc6b5a0f38fc1271cc30ba\n\
                       ins [3,\"b\"] 792abea8af3bf421de44af6aa458d6123d4245b401ecac931066ea3cd1c938f5\n\
                       ins [5,\"c\"] ce8434b92d512311b5c0cceaaf93305b74e7c740f0a342f94f2488a25b792b2a\n";
    let cfg = text_cfg(Some(Integrity::Sha256Chain(inital_hash.clone())));
    let res: Result<HashMap<i64, String>, LoadFileError> =
        HashMap::open_from_log(bad_content.as_bytes().to_vec(), cfg);
    let mut crc_is_correct = true;
    if let Err(LoadFileError::IntegrityError(IntegrityError::Sha256ChainError { line_num })) = res
    {
        if line_num == 2 {
            crc_is_correct = false;
        }
    }
    assert!(!crc_is_correct);
}

#[test]
fn replay_rebuilds_map() {
    // a sequence of inserts and removes replays to its final state
    let cfg = text_cfg(None);
    let mut map: BTreeMap<i64, String> = BTreeMap::open_from_log(Vec::new(), cfg).unwrap();
    map.insert(0, "a".to_string()).unwrap();
    map.insert(1, "b".to_string()).unwrap();
    map.insert(0, "c".to_string()).unwrap();
    map.remove(&1).unwrap();
    let content = map.take_pending();
    assert_eq!(
        String::from_utf8(content.clone()).unwrap(),
        "ins [0,\"a\"]\nins [1,\"b\"]\nins [0,\"c\"]\nrem 1\n"
    );

    let reopened: BTreeMap<i64, String> =
        BTreeMap::open_from_log(content, text_cfg(None)).unwrap();
    assert_eq!(reopened.get(&0), Some(&"c".to_string()));
    assert_eq!(reopened.get(&1), None);
}

#[test]
fn remove_of_absent_key_writes_nothing() {
    let cfg = text_cfg(None);
    let mut map: BTreeMap<i64, String> = BTreeMap::open_from_log(Vec::new(), cfg).unwrap();
    map.insert(7, "x".to_string()).unwrap();
    assert_eq!(map.remove(&8).unwrap(), None);
    assert_eq!(
        String::from_utf8(map.take_pending()).unwrap(),
        "ins [7,\"x\"]\n"
    );
}

#[test]
fn bin_sha1_round_trip() {
    let seed = [7u8; 20];
    let cfg = bin_cfg(Some(Integrity::Sha1Chain(seed)));
    let mut map: BTreeMap<i64, String> = BTreeMap::open_from_log(Vec::new(), cfg).unwrap();
    map.insert(0, "a".to_string()).unwrap();
    map.remove(&0).unwrap();
    let content = map.take_pending();

    let cfg = bin_cfg(Some(Integrity::Sha1Chain(seed)));
    let reopened: BTreeMap<i64, String> = BTreeMap::open_from_log(content.clone(), cfg).unwrap();
    assert_eq!(reopened.get(&0), None);

    // flipping one payload byte is detected at the first record
    let mut bad = content.clone();
    bad[3] ^= 0x40;
    let cfg = bin_cfg(Some(Integrity::Sha1Chain(seed)));
    let res: Result<BTreeMap<i64, String>, LoadFileError> = BTreeMap::open_from_log(bad, cfg);
    assert_eq!(
        res.err().unwrap(),
        LoadFileError::IntegrityError(IntegrityError::Sha1ChainError { line_num: 1 })
    );
}

#[test]
fn bin_crc32_round_trip() {
    let cfg = bin_cfg(Some(Integrity::Crc32));
    let mut map: BTreeMap<i64, String> = BTreeMap::open_from_log(Vec::new(), cfg).unwrap();
    map.insert(1, "one".to_string()).unwrap();
    map.insert(2, "two".to_string()).unwrap();
    let content = map.take_pending();

    let cfg = bin_cfg(Some(Integrity::Crc32));
    let reopened: BTreeMap<i64, String> = BTreeMap::open_from_log(content.clone(), cfg).unwrap();
    assert_eq!(reopened.get(&1), Some(&"one".to_string()));
    assert_eq!(reopened.get(&2), Some(&"two".to_string()));

    // corrupting the second block is reported at record 2, not earlier
    let mut bad = content.clone();
    let n = bad.len();
    bad[n - 1] ^= 0x01;
    let cfg = bin_cfg(Some(Integrity::Crc32));
    let res: Result<BTreeMap<i64, String>, LoadFileError> = BTreeMap::open_from_log(bad, cfg);
    assert_eq!(
        res.err().unwrap(),
        LoadFileError::IntegrityError(IntegrityError::Crc32Error { line_num: 2 })
    );
}

#[test]
fn text_framing_errors() {
    // last line without a newline
    let res: Result<BTreeMap<i64, String>, _> =
        BTreeMap::open_from_log(b"ins [0,\"a\"]".to_vec(), text_cfg(None));
    assert_eq!(
        res.err().unwrap(),
        LoadFileError::LastLineWithoutEndLine { line_num: 1 }
    );

    // line shorter than the least record line
    let res: Result<BTreeMap<i64, String>, _> =
        BTreeMap::open_from_log(b"ins [0,\"a\"]\nx\n".to_vec(), text_cfg(None));
    assert_eq!(
        res.err().unwrap(),
        LoadFileError::FileLineLengthLessThenMinimum { line_num: 2 }
    );

    // unknown operation name
    let res: Result<BTreeMap<i64, String>, _> =
        BTreeMap::open_from_log(b"put [0,\"a\"]\n".to_vec(), text_cfg(None));
    assert_eq!(
        res.err().unwrap(),
        LoadFileError::NoLineDefinition { line_num: 1 }
    );

    // undecodable payload
    let res: Result<BTreeMap<i64, String>, _> =
        BTreeMap::open_from_log(b"ins nonsense\n".to_vec(), text_cfg(None));
    assert_eq!(
        res.err().unwrap(),
        LoadFileError::DeserializeJsonError { line_num: 1 }
    );

    // missing integrity tag
    let res: Result<BTreeMap<i64, String>, _> =
        BTreeMap::open_from_log(b"insX\n".to_vec(), text_cfg(Some(Integrity::Crc32)));
    assert_eq!(
        res.err().unwrap(),
        LoadFileError::IntegrityError(IntegrityError::NoExpectedHash { line_num: 1 })
    );
}

#[test]
fn bin_framing_errors() {
    // reserved bits set in the class byte
    let res: Result<BTreeMap<i64, String>, _> =
        BTreeMap::open_from_log(vec![0xffu8], bin_cfg(None));
    assert_eq!(res.err().unwrap(), LoadFileError::WrongFirstByte { block_num: 1 });

    // a zero block length
    let res: Result<BTreeMap<i64, String>, _> =
        BTreeMap::open_from_log(vec![0u8, 0u8], bin_cfg(None));
    assert_eq!(
        res.err().unwrap(),
        LoadFileError::WrongMinBinBlockLen { block_num: 1 }
    );

    // a block cut short
    let res: Result<BTreeMap<i64, String>, _> =
        BTreeMap::open_from_log(vec![0u8, 5u8, 0u8], bin_cfg(None));
    assert_eq!(
        res.err().unwrap(),
        LoadFileError::UnexpectedEndOfFile { block_num: 1 }
    );

    // an unknown opcode
    let res: Result<BTreeMap<i64, String>, _> =
        BTreeMap::open_from_log(vec![0u8, 2u8, 9u8, 9u8], bin_cfg(None));
    assert_eq!(res.err().unwrap(), LoadFileError::NoLineDefinition { line_num: 1 });

    // an undecodable payload
    let res: Result<BTreeMap<i64, String>, _> =
        BTreeMap::open_from_log(vec![0u8, 2u8, 0u8, 9u8], bin_cfg(None));
    assert_eq!(
        res.err().unwrap(),
        LoadFileError::DeserializeBincodeError { block_num: 1 }
    );
}

#[test]
fn prefix_of_log_replays_cleanly() {
    // recovery from a log whose tail was lost at a record boundary
    let cfg = text_cfg(Some(Integrity::Crc32));
    let mut map: BTreeMap<i64, String> = BTreeMap::open_from_log(Vec::new(), cfg).unwrap();
    map.insert(0, "a".to_string()).unwrap();
    map.insert(3, "b".to_string()).unwrap();
    map.insert(5, "c".to_string()).unwrap();
    let content = map.take_pending();

    let first_two = b"ins [0,\"a\"] 1874290170\nins [3,\"b\"] 3949308173\n".to_vec();
    assert!(content.starts_with(&first_two));
    let cfg = text_cfg(Some(Integrity::Crc32));
    let reopened: BTreeMap<i64, String> = BTreeMap::open_from_log(first_two, cfg).unwrap();
    assert_eq!(reopened.get(&0), Some(&"a".to_string()));
    assert_eq!(reopened.get(&3), Some(&"b".to_string()));
    assert_eq!(reopened.get(&5), None);
}

#[test]
fn map_from_text_file_advances_the_seed() {
    // loading a chained log leaves the seed at the last record's hash,
    // so appending continues the same chain
    let seed = [0u8; 32];
    let cfg = Cfg { format: Format::Text, integrity: Some(Integrity::Sha256Chain(seed)) };
    let mut map: BTreeMap<i64, String> = BTreeMap::open_from_log(Vec::new(), cfg).unwrap();
    map.insert(1, "x".to_string()).unwrap();
    map.insert(2, "y".to_string()).unwrap();
    let content = map.take_pending();

    let mut integrity = Some(Integrity::Sha256Chain(seed));
    let loaded: VecMap<i64, String> =
        map_from_text_file::<i64, String, VecMap<i64, String>, I64StringCodec>(
            content.clone(),
            &mut integrity,
        )
        .unwrap();
    assert_eq!(loaded.get(&1), Some(&"x".to_string()));
    assert_eq!(loaded.get(&2), Some(&"y".to_string()));

    // the advanced seed differs from the initial one
    match integrity {
        Some(Integrity::Sha256Chain(h)) => assert_ne!(h, seed),
        _ => panic!("integrity mode changed"),
    }

    // a wrong seed is caught at the first record
    let mut wrong = Some(Integrity::Sha256Chain([1u8; 32]));
    let res = map_from_text_file::<i64, String, VecMap<i64, String>, I64StringCodec>(
        content,
        &mut wrong,
    );
    assert_eq!(
        res.err().unwrap(),
        LoadFileError::IntegrityError(IntegrityError::Sha256ChainError { line_num: 1 })
    );
}

#[test]
fn errors_describe_their_record() {
    let e = LoadFileError::NoLineDefinition { line_num: 3 };
    let text = e.describe();
    assert!(text.contains("3"));
    let e = LoadFileError::IntegrityError(IntegrityError::Crc32Error { line_num: 7 });
    assert!(e.describe().contains("crc32"));
    assert!(e.describe().contains("7"));
}

#[test]
fn remove_history_rewrites_the_log_as_inserts() {
    let cfg = text_cfg(Some(Integrity::Crc32));
    let mut map: BTreeMap<i64, String> = BTreeMap::open_from_log(Vec::new(), cfg).unwrap();
    map.insert(1, "a".to_string()).unwrap();
    map.insert(2, "b".to_string()).unwrap();
    map.remove(&1).unwrap();

    let new_log = map.remove_history(None).unwrap();
    assert_eq!(String::from_utf8(new_log.clone()).unwrap(), "ins [2,\"b\"]\n");
    assert_eq!(map.take_pending(), Vec::<u8>::new());

    // the map survives unchanged, and the new log replays to it
    assert_eq!(map.get(&1), None);
    assert_eq!(map.get(&2), Some(&"b".to_string()));
    let reopened: BTreeMap<i64, String> =
        BTreeMap::open_from_log(new_log, text_cfg(None)).unwrap();
    assert_eq!(reopened.get(&2), Some(&"b".to_string()));

    // appends after compaction continue on the new log
    map.insert(3, "c".to_string()).unwrap();
    assert_eq!(
        String::from_utf8(map.take_pending()).unwrap(),
        "ins [3,\"c\"]\n"
    );
}

#[test]
fn convert_text_log_to_binary() {
    let mut map: BTreeMap<i64, String> =
        BTreeMap::open_from_log(Vec::new(), text_cfg(None)).unwrap();
    map.insert(1, "a".to_string()).unwrap();
    map.insert(2, "b".to_string()).unwrap();
    map.remove(&1).unwrap();
    let src = map.take_pending();

    let out = logmap::convert::<i64, String, i64, String, I64StringCodec, I64StringCodec, _>(
        &src,
        text_cfg(None),
        bin_cfg(Some(Integrity::Crc32)),
        &KeepAll,
    )
    .unwrap();

    let reopened: BTreeMap<i64, String> =
        BTreeMap::open_from_log(out, bin_cfg(Some(Integrity::Crc32))).unwrap();
    assert_eq!(reopened.get(&1), None);
    assert_eq!(reopened.get(&2), Some(&"b".to_string()));
}

#[test]
fn common() {
    // new log
    let mut map: BTreeMap<String, i32, StringI32Codec> =
        BTreeMap::open_from_log(Vec::new(), text_cfg(None)).unwrap();
    map.insert("key 1".to_string(), 1).unwrap();
    map.insert("key 2".to_string(), 2).unwrap();
    map.insert("key 3".to_string(), 3).unwrap();
    map.insert("key 4".to_string(), 4).unwrap();
    map.insert("key 5".to_string(), 5).unwrap();
    assert_eq!(5, map.map().len());
    assert_eq!(Some(&3), map.get(&"key 3".to_string()));
    map.remove(&"key 1".to_string()).unwrap();
    map.remove(&"key 4".to_string()).unwrap();
    map.insert("key 6".to_string(), 6).unwrap();
    map.insert("key 1".to_string(), 100).unwrap();
    map.remove(&"key 2".to_string()).unwrap();
    map.insert("key 7".to_string(), 7).unwrap();
    let (keys, values) = sorted_entries(&map);
    assert_eq!(
        keys,
        vec![
            "key 1".to_string(),
            "key 3".to_string(),
            "key 5".to_string(),
            "key 6".to_string(),
            "key 7".to_string(),
        ]
    );
    assert_eq!(values, vec![100, 3, 5, 6, 7]);
    let mut log = map.take_pending();

    // after restart
    let mut map: BTreeMap<String, i32, StringI32Codec> =
        BTreeMap::open_from_log(log.clone(), text_cfg(None)).unwrap();
    assert_eq!(5, map.map().len());
    assert_eq!(Some(&100), map.get(&"key 1".to_string()));
    assert_eq!(None, map.get(&"key 4".to_string()));
    assert_eq!(None, map.get(&"key 2".to_string()));
    map.insert("key 3".to_string(), 33).unwrap();
    assert_eq!(Some(&33), map.get(&"key 3".to_string()));
    map.remove(&"key 1".to_string()).unwrap();
    log.extend_from_slice(&map.take_pending());

    // after restart
    let map: BTreeMap<String, i32, StringI32Codec> =
        BTreeMap::open_from_log(log, text_cfg(None)).unwrap();
    assert_eq!(4, map.map().len());
    assert_eq!(Some(&33), map.get(&"key 3".to_string()));
    assert_eq!(None, map.get(&"key 1".to_string()));
    let (keys, values) = sorted_entries(&map);
    assert_eq!(
        keys,
        vec![
            "key 3".to_string(),
            "key 5".to_string(),
            "key 6".to_string(),
            "key 7".to_string(),
        ]
    );
    assert_eq!(values, vec![33, 5, 6, 7]);
}

#[test]
fn tag_with_trailing_whitespace_is_accepted() {
    // the tag's suffix is trimmed before comparison, so a log whose
    // lines were edited to carriage-return endings still verifies
    let content = "ins [0,\"a\"] 1874290170\r\nins [3,\"b\"] 3949308173\r\n";
    let cfg = text_cfg(Some(Integrity::Crc32));
    let map: BTreeMap<i64, String> =
        BTreeMap::open_from_log(content.as_bytes().to_vec(), cfg).unwrap();
    assert_eq!(map.get(&0), Some(&"a".to_string()));
    assert_eq!(map.get(&3), Some(&"b".to_string()));
}
