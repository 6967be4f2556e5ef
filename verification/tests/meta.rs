use wax::meta::encode::value_sorted;
use wax::meta::{
    code_hash, data_hash, hash_domain, interface_hash, is_standard_key, Error, Limits, Manifest,
    MetadataContext, MetadataMode, Value, WasmMetadataContext, MAGIC, SECTION_NAME, VERSION,
};

fn hex(bytes: &[u8]) -> String {
    bytes.iter().map(|b| format!("{:02x}", b)).collect()
}

#[test]
fn canonical_round_trip_and_snapshot() {
    let mut manifest = Manifest::new();
    manifest.insert("memory/0/maximum_pages".into(), Value::U64(1)).unwrap();
    manifest.insert("table/0/indirect_targets".into(), Value::List(vec![Value::U64(3)])).unwrap();
    let bytes = manifest.encode().unwrap();
    assert_eq!(Manifest::decode(&bytes).unwrap(), manifest);
    assert_eq!(manifest.snapshot().unwrap(), manifest.snapshot().unwrap());
}

#[test]
fn rejects_noncanonical_key_order_and_leb() {
    let bytes = [b'W', b'S', b'M', b'M', 1, 0, 0x81, 0x00, 0];
    assert_eq!(Manifest::decode(&bytes), Err(Error::NonCanonicalLeb));
    let mut manifest = Manifest::new();
    assert_eq!(manifest.insert("Module.Kind".into(), Value::Bool(true)), Err(Error::InvalidKey));
}

#[test]
fn encodes_exact_bytes() {
    let mut m = Manifest::new();
    m.insert("memory/0/maximum_pages".into(), Value::U64(1)).unwrap();
    let bytes = m.encode().unwrap();
    assert_eq!(hex(&bytes), "57534d4d010001166d656d6f72792f302f6d6178696d756d5f7061676573000101");
    assert_eq!(&bytes[..4], &MAGIC);
    assert_eq!(bytes[4], VERSION);
    assert_eq!(SECTION_NAME, "portal.wasm.meta.v1");
}

#[test]
fn empty_manifest_encodes_header_and_zero_count() {
    let m = Manifest::new();
    assert_eq!(m.encode().unwrap(), vec![b'W', b'S', b'M', b'M', 1, 0, 0]);
    assert_eq!(Manifest::decode(&[b'W', b'S', b'M', b'M', 1, 0, 0]).unwrap(), m);
}

#[test]
fn insert_get_remove_behave_as_a_map() {
    let mut m = Manifest::new();
    assert_eq!(m.insert("b.key".into(), Value::U64(2)), Ok(None));
    assert_eq!(m.insert("a.key".into(), Value::I64(-5)), Ok(None));
    assert_eq!(m.insert("c".into(), Value::Bool(false)), Ok(None));
    assert_eq!(m.insert("b.key".into(), Value::U64(7)), Ok(Some(Value::U64(2))));
    assert_eq!(m.get("b.key"), Some(&Value::U64(7)));
    assert_eq!(m.get("zz"), None);
    let keys: Vec<&str> = m.entries().iter().map(|(k, _)| k.as_str()).collect();
    assert_eq!(keys, vec!["a.key", "b.key", "c"]);
    assert_eq!(m.remove("a.key"), Some(Value::I64(-5)));
    assert_eq!(m.remove("a.key"), None);
    assert_eq!(m.get("a.key"), None);
    assert_eq!(m.entries().len(), 2);
}

#[test]
fn rejects_invalid_keys() {
    let mut m = Manifest::new();
    assert_eq!(m.insert("".into(), Value::U64(0)), Err(Error::InvalidKey));
    assert_eq!(m.insert(".lead".into(), Value::U64(0)), Err(Error::InvalidKey));
    assert_eq!(m.insert("sp ace".into(), Value::U64(0)), Err(Error::InvalidKey));
    assert_eq!(m.insert("ok-key_1/x.y".into(), Value::U64(0)), Ok(None));
}

#[test]
fn nested_values_round_trip() {
    let mut m = Manifest::new();
    m.insert(
        "semantic/x".into(),
        Value::Dict(vec![
            ("a".to_string(), Value::I64(i64::MIN)),
            ("b".to_string(), Value::List(vec![Value::Bool(true), Value::U64(u64::MAX), Value::String(String::new())])),
        ]),
    )
    .unwrap();
    m.insert("abi.version".into(), Value::Bytes(vec![])).unwrap();
    let bytes = m.encode().unwrap();
    assert_eq!(Manifest::decode(&bytes).unwrap(), m);
}

#[test]
fn strings_bytes_and_digests_round_trip() {
    for v in [
        Value::String("x".to_string()),
        Value::String("héllo".to_string()),
        Value::Bytes(vec![1, 2, 3]),
        Value::Digest([7; 32]),
        Value::List(vec![Value::String("a".to_string()), Value::Bytes(vec![])]),
    ] {
        let mut m = Manifest::new();
        m.insert("abi.name".into(), v).unwrap();
        let bytes = m.encode().unwrap();
        assert_eq!(Manifest::decode(&bytes), Ok(m));
    }
    let mut m = Manifest::new();
    m.insert("abi.name".into(), Value::String("x".into())).unwrap();
    let mut expected = vec![0x57, 0x53, 0x4D, 0x4D, 1, 0, 1, 8];
    expected.extend_from_slice(b"abi.name");
    expected.extend_from_slice(&[3, 1, b'x']);
    assert_eq!(m.encode().unwrap(), expected);
}

#[test]
fn encoding_rejects_invalid_nested_key() {
    let mut m = Manifest::new();
    m.insert("semantic/x".into(), Value::Dict(vec![("Bad".to_string(), Value::U64(1))])).unwrap();
    assert_eq!(m.encode(), Err(Error::InvalidKey));
    assert_eq!(m.snapshot(), Err(Error::InvalidKey));
}

#[test]
fn decode_errors() {
    assert_eq!(Manifest::decode(b"WSM"), Err(Error::Magic));
    assert_eq!(Manifest::decode(b"XSMM\x01\x00\x00"), Err(Error::Magic));
    assert_eq!(Manifest::decode(b"WSMM\x02\x00\x00"), Err(Error::Version(2)));
    assert_eq!(Manifest::decode(b"WSMM\x01\x03\x00"), Err(Error::Flags(3)));
    assert_eq!(Manifest::decode(b"WSMM\x01\x00"), Err(Error::Eof));
    assert_eq!(Manifest::decode(b"WSMM\x01\x00\x00\x00"), Err(Error::TrailingBytes));
    // one entry, key "a", value tag 9
    assert_eq!(Manifest::decode(b"WSMM\x01\x00\x01\x01a\x09\x00"), Err(Error::UnknownTag(9)));
    // bool payload 2
    assert_eq!(Manifest::decode(b"WSMM\x01\x00\x01\x01a\x02\x01\x02"), Err(Error::InvalidBool));
    // key with an upper-case letter
    assert_eq!(Manifest::decode(b"WSMM\x01\x00\x01\x01A\x00\x01\x00"), Err(Error::InvalidKey));
    // key that is not UTF-8
    assert_eq!(Manifest::decode(b"WSMM\x01\x00\x01\x01\xff\x00\x01\x00"), Err(Error::Utf8));
    // keys out of order
    assert_eq!(
        Manifest::decode(b"WSMM\x01\x00\x02\x01b\x00\x01\x00\x01a\x00\x01\x00"),
        Err(Error::DuplicateKey)
    );
    // digest of the wrong length
    assert_eq!(Manifest::decode(b"WSMM\x01\x00\x01\x01a\x05\x01\x00"), Err(Error::InvalidValue));
    // eleven continuation bytes
    assert_eq!(Manifest::decode(b"WSMM\x01\x00\xff\xff\xff\xff\xff\xff\xff\xff\xff\x02"), Err(Error::Leb));
}

#[test]
fn decode_limits() {
    let mut m = Manifest::new();
    m.insert("abc".into(), Value::List(vec![Value::U64(1), Value::U64(2)])).unwrap();
    let bytes = m.encode().unwrap();
    let lim = Limits::default();
    assert_eq!(lim.max_payload, 1024 * 1024);
    assert_eq!(Manifest::decode_with_limits(&bytes, Limits { max_payload: 3, ..lim }), Err(Error::Limit("payload")));
    assert_eq!(Manifest::decode_with_limits(&bytes, Limits { max_entries: 0, ..lim }), Err(Error::Limit("entries")));
    assert_eq!(Manifest::decode_with_limits(&bytes, Limits { max_entries: 1, ..lim }), Err(Error::Limit("list")));
    assert_eq!(Manifest::decode_with_limits(&bytes, Limits { max_key_len: 2, ..lim }), Err(Error::Limit("key")));
    assert_eq!(Manifest::decode_with_limits(&bytes, Limits { max_value_len: 2, ..lim }), Err(Error::Limit("value")));
    assert_eq!(Manifest::decode_with_limits(&bytes, Limits { max_depth: 1, ..lim }), Err(Error::Limit("depth")));
    assert_eq!(Manifest::decode_with_limits(&bytes, Limits { max_depth: 2, ..lim }).unwrap(), m);
}

#[test]
fn digests_match_sha3_of_the_domain_message() {
    assert_eq!(hex(&code_hash(b"")), "af690ac981ca29d85dcf8c208c732290b70fd44dad2f314bb9afd9f815350dee");
    assert_eq!(hex(&data_hash(b"abc")), "58b98976711139edf1ac4b79ac5e2b99ad12159cbd56977342a7ac0d5f943644");
    assert_eq!(hex(&interface_hash(&[1, 2])), "2eae2fd0c54393e18d935ca4a181cce6ec9e8f321fbc3b3f24faffdb1e5c60c8");
    assert_eq!(hash_domain(b"portal.wsmm.code.v1", b""), code_hash(b""));
}

#[test]
fn semantic_hash_ignores_hash_entries() {
    let mut m = Manifest::new();
    m.insert("memory/0/maximum_pages".into(), Value::U64(1)).unwrap();
    let before = m.semantic_hash().unwrap();
    assert_eq!(hex(&before), "1ee0329839ddf1b7c423d81da4def21714331c0a533e38249f18e9deb60e410c");
    m.insert("hash.semantic".into(), Value::Digest(before)).unwrap();
    assert_eq!(m.semantic_hash().unwrap(), before);
    assert_eq!(m.snapshot().unwrap().0, before);
    assert_ne!(m.semantic_bytes().unwrap(), m.encode().unwrap());
}

#[test]
fn standard_keys() {
    assert!(is_standard_key("format.version"));
    assert!(is_standard_key("hash.semantic"));
    assert!(is_standard_key("memory/3/minimum_pages"));
    assert!(is_standard_key("semantic/anything"));
    assert!(!is_standard_key("memory"));
    assert!(!is_standard_key("hash.other"));
    assert!(!is_standard_key("custom.key"));
}

#[test]
fn metadata_context() {
    let ctx = MetadataContext::default();
    assert_eq!(ctx.metadata_mode(), MetadataMode::Ignore);
    assert!(ctx.metadata().is_none());
    assert!(ctx.metadata_snapshot().is_none());
    let mut m = Manifest::new();
    m.insert("abi.name".into(), Value::U64(0)).unwrap();
    let snap = m.snapshot().unwrap();
    let ctx = MetadataContext { manifest: Some(m), mode: MetadataMode::RespectUnstable };
    assert_eq!(ctx.metadata_snapshot(), Some(snap));
    assert_eq!(ctx.metadata_mode(), MetadataMode::RespectUnstable);
}

#[test]
fn accepted_payloads_are_canonical() {
    let bytes: &[u8] = b"WSMM\x01\x00\x02\x01a\x00\x01\x05\x01b\x06\x04\x01\x00\x01\x00";
    let m = Manifest::decode(bytes).unwrap();
    assert_eq!(m.get("a"), Some(&Value::U64(5)));
    assert_eq!(m.get("b"), Some(&Value::List(vec![Value::U64(0)])));
    assert_eq!(m.encode().unwrap(), bytes.to_vec());
    // the same entries with a padded LEB count inside the list
    let padded: &[u8] = b"WSMM\x01\x00\x02\x01a\x00\x01\x05\x01b\x06\x05\x81\x00\x00\x01\x00";
    assert_eq!(Manifest::decode(padded), Err(Error::NonCanonicalLeb));
    // a value payload longer than what it holds
    let long: &[u8] = b"WSMM\x01\x00\x01\x01a\x00\x02\x05\x00";
    assert_eq!(Manifest::decode(long), Err(Error::TrailingBytes));
}

#[test]
fn default_manifest_is_empty() {
    let m = Manifest::default();
    assert_eq!(m, Manifest::new());
    assert!(m.entries().is_empty());
    assert_eq!(m.encode().unwrap(), vec![0x57, 0x53, 0x4D, 0x4D, 1, 0, 0]);
}

#[test]
fn decoded_manifests_reencode_to_their_bytes() {
    let mut m = Manifest::new();
    m.insert(
        "semantic/x".into(),
        Value::Dict(vec![
            ("k".to_string(), Value::String("v".to_string())),
            ("z".to_string(), Value::Digest([1; 32])),
        ]),
    )
    .unwrap();
    m.insert("abi.name".into(), Value::Bytes(vec![9, 8])).unwrap();
    let bytes = m.encode().unwrap();
    let decoded = Manifest::decode(&bytes).unwrap();
    assert_eq!(decoded.encode().unwrap(), bytes);
}

#[test]
fn checked_dicts() {
    let ok = Value::dict(vec![("a".to_string(), Value::U64(1)), ("b".to_string(), Value::U64(2))]).unwrap();
    assert_eq!(ok, Value::Dict(vec![("a".to_string(), Value::U64(1)), ("b".to_string(), Value::U64(2))]));
    assert_eq!(
        Value::dict(vec![("b".to_string(), Value::U64(1)), ("a".to_string(), Value::U64(2))]),
        Err(Error::DuplicateKey)
    );
    assert_eq!(
        Value::dict(vec![("a".to_string(), Value::U64(1)), ("a".to_string(), Value::U64(2))]),
        Err(Error::DuplicateKey)
    );
    let unsorted_inside = Value::List(vec![Value::Dict(vec![
        ("z".to_string(), Value::Bool(true)),
        ("y".to_string(), Value::Bool(false)),
    ])]);
    assert!(!value_sorted(&unsorted_inside));
    assert_eq!(Value::dict(vec![("k".to_string(), unsorted_inside)]), Err(Error::DuplicateKey));
    assert!(value_sorted(&ok));
    let mut m = Manifest::new();
    m.insert("semantic/x".into(), ok).unwrap();
    let bytes = m.encode().unwrap();
    assert_eq!(Manifest::decode(&bytes), Ok(m));
}
