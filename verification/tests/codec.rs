use filestore::json::parse_config_entries;
use filestore::mapping::{load_or_init, parse_config, ConfigError, Mapping};

fn entries_of(bytes: &[u8]) -> Vec<(Vec<u8>, Vec<u8>)> {
    parse_config_entries(&bytes.to_vec()).expect("well-formed config")
}

fn rejects(bytes: &[u8]) {
    assert!(parse_config_entries(&bytes.to_vec()).is_err());
}

#[test]
fn empty_object_parses_to_empty_mapping() {
    let m = parse_config(&b"{}".to_vec()).expect("well-formed config");
    assert!(m.lookup(&b"anything".to_vec()).is_none());
}

#[test]
fn whitespace_around_and_inside_object_is_ignored() {
    let es = entries_of(b"  \t\r\n { \"a\" : \"b\" , \"c\":\"d\" }  \n");
    assert_eq!(es.len(), 2);
    assert_eq!(es[0], (b"a".to_vec(), b"b".to_vec()));
    assert_eq!(es[1], (b"c".to_vec(), b"d".to_vec()));
}

#[test]
fn single_pair_parses() {
    let es = entries_of(b"{\"a.mkv\": \"movies/a.mkv\"}");
    assert_eq!(es, vec![(b"a.mkv".to_vec(), b"movies/a.mkv".to_vec())]);
}

#[test]
fn duplicate_keys_later_pair_wins() {
    let m = parse_config(&b"{\"a\":\"1\",\"a\":\"2\"}".to_vec()).expect("well-formed config");
    assert_eq!(m.lookup(&b"a".to_vec()).unwrap(), &b"2".to_vec());
}

#[test]
fn short_escapes_decode() {
    let es = entries_of(br#"{"k\"q\\\/":"v\b\f\n\r\t"}"#);
    assert_eq!(es[0].0, b"k\"q\\/".to_vec());
    assert_eq!(es[0].1, b"v\x08\x0c\n\r\t".to_vec());
}

#[test]
fn unicode_escapes_decode_to_utf8() {
    let es = entries_of(r#"{"Aé€":"A\u0000"}"#.as_bytes());
    assert_eq!(es[0].0, "Aé€".as_bytes().to_vec());
    assert_eq!(es[0].1, vec![0x41, 0x00]);
}

#[test]
fn surrogate_pair_decodes_to_four_bytes() {
    let es = entries_of(r#"{"k":"\ud83d\ude00"}"#.as_bytes());
    assert_eq!(es[0].1, vec![0xf0, 0x9f, 0x98, 0x80]);
    assert_eq!(es[0].1, "😀".as_bytes().to_vec());
}

#[test]
fn lone_surrogates_are_rejected() {
    rejects(br#"{"k":"\ud83d"}"#);
    rejects(br#"{"k":"\ud83dx"}"#);
    rejects(br#"{"k":"\ude00"}"#);
}

#[test]
fn bad_escapes_and_bad_hex_are_rejected() {
    rejects(br#"{"k":"\x"}"#);
    rejects(br#"{"k":"\u12g4"}"#);
    rejects(br#"{"k":"\u123"}"#);
}

#[test]
fn raw_multibyte_utf8_is_kept_verbatim() {
    let mut bytes = b"{\"k\":\"".to_vec();
    bytes.extend_from_slice("éあ😀".as_bytes());
    bytes.extend_from_slice(b"\"}");
    let es = entries_of(&bytes);
    assert_eq!(es[0].1, "éあ😀".as_bytes().to_vec());
}

#[test]
fn invalid_utf8_in_strings_is_rejected() {
    rejects(b"{\"k\":\"\xc3\x28\"}"); // bad continuation byte
    rejects(b"{\"k\":\"\xc0\xaf\"}"); // overlong encoding
    rejects(b"{\"k\":\"\xed\xa0\x80\"}"); // encoded surrogate
    rejects(b"{\"k\":\"\xf5\x80\x80\x80\"}"); // past U+10FFFF
    rejects(b"{\"k\":\"\x80\"}"); // stray continuation byte
}

#[test]
fn raw_control_characters_are_rejected() {
    rejects(b"{\"k\":\"a\nb\"}");
    rejects(b"{\"k\":\"a\x01b\"}");
}

#[test]
fn non_string_values_are_rejected() {
    rejects(br#"{"a": 5}"#);
    rejects(br#"{"a": null}"#);
    rejects(br#"{"a": true}"#);
    rejects(br#"{"a": {"b": "c"}}"#);
    rejects(br#"{"a": ["b"]}"#);
}

#[test]
fn malformed_documents_are_rejected() {
    rejects(b"");
    rejects(b"   ");
    rejects(b"not json");
    rejects(b"[]");
    rejects(br#""just a string""#);
    rejects(b"{");
    rejects(br#"{"a":"b""#);
    rejects(br#"{"a":"b",}"#);
    rejects(br#"{"a" "b"}"#);
    rejects(br#"{"a":"b"} trailing"#);
    rejects(br#"{"a":"b"}{}"#);
    rejects(b"{,}");
}

#[test]
fn serializer_writes_compact_object_with_escapes() {
    let mut m = Mapping::new();
    m.insert(b"a\"b\\".to_vec(), b"x\ny".to_vec());
    let out = m.to_json_bytes();
    assert_eq!(out, br#"{"a\"b\\":"x\u000ay"}"#.to_vec());
}

#[test]
fn serializer_output_parses_back_to_same_pairs() {
    let mut m = Mapping::new();
    m.insert(b"s01e01.mkv".to_vec(), b"completed/s01e01.mkv".to_vec());
    m.insert("clé".as_bytes().to_vec(), b"v\t".to_vec());
    let out = m.to_json_bytes();
    let es = entries_of(&out);
    assert_eq!(
        es,
        vec![
            (b"s01e01.mkv".to_vec(), b"completed/s01e01.mkv".to_vec()),
            ("clé".as_bytes().to_vec(), b"v\t".to_vec()),
        ]
    );
}

#[test]
fn serializer_agrees_with_reference_json_parser() {
    let mut m = Mapping::new();
    m.insert(b"a\"b".to_vec(), b"x\\y\x1f".to_vec());
    m.insert("é".as_bytes().to_vec(), "😀".as_bytes().to_vec());
    let out = m.to_json_bytes();
    let parsed: std::collections::HashMap<String, String> =
        serde_json::from_slice(&out).expect("reference parser accepts our output");
    assert_eq!(parsed.len(), 2);
    assert_eq!(parsed["a\"b"], "x\\y\u{1f}");
    assert_eq!(parsed["é"], "😀");
}

#[test]
fn parser_agrees_with_reference_json_parser_on_escapes() {
    let doc = r#"{ "kéy" : "a\/b😀" , "z" : "" }"#.as_bytes();
    let ours = entries_of(doc);
    let reference: std::collections::HashMap<String, String> =
        serde_json::from_slice(doc).expect("well-formed config");
    assert_eq!(ours.len(), reference.len());
    for (k, v) in &ours {
        let ks = String::from_utf8(k.clone()).unwrap();
        let vs = String::from_utf8(v.clone()).unwrap();
        assert_eq!(reference[&ks], vs);
    }
}

#[test]
fn reserializing_a_loaded_mapping_keeps_its_pairs() {
    let orig = r#"{ "a" : "xAé" , "b" : "😀/c" }"#.as_bytes();
    let m = parse_config(&orig.to_vec()).expect("well-formed config");
    let re = m.to_json_bytes();
    assert_eq!(entries_of(&re), entries_of(orig));
    let m2 = parse_config(&re).expect("round-tripped config");
    assert_eq!(m2.lookup(&b"a".to_vec()), m.lookup(&b"a".to_vec()));
    assert_eq!(m2.lookup(&b"b".to_vec()), m.lookup(&b"b".to_vec()));
}

#[test]
fn load_or_init_without_file_writes_empty_object() {
    let r = load_or_init(None).expect("initialization succeeds");
    assert_eq!(r.to_write, Some(b"{}".to_vec()));
    assert!(r.mapping.lookup(&b"a".to_vec()).is_none());
    // A later startup that finds those bytes loads an empty mapping.
    let again = load_or_init(Some(b"{}".to_vec())).expect("well-formed config");
    assert!(again.to_write.is_none());
    assert!(again.mapping.lookup(&b"a".to_vec()).is_none());
}

#[test]
fn load_or_init_with_file_never_writes() {
    let r = load_or_init(Some(br#"{"a":"b"}"#.to_vec())).expect("well-formed config");
    assert!(r.to_write.is_none());
    assert_eq!(r.mapping.lookup(&b"a".to_vec()).unwrap(), &b"b".to_vec());
}

#[test]
fn load_or_init_rejects_malformed_file() {
    assert_eq!(load_or_init(Some(br#"{"a": 5}"#.to_vec())).err(), Some(ConfigError::Parse));
    assert_eq!(load_or_init(Some(b"oops".to_vec())).err(), Some(ConfigError::Parse));
}
