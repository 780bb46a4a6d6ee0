use term_freqs::editdist::edit_distance;
use term_freqs::meta::{encode_meta, format_id, parse_id, parse_meta, random_id};

#[test]
fn identifier_rendering_round_trips() {
    let id: Vec<u8> = vec![
        0x12, 0x34, 0x56, 0x78, 0x9a, 0xbc, 0xde, 0xf0, 0x01, 0x02, 0x03, 0x04, 0x05, 0x06, 0x07,
        0x08,
    ];
    let rendered = format_id(&id);
    assert_eq!(
        String::from_utf8(rendered.clone()).unwrap(),
        "12345678-9abc-def0-0102-030405060708"
    );
    assert_eq!(parse_id(&rendered), Some(id));
}

#[test]
fn identifier_parsing_rejects_malformed_text() {
    assert_eq!(parse_id(&b"too short".to_vec()), None);
    assert_eq!(
        parse_id(&b"12345678_9abc_def0_0102_030405060708".to_vec()),
        None
    );
    assert_eq!(
        parse_id(&b"1234567g-9abc-def0-0102-030405060708".to_vec()),
        None
    );
    // uppercase hex is not canonical
    assert_eq!(
        parse_id(&b"12345678-9ABC-DEF0-0102-030405060708".to_vec()),
        None
    );
}

#[test]
fn catalog_round_trips() {
    let empty: Vec<Vec<u8>> = Vec::new();
    let bytes = encode_meta(&empty);
    assert_eq!(String::from_utf8(bytes.clone()).unwrap(), "{\"dicts\":[]}");
    assert_eq!(parse_meta(&bytes).unwrap(), empty);

    let ids = vec![random_id(), random_id(), random_id()];
    let bytes = encode_meta(&ids);
    assert_eq!(parse_meta(&bytes).unwrap(), ids);
    let text = String::from_utf8(bytes).unwrap();
    assert!(text.starts_with("{\"dicts\":[\""));
    assert!(text.ends_with("\"]}"));
}

#[test]
fn catalog_accepts_whitespace_between_tokens() {
    let id: Vec<u8> = (0u8..16).collect();
    let rendered = String::from_utf8(format_id(&id)).unwrap();
    let pretty = format!(
        "{{\n  \"dicts\": [\n    \"{}\"\n  ]\n}}\n",
        rendered
    );
    let parsed = parse_meta(&pretty.into_bytes()).unwrap();
    assert_eq!(parsed, vec![id]);

    let empty_pretty = b"{ \"dicts\" : [ ] }".to_vec();
    assert_eq!(parse_meta(&empty_pretty).unwrap(), Vec::<Vec<u8>>::new());
}

#[test]
fn catalog_parsing_rejects_other_shapes() {
    assert!(parse_meta(&b"".to_vec()).is_err());
    assert!(parse_meta(&b"{}".to_vec()).is_err());
    assert!(parse_meta(&b"{\"dicts\":[\"zz\"]}".to_vec()).is_err());
    assert!(parse_meta(&b"[\"dicts\"]".to_vec()).is_err());
}

#[test]
fn distances_are_exact() {
    let a: Vec<char> = "kitten".chars().collect();
    let b: Vec<char> = "sitting".chars().collect();
    assert_eq!(edit_distance(&a, &b), 3);
    assert_eq!(edit_distance(&b, &a), 3);

    let e: Vec<char> = Vec::new();
    assert_eq!(edit_distance(&e, &a), 6);
    assert_eq!(edit_distance(&a, &a), 0);

    let x: Vec<char> = "night".chars().collect();
    let y: Vec<char> = "knight".chars().collect();
    let z: Vec<char> = "knights".chars().collect();
    assert_eq!(edit_distance(&x, &y), 1);
    assert_eq!(edit_distance(&x, &z), 2);
}
