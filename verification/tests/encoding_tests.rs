use nostr_pow::encoding::{
    encode_preimage, push_decimal, push_escaped, push_escaped_byte, push_hex, push_tag, push_tags,
    push_text,
};

fn strings(fields: &[&str]) -> Vec<String> {
    fields.iter().map(|field| field.to_string()).collect()
}

fn decimal_of(n: u128) -> Vec<u8> {
    let mut buf = Vec::new();
    push_decimal(&mut buf, n);
    buf
}

fn text_of(s: &str) -> Vec<u8> {
    let mut buf = Vec::new();
    push_text(&mut buf, s);
    buf
}

#[test]
fn decimal_has_no_sign_and_no_leading_zeros() {
    assert_eq!(decimal_of(0), b"0".to_vec());
    assert_eq!(decimal_of(7), b"7".to_vec());
    assert_eq!(decimal_of(10), b"10".to_vec());
    assert_eq!(decimal_of(99), b"99".to_vec());
    assert_eq!(decimal_of(100), b"100".to_vec());
    assert_eq!(decimal_of(1_700_000_000), b"1700000000".to_vec());
    assert_eq!(decimal_of(u64::MAX as u128), b"18446744073709551615".to_vec());
    assert_eq!(
        decimal_of(u128::MAX),
        b"340282366920938463463374607431768211455".to_vec()
    );
}

#[test]
fn decimal_agrees_with_std_formatting() {
    let mut n: u128 = 1;
    for _ in 0..128 {
        assert_eq!(decimal_of(n), n.to_string().into_bytes());
        assert_eq!(decimal_of(n - 1), (n - 1).to_string().into_bytes());
        n = n.wrapping_mul(2);
        if n == 0 {
            break;
        }
    }
}

#[test]
fn decimal_appends_to_what_is_there() {
    let mut buf = b"x=".to_vec();
    push_decimal(&mut buf, 42);
    assert_eq!(buf, b"x=42".to_vec());
}

#[test]
fn hex_is_lower_case_two_digits_per_byte() {
    let mut buf = Vec::new();
    push_hex(&mut buf, &[0x00, 0x0f, 0x10, 0xa9, 0xff]);
    assert_eq!(buf, b"000f10a9ff".to_vec());
    let mut empty = Vec::new();
    push_hex(&mut empty, &[]);
    assert!(empty.is_empty());
}

#[test]
fn escapes_are_the_shortest_ones() {
    let cases: [(u8, &[u8]); 12] = [
        (b'"', b"\\\""),
        (b'\\', b"\\\\"),
        (0x08, b"\\b"),
        (0x09, b"\\t"),
        (0x0a, b"\\n"),
        (0x0c, b"\\f"),
        (0x0d, b"\\r"),
        (0x00, b"\\u0000"),
        (0x0b, b"\\u000b"),
        (0x1f, b"\\u001f"),
        (0x7f, b"\x7f"),
        (b'/', b"/"),
    ];
    for (byte, expected) in cases {
        let mut buf = Vec::new();
        push_escaped_byte(&mut buf, byte);
        assert_eq!(buf, expected.to_vec(), "byte {:#04x}", byte);
    }
}

#[test]
fn every_byte_is_escaped_as_the_json_library_does() {
    for byte in 0..=0x7fu8 {
        let s = String::from_utf8(vec![byte]).unwrap();
        let expected = serde_json::to_string(&s).unwrap().into_bytes();
        assert_eq!(text_of(&s), expected, "byte {:#04x}", byte);
    }
    for s in ["é", "€", "😀", "日本語", "a\u{80}b", "\u{7ff}\u{800}\u{ffff}\u{10000}"] {
        let expected = serde_json::to_string(s).unwrap().into_bytes();
        assert_eq!(text_of(s), expected);
    }
}

#[test]
fn text_with_every_kind_of_byte() {
    let s = "a\"b\\c\nd\te\rf\u{8}g\u{c}h\u{1}i\u{1f}j\u{7f}ké€😀/";
    let expected: &[u8] =
        b"\"a\\\"b\\\\c\\nd\\te\\rf\\bg\\fh\\u0001i\\u001fj\x7fk\xc3\xa9\xe2\x82\xac\xf0\x9f\x98\x80/\"";
    assert_eq!(text_of(s), expected.to_vec());
    assert_eq!(text_of(""), b"\"\"".to_vec());
    let mut inner = Vec::new();
    push_escaped(&mut inner, s.as_bytes());
    assert_eq!(inner, expected[1..expected.len() - 1].to_vec());
}

#[test]
fn tag_is_an_array_of_strings() {
    let mut buf = Vec::new();
    push_tag(&mut buf, &strings(&["nonce", "324", "8"]));
    assert_eq!(buf, b"[\"nonce\",\"324\",\"8\"]".to_vec());
    let mut one = Vec::new();
    push_tag(&mut one, &strings(&["t"]));
    assert_eq!(one, b"[\"t\"]".to_vec());
    let mut none = Vec::new();
    push_tag(&mut none, &Vec::new());
    assert_eq!(none, b"[]".to_vec());
}

#[test]
fn tags_in_a_range_are_joined_by_commas() {
    let tags = vec![strings(&["a"]), strings(&["b", "c"]), strings(&["d"])];
    let mut all = Vec::new();
    push_tags(&mut all, &tags, 0, 3);
    assert_eq!(all, b"[\"a\"],[\"b\",\"c\"],[\"d\"]".to_vec());
    let mut middle = Vec::new();
    push_tags(&mut middle, &tags, 1, 2);
    assert_eq!(middle, b"[\"b\",\"c\"]".to_vec());
    let mut nothing = Vec::new();
    push_tags(&mut nothing, &tags, 2, 2);
    assert!(nothing.is_empty());
}

#[test]
fn preimage_of_a_small_event() {
    let tags = vec![strings(&["nonce", "324", "8"])];
    let out = encode_preimage(0, &[0u8; 32], 0, 1, &tags, "test");
    let expected: &[u8] = b"[0,\"0000000000000000000000000000000000000000000000000000000000000000\",0,1,[[\"nonce\",\"324\",\"8\"]],\"test\"]";
    assert_eq!(out, expected.to_vec());
}

#[test]
fn preimage_without_tags() {
    let out = encode_preimage(0, &[0xabu8; 32], 5, 0, &Vec::new(), "");
    let expected: &[u8] = b"[0,\"abababababababababababababababababababababababababababababababab\",5,0,[],\"\"]";
    assert_eq!(out, expected.to_vec());
}

#[test]
fn preimage_with_several_tags_and_escapes() {
    let mut key = [0u8; 32];
    for (i, byte) in key.iter_mut().enumerate() {
        *byte = i as u8;
    }
    let tags = vec![
        strings(&["e", "abc"]),
        strings(&["nonce", "77", "3"]),
        strings(&["p", "x\"y"]),
        Vec::new(),
    ];
    let content = "a\"b\\c\nd\te\rf\u{8}g\u{c}h\u{1}i\u{1f}j\u{7f}ké€😀/";
    let out = encode_preimage(0, &key, 1_700_000_000, 30023, &tags, content);
    let expected: &[u8] = b"[0,\"000102030405060708090a0b0c0d0e0f101112131415161718191a1b1c1d1e1f\",1700000000,30023,[[\"e\",\"abc\"],[\"nonce\",\"77\",\"3\"],[\"p\",\"x\\\"y\"],[]],\"a\\\"b\\\\c\\nd\\te\\rf\\bg\\fh\\u0001i\\u001fj\x7fk\xc3\xa9\xe2\x82\xac\xf0\x9f\x98\x80/\"]";
    assert_eq!(out, expected.to_vec());
}

#[test]
fn preimage_agrees_with_the_json_library() {
    let key = [0x5au8; 32];
    let tags = vec![strings(&["t", "a,b"]), strings(&["x", "]", "[\"", ""])];
    let content = "line one\nline \"two\"\\ \u{0} end";
    let out = encode_preimage(0, &key, 123_456, 65535, &tags, content);
    let value = serde_json::Value::Array(vec![
        serde_json::Value::from(0u64),
        serde_json::Value::from("5a".repeat(32)),
        serde_json::Value::from(123_456u64),
        serde_json::Value::from(65535u64),
        serde_json::Value::Array(
            tags.iter()
                .map(|tag| {
                    serde_json::Value::Array(
                        tag.iter().map(|f| serde_json::Value::from(f.as_str())).collect(),
                    )
                })
                .collect(),
        ),
        serde_json::Value::from(content),
    ]);
    assert_eq!(out, serde_json::to_string(&value).unwrap().into_bytes());
}

#[test]
fn preimage_takes_the_version_it_is_given() {
    let out = encode_preimage(12, &[0u8; 32], 0, 1, &Vec::new(), "v");
    assert!(out.starts_with(b"[12,\""));
}

#[test]
fn look_alike_events_have_different_preimages() {
    let key = [1u8; 32];
    let lists: Vec<Vec<Vec<String>>> = vec![
        vec![],
        vec![vec![]],
        vec![vec![], vec![]],
        vec![strings(&[""])],
        vec![strings(&["", ""])],
        vec![strings(&["a", "b"])],
        vec![strings(&["a,b"])],
        vec![strings(&["a\",\"b"])],
        vec![strings(&["a"]), strings(&["b"])],
        vec![strings(&["a\"],[\"b"])],
        vec![strings(&["ab"])],
        vec![strings(&["a", "b", ""])],
    ];
    let mut seen: Vec<Vec<u8>> = Vec::new();
    for tags in &lists {
        for content in ["", "\"", "\\", "],[", "\n", "\\n", "\u{0}", "\\u0000", "0"] {
            for (created_at, kind) in [(1u64, 23u16), (12, 3), (123, 0), (0, 123)] {
                let out = encode_preimage(0, &key, created_at, kind, tags, content);
                assert!(!seen.contains(&out), "{:?} {:?}", tags, content);
                seen.push(out);
            }
        }
    }
    assert_eq!(seen.len(), lists.len() * 9 * 4);
}
