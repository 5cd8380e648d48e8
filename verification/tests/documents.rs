use base64::Engine;
use bw_wez::codec::decode;
use bw_wez::json::{parse, Json};
use bw_wez::transport::{encode_frame, frame_length, read_json, write_json, TransportKind, MAX_FRAME};

fn read(text: &str) -> Json {
    match parse(text.as_bytes()) {
        Ok(j) => j,
        Err(e) => panic!("unexpected error: {e}"),
    }
}

#[test]
fn base64_is_read_strictly() {
    assert_eq!(decode(""), Ok(vec![]));
    assert_eq!(decode("Zg=="), Ok(b"f".to_vec()));
    assert_eq!(decode("Zm8="), Ok(b"fo".to_vec()));
    assert_eq!(decode("Zm9v"), Ok(b"foo".to_vec()));
    assert_eq!(decode("+/+/"), Ok(vec![0xfb, 0xff, 0xbf]));
    for text in ["Zg", "Zg=", "Zh==", "Zm9=", "Z", "====", "Zm9v\n", "Zm 9v", "-_-_", "Zg==Zg=="] {
        assert!(decode(text).is_err(), "{text}");
    }
}

#[test]
fn base64_every_byte_round_trip() {
    let engine = base64::engine::general_purpose::STANDARD;
    for n in 0..200usize {
        let data: Vec<u8> = (0..n).map(|i| (i * 37 + n) as u8).collect();
        let text = engine.encode(&data);
        assert_eq!(text.len(), 4 * ((n + 2) / 3));
        assert!(!text.contains('|') && !text.contains('.'));
        assert_eq!(decode(&text), Ok(data));
    }
}

#[test]
fn base64_complaints_are_the_decoder_s() {
    assert_eq!(decode("!"), Err("Invalid symbol 33, offset 0.".to_string()));
}

#[test]
fn json_values() {
    let j = read(r#"{"a": "x", "b": 7, "c": true, "d": null, "e": [1, "two"], "f": {"g": "y"}, "h": 1.5}"#);
    assert_eq!(j.text("a"), Some("x"));
    assert_eq!(j.get("b").and_then(|v| v.as_i64()), Some(7));
    assert_eq!(j.get("c").and_then(|v| v.as_bool()), Some(true));
    assert!(matches!(j.get("d"), Some(Json::Null)));
    assert!(matches!(j.get("e"), Some(Json::Array(items)) if items.len() == 2));
    assert_eq!(j.get("f").and_then(|v| v.text("g")), Some("y"));
    assert_eq!(j.get("h").and_then(|v| v.as_i64()), None);
    assert!(j.get("z").is_none());
    assert_eq!(j.text("b"), None);
    assert!(read("[1]").get("a").is_none());
    assert_eq!(read("-3").as_i64(), Some(-3));
    assert_eq!(read("9223372036854775807").as_i64(), Some(i64::MAX));
    assert_eq!(read("9223372036854775808").as_i64(), None);
    assert_eq!(read("1e3").as_i64(), None);
}

#[test]
fn json_members_are_sorted_and_last_duplicate_wins() {
    match read(r#"{"b": 1, "a": 2, "b": 3}"#) {
        Json::Object(members) => {
            let keys: Vec<&str> = members.iter().map(|m| m.0.as_str()).collect();
            assert_eq!(keys, vec!["a", "b"]);
            assert_eq!(members[1].1.as_i64(), Some(3));
        }
        _ => panic!("no object"),
    }
}

#[test]
fn json_errors_have_a_message() {
    match parse(b"{") {
        Err(e) => assert_eq!(e, "EOF while parsing an object at line 1 column 1"),
        Ok(_) => panic!("unexpected success"),
    }
    match read_json(b"{") {
        Err(e) => assert_eq!(e.message(), "EOF while parsing an object at line 1 column 1"),
        Ok(_) => panic!("unexpected success"),
    }
}

#[test]
fn json_fields_are_set() {
    let j = Json::Null
        .with("m", Json::integer(1))
        .with("b", Json::string("x"))
        .with("z", Json::Bool(true))
        .with("m", Json::integer(2));
    assert_eq!(j.to_text(), r#"{"b":"x","m":2,"z":true}"#);
    assert_eq!(j.get("m").and_then(|v| v.as_i64()), Some(2));
    assert_eq!(j.text("b"), Some("x"));
}

#[test]
fn json_text_is_read_back() {
    let odd = "quote \" slash \\ tab \t nul \u{0} é ✓ \u{10ffff}";
    let j = Json::Null
        .with("text", Json::string(odd))
        .with("low", Json::integer(i64::MIN))
        .with("high", Json::integer(i64::MAX))
        .with("list", Json::Array(vec![Json::Null, Json::Bool(false), Json::string("")]));
    let again = read(&j.to_text());
    assert_eq!(again.text("text"), Some(odd));
    assert_eq!(again.get("low").and_then(|v| v.as_i64()), Some(i64::MIN));
    assert_eq!(again.get("high").and_then(|v| v.as_i64()), Some(i64::MAX));
    assert_eq!(again.to_text(), j.to_text());
}

#[test]
fn json_nested_to_the_limit_is_read_back() {
    let mut j = Json::Null;
    for _ in 0..127 {
        j = Json::Array(vec![j]);
    }
    assert_eq!(read(&j.to_text()).to_text(), j.to_text());
    assert!(parse(format!("[{}]", j.to_text()).as_bytes()).is_err());
}

#[test]
fn frame_bytes() {
    match encode_frame(b"{}") {
        Ok(bytes) => assert_eq!(bytes, vec![2, 0, 0, 0, b'{', b'}']),
        Err(_) => panic!("unexpected error"),
    }
    let body = vec![b' '; 0x01_02_03];
    match encode_frame(&body) {
        Ok(bytes) => {
            assert_eq!(&bytes[..4], &[3, 2, 1, 0]);
            assert_eq!(&bytes[4..], &body[..]);
        }
        Err(_) => panic!("unexpected error"),
    }
}

#[test]
fn frame_lengths() {
    let length = |h: [u8; 4]| match frame_length(TransportKind::DirectSocket, &h) {
        Ok(n) => Ok(n),
        Err(e) => Err(e.message()),
    };
    assert_eq!(length([1, 0, 0, 0]), Ok(1));
    assert_eq!(length([4, 3, 2, 1]), Ok(0x01020304));
    assert_eq!(length([0, 0, 0, 4]), Ok(MAX_FRAME));
    assert_eq!(length([0, 0, 0, 0]), Err("implausible frame length: 0".to_string()));
    assert_eq!(length([1, 0, 0, 4]), Err("implausible frame length: 67108865".to_string()));
    match frame_length(TransportKind::NativeMessaging, &[255, 255, 255, 255]) {
        Err(e) => assert_eq!(
            e.message(),
            "implausible native-messaging frame length: 4294967295"
        ),
        Ok(_) => panic!("unexpected success"),
    }
}

#[test]
fn frame_carries_a_document() {
    let j = Json::Null.with("command", Json::string("ping"));
    let bytes = match write_json(&j) {
        Ok(b) => b,
        Err(e) => panic!("{}", e.message()),
    };
    let header = [bytes[0], bytes[1], bytes[2], bytes[3]];
    match frame_length(TransportKind::DirectSocket, &header) {
        Ok(n) => assert_eq!(n, bytes.len() - 4),
        Err(e) => panic!("{}", e.message()),
    }
    match read_json(&bytes[4..]) {
        Ok(again) => assert_eq!(again.text("command"), Some("ping")),
        Err(e) => panic!("{}", e.message()),
    }
}

#[test]
fn json_integers_of_64_bits_are_read_back() {
    for text in ["9223372036854775808", "18446744073709551615", "-9223372036854775808", "0"] {
        assert_eq!(read(text).to_text(), text);
        let j = Json::Null.with("n", read(text));
        assert_eq!(read(&j.to_text()).to_text(), format!(r#"{{"n":{text}}}"#));
    }
}

#[test]
fn json_nested_past_the_limit_is_written() {
    let mut j = Json::integer(1);
    for _ in 0..200 {
        j = Json::Array(vec![j]);
    }
    assert_eq!(j.to_text(), format!("{}1{}", "[".repeat(200), "]".repeat(200)));
    match write_json(&j) {
        Ok(bytes) => {
            assert_eq!(bytes.len(), 4 + 401);
            assert!(read_json(&bytes[4..]).is_err());
        }
        Err(e) => panic!("{}", e.message()),
    }
}
