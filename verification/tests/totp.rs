use bw_wez::error::{Error, Failure};
use bw_wez::totp::{base32_decode, code_of_tag, generate, generate_at, hotp, is_usable, parse};

const SECRET: &str = "GEZDGNBVGY3TQOJQGEZDGNBVGY3TQOJQ";

fn code(text: &str, now: u64) -> String {
    match generate_at(text, Ok(now)) {
        Ok(c) => c,
        Err(e) => panic!("unexpected error: {}", e.message()),
    }
}

fn fault(text: &str) -> Error {
    match generate_at(text, Ok(0)) {
        Ok(c) => panic!("unexpected code: {c}"),
        Err(e) => e,
    }
}

#[test]
fn hotp_reference_values() {
    let expected = [
        "755224", "287082", "359152", "969429", "338314", "254676", "287922", "162583", "399871",
        "520489",
    ];
    for (i, want) in expected.iter().enumerate() {
        assert_eq!(hotp(b"12345678901234567890", i as u64, 6), *want);
    }
}

#[test]
fn totp_reference_values() {
    let uri = format!("otpauth://totp/x?secret={SECRET}&digits=8");
    let expected = [
        (59u64, "94287082"),
        (1111111109, "07081804"),
        (1111111111, "14050471"),
        (1234567890, "89005924"),
        (2000000000, "69279037"),
        (20000000000, "65353130"),
    ];
    for (now, want) in expected {
        assert_eq!(code(&uri, now), want);
    }
}

#[test]
fn bare_secret_has_six_digits_and_thirty_seconds() {
    assert_eq!(code(SECRET, 59), "287082");
    assert_eq!(code(&format!("  {SECRET}\n"), 59), "287082");
    assert_eq!(code("GEZD GNBV GY3T QOJQ GEZD GNBV GY3T QOJQ", 59), "287082");
    assert_eq!(code("gezdgnbvgy3tqojqgezdgnbvgy3tqojq", 59), "287082");
}

#[test]
fn code_is_constant_within_a_period() {
    assert_eq!(code(SECRET, 30), code(SECRET, 59));
    assert_ne!(code(SECRET, 59), code(SECRET, 60));
}

#[test]
fn code_has_as_many_digits_as_asked_for() {
    for n in 1..10usize {
        let uri = format!("otpauth://totp/x?secret={SECRET}&digits={n}");
        for now in [0u64, 59, 1111111109] {
            let c = code(&uri, now);
            assert_eq!(c.len(), n);
            assert!(c.chars().all(|d| d.is_ascii_digit()));
        }
    }
    let none = format!("otpauth://totp/x?secret={SECRET}&digits=0");
    assert_eq!(code(&none, 59), "0");
}

#[test]
fn uri_parameters() {
    let p = match parse("otpauth://totp/a?secret=ABC&digits=7&period=60&algorithm=sha1&issuer=b") {
        Ok(p) => p,
        Err(e) => panic!("{}", e.message()),
    };
    assert_eq!(p.secret, "ABC");
    assert_eq!(p.digits, 7);
    assert_eq!(p.period, 60);
    assert_eq!(p.algorithm, "sha1");
}

#[test]
fn uri_parameters_that_are_no_numbers() {
    let p = match parse("otpauth://totp/a?secret=AB=C&digits=x&period=-1&secret&digits=") {
        Ok(p) => p,
        Err(e) => panic!("{}", e.message()),
    };
    assert_eq!(p.secret, "AB=C");
    assert_eq!(p.digits, 6);
    assert_eq!(p.period, 30);
    assert_eq!(p.algorithm, "SHA1");
    let p = match parse("otpauth://totp/a?secret=A&digits=+8&period=18446744073709551616") {
        Ok(p) => p,
        Err(e) => panic!("{}", e.message()),
    };
    assert_eq!(p.digits, 8);
    assert_eq!(p.period, 30);
}

#[test]
fn later_parameters_win() {
    let p = match parse("otpauth://totp/a?secret=A&secret=B&digits=6&digits=8") {
        Ok(p) => p,
        Err(e) => panic!("{}", e.message()),
    };
    assert_eq!(p.secret, "B");
    assert_eq!(p.digits, 8);
}

#[test]
fn query_ends_at_a_second_question_mark() {
    let p = match parse("otpauth://totp/a?secret=A?secret=B") {
        Ok(p) => p,
        Err(e) => panic!("{}", e.message()),
    };
    assert_eq!(p.secret, "A");
}

#[test]
fn uri_without_secret() {
    assert_eq!(fault("otpauth://totp/a").message(), "otpauth URI missing secret");
    assert_eq!(fault("otpauth://totp/a?digits=6").message(), "otpauth URI missing secret");
    assert_eq!(fault("otpauth://totp/a?secret=").message(), "otpauth URI missing secret");
}

#[test]
fn other_hashes_are_refused() {
    let e = fault("otpauth://totp/a?secret=A&algorithm=SHA256");
    assert_eq!(e.message(), "unsupported TOTP algorithm: SHA256 (v1 supports SHA1)");
    let uri = format!("otpauth://totp/a?secret={SECRET}&algorithm=sHa1");
    assert_eq!(code(&uri, 59), "287082");
}

#[test]
fn secret_has_to_be_base32() {
    assert_eq!(fault("A1").message(), "invalid base32 TOTP secret");
    assert!(matches!(fault("otpauth://totp/a?secret=8"), Failure::TotpSecret));
}

#[test]
fn base32_reference_values() {
    let cases: [(&str, &[u8]); 7] = [
        ("", b""),
        ("MY======", b"f"),
        ("MZXQ====", b"fo"),
        ("MZXW6===", b"foo"),
        ("MZXW6YQ=", b"foob"),
        ("MZXW6YTB", b"fooba"),
        ("MZXW6YTBOI======", b"foobar"),
    ];
    for (text, want) in cases {
        assert_eq!(base32_decode(text), Some(want.to_vec()));
        assert_eq!(base32_decode(&text.to_lowercase()), Some(want.to_vec()));
    }
    assert_eq!(base32_decode(SECRET), Some(b"12345678901234567890".to_vec()));
}

#[test]
fn base32_odd_characters() {
    assert_eq!(base32_decode("M\tZ XW6\u{3000}Y=TB"), Some(b"fooba".to_vec()));
    assert_eq!(base32_decode("MZXW6YT!"), None);
    assert_eq!(base32_decode("1"), None);
    assert_eq!(base32_decode("A"), Some(vec![]));
    assert_eq!(base32_decode("77"), Some(vec![0xff]));
    assert_eq!(base32_decode("\u{141}\u{141}"), None);
    assert_eq!(base32_decode("\u{141}\u{142}"), None);
    assert_eq!(base32_decode("\u{161}"), None);
}

#[test]
fn unusable_parameters() {
    assert!(is_usable(SECRET));
    assert!(is_usable("not base32 at all!"));
    assert!(is_usable("otpauth://totp/a"));
    assert!(!is_usable("otpauth://totp/a?secret=A&digits=10"));
    assert!(!is_usable("otpauth://totp/a?secret=A&period=0"));
    assert!(is_usable("otpauth://totp/a?secret=A&period=0&algorithm=MD5"));
}

#[test]
fn faulty_clock() {
    match generate_at(SECRET, Err(Failure::Clock("backwards".to_string()))) {
        Err(e) => assert_eq!(e.message(), "backwards"),
        Ok(_) => panic!("unexpected code"),
    }
    match generate_at("A1", Err(Failure::Clock("backwards".to_string()))) {
        Err(e) => assert!(matches!(e, Failure::TotpSecret)),
        Ok(_) => panic!("unexpected code"),
    }
}

#[test]
fn generate_uses_the_clock() {
    let uri = format!("otpauth://totp/a?secret={SECRET}&period=1000000000");
    let now = std::time::SystemTime::now()
        .duration_since(std::time::UNIX_EPOCH)
        .unwrap()
        .as_secs();
    match generate(&uri) {
        Ok(c) => assert_eq!(c, code(&uri, now)),
        Err(e) => panic!("{}", e.message()),
    }
}

#[test]
fn code_of_a_reference_tag() {
    let tag: [u8; 20] = [
        0xcc, 0x93, 0xcf, 0x18, 0x50, 0x8d, 0x94, 0x93, 0x4c, 0x64, 0xb6, 0x5d, 0x8b, 0xa7, 0x66,
        0x7f, 0xb7, 0xcd, 0xe4, 0xb0,
    ];
    assert_eq!(code_of_tag(&tag, 6), "755224");
    assert_eq!(code_of_tag(&tag, 9), "284755224");
    let tag: [u8; 20] = [
        0x1f, 0x86, 0x98, 0x69, 0x0e, 0x02, 0xca, 0x16, 0x61, 0x85, 0x50, 0xef, 0x7f, 0x19, 0xda,
        0x8e, 0x94, 0x5b, 0x55, 0x5a,
    ];
    assert_eq!(code_of_tag(&tag, 6), "872921");
    assert_eq!(code_of_tag(&[0u8; 20], 6), "000000");
}

#[test]
fn shorter_codes_are_tails() {
    for counter in 0..20u64 {
        let long = hotp(b"12345678901234567890", counter, 9);
        for n in 1..9u32 {
            assert!(long.ends_with(&hotp(b"12345678901234567890", counter, n)));
        }
    }
}

#[test]
fn bare_secret_gives_what_its_uri_gives() {
    for now in [0u64, 59, 1111111109] {
        assert_eq!(code(&format!("otpauth://totp/any?secret={SECRET}"), now), code(SECRET, now));
    }
}
