use base64::engine::general_purpose::STANDARD as B64;
use base64::Engine;
use bw_wez::crypto::{EncParts, KeyPair, PrivateKey, SymmetricKey};
use bw_wez::error::{Error, Failure};
use rsa::pkcs8::DecodePublicKey;
use rsa::traits::PublicKeyParts;
use rsa::{Oaep, RsaPublicKey};
use sha1::Sha1;

const PRIVATE_KEY: &str = "MIICdwIBADANBgkqhkiG9w0BAQEFAASCAmEwggJdAgEAAoGBANEqnJBjyoYKNsw/Ejn0NFH/GbsGe7d0ePL7/1Iq06vYa24eDjKWuIfTIdcMEEe8mL9Z16C0XRk8YWmllcC8xtyIZMd75sbHHuYHONx21OY7Ni3w1ErWQpFiSHWAwygah3tZQ2OYwA0VB/mLbUEqUMNhboNztjbJpKiye24RvGNNAgMBAAECgYAC0KH+x3kISMboBMlIAmNZ3ycHf1TW6ThffMi44F6s52K6vqjOQX0GRu8jp8PoUz9zA9CFFyhRmKBu/Y2AZIoAk4wgYDvHVx42mPluKwBdQGfrhjammbvVKgwieoD771hsvvsvTN4SH1iLvN7bfPvbMmqqbxIYPoAvO4vsIPOIgQJBAP2i5yhuBA3UwCvGB6vABPwlkjFrm+RShD1LoYr9SnoyNDVBYWtVZIWoiHX8leSacvSO1aJwuOyazf5Sbhr6QfECQQDTHZ4LcesZM5dKUNSq/+iRvHTQxehNh+GkUgI28ds1arrVFIC2BDQMkQzTq8aaEyQ6aQKllKNsTBvMNLQ+1psdAkEA7eh8zTaMxPB3pVemYFrIEj+npoWaf4tLETe8+mNmFcK7p+yA1a4OkTSpc4qOixS4mV7VUv5K51y5tkFZmCJ/8QJBAKpJE3fr1VQolvmspT2g2Xjj592WJMCUv96I/5xODSDTDAxfU0p9rXYNcakyvyj8E5bBqQ7iC8eIxEs8n76n38kCQFUc22VRBPEZszRHb1IRE+ykgby7YSq7C4IKMwkXGdUduORPD7/j6tJtaihLroDTAsJCDjY0beZrC5ufb2E9ypA=";

const PUBLIC_KEY: &str = "MIGfMA0GCSqGSIb3DQEBAQUAA4GNADCBiQKBgQDRKpyQY8qGCjbMPxI59DRR/xm7Bnu3dHjy+/9SKtOr2GtuHg4ylriH0yHXDBBHvJi/WdegtF0ZPGFppZXAvMbciGTHe+bGxx7mBzjcdtTmOzYt8NRK1kKRYkh1gMMoGod7WUNjmMANFQf5i21BKlDDYW6Dc7Y2yaSosntuEbxjTQIDAQAB";

/// The bytes 0 to 63, wrapped for the key above.
const WRAPPED_64: &str = "NrOrUoREMHlIfW9B//K8pMHvjz8UATbfFoCrDl31CDxHu/NeW3bGvZWwOvZ5eFfVXLIMuFXrL6v4DEQ3NRQ9GY+HoBcNqymm401jNLYNGmXBdBU/+1jRN8JVUsQjg9vRKiDcuTJf5A7kM79zZGR9WZT+7P0n5mr2IFbjH7y9vKk=";

/// The bytes 0 to 62, wrapped for the key above.
const WRAPPED_63: &str = "a9lR+qYK6CstHNWJ+OhC9YWEJY1YexzUmlF0nN+K6dz5qND/xXcd9Av2x58jI4a9Xb24rwzNJUYLLL9sO8yLWD96EQ908fLw4hDy9Mo13te8N20b2n5R4JQJi0xx5xEqETCWu2DsP3BLK2Vbm/hFOTOv//kevMoe6KyQpg7c/d0=";

const HELLO: &str = "2.BwcHBwcHBwcHBwcHBwcHBw==|5QcNdK+ZSVSSaF7YHkWTxw==|nu4/qYgI0JtqlD/cSXHLxyipazebNMIL6J/+iQqMQN0=";

fn counting(n: u8) -> Vec<u8> {
    (0..n).collect()
}

fn key() -> SymmetricKey {
    ok(SymmetricKey::from_bytes(&counting(64)))
}

fn ok<T>(r: Result<T, Error>) -> T {
    match r {
        Ok(v) => v,
        Err(e) => panic!("unexpected error: {}", e.message()),
    }
}

fn err<T>(r: Result<T, Error>) -> Error {
    match r {
        Ok(_) => panic!("unexpected success"),
        Err(e) => e,
    }
}

#[test]
fn key_bytes_round_trip() {
    let raw = counting(64);
    assert_eq!(ok(SymmetricKey::from_bytes(&raw)).to_bytes(), raw);
    assert_eq!(key().clone().to_bytes(), raw);
}

#[test]
fn key_of_wrong_length() {
    for n in [0u8, 32, 63, 65] {
        let e = err(SymmetricKey::from_bytes(&counting(n)));
        assert!(matches!(e, Failure::KeyLength(m) if m == n as usize));
    }
    let e = err(SymmetricKey::from_bytes(&counting(32)));
    assert_eq!(e.message(), "expected a 64-byte symmetric key, got 32 bytes");
}

#[test]
fn key_from_base64() {
    let raw = counting(64);
    let text = B64.encode(&raw);
    assert_eq!(ok(SymmetricKey::from_b64(&text)).to_bytes(), raw);
    assert_eq!(ok(SymmetricKey::from_b64(&format!(" {text}\n"))).to_bytes(), raw);
    assert!(matches!(err(SymmetricKey::from_b64("!")), Failure::Base64(_)));
    assert!(matches!(err(SymmetricKey::from_b64("AAAA")), Failure::KeyLength(3)));
}

#[test]
fn encrypt_known_message() {
    let parts = key().encrypt_parts_with_iv(b"hello", &[7u8; 16]);
    assert_eq!(parts.iv, "BwcHBwcHBwcHBwcHBwcHBw==");
    assert_eq!(parts.data, "5QcNdK+ZSVSSaF7YHkWTxw==");
    assert_eq!(parts.mac, "nu4/qYgI0JtqlD/cSXHLxyipazebNMIL6J/+iQqMQN0=");
    assert_eq!(parts.to_enc_string(), HELLO);
}

#[test]
fn decrypt_known_message() {
    assert_eq!(ok(key().decrypt(HELLO)), b"hello".to_vec());
    assert_eq!(ok(key().decrypt_str(HELLO)), "hello");
    assert_eq!(ok(key().decrypt(&format!("{HELLO}|more"))), b"hello".to_vec());
}

#[test]
fn encryption_is_undone() {
    for n in [0usize, 1, 15, 16, 17, 1000] {
        let plain: Vec<u8> = (0..n).map(|i| (i * 7) as u8).collect();
        let parts = key().encrypt_parts(&plain);
        assert_eq!(ok(key().decrypt(&parts.to_enc_string())), plain);
    }
}

#[test]
fn encryption_is_randomised() {
    let a = key().encrypt_parts(b"hello");
    let b = key().encrypt_parts(b"hello");
    assert_ne!(a.iv, b.iv);
    assert_ne!(a.data, b.data);
}

#[test]
fn decrypt_other_type() {
    let e = err(key().decrypt("4.abcdefghijkl"));
    assert_eq!(e.message(), "unsupported EncString type (expected '2.'): 4.abcdef…");
    let e = err(key().decrypt("0."));
    assert_eq!(e.message(), "unsupported EncString type (expected '2.'): 0.…");
}

#[test]
fn decrypt_missing_parts() {
    assert!(matches!(err(key().decrypt("2.AAAA")), Failure::MissingCiphertext));
    assert!(matches!(err(key().decrypt("2.AAAA|AAAA")), Failure::MissingMac));
    assert!(matches!(err(key().decrypt("2.A|AAAA|AAAA")), Failure::Base64(_)));
    assert!(matches!(err(key().decrypt("2.AAAA|A|AAAA")), Failure::Base64(_)));
    assert!(matches!(err(key().decrypt("2.AAAA|AAAA|A")), Failure::Base64(_)));
    assert_eq!(err(key().decrypt("2.AAAA")).message(), "missing ciphertext");
    assert_eq!(err(key().decrypt("2.AAAA|AAAA")).message(), "missing mac");
}

#[test]
fn wrong_mac_is_refused() {
    let parts = key().encrypt_parts(b"hello");
    let mut tag = B64.decode(&parts.mac).unwrap();
    for i in 0..tag.len() {
        tag[i] ^= 1;
        let forged = EncParts { iv: parts.iv.clone(), data: parts.data.clone(), mac: B64.encode(&tag) };
        assert!(matches!(err(key().decrypt(&forged.to_enc_string())), Failure::MacMismatch));
        tag[i] ^= 1;
    }
    tag.pop();
    let forged = EncParts { iv: parts.iv.clone(), data: parts.data.clone(), mac: B64.encode(&tag) };
    let e = err(key().decrypt(&forged.to_enc_string()));
    assert_eq!(e.message(), "EncString MAC verification failed");
}

#[test]
fn changed_ciphertext_is_refused() {
    let parts = key().encrypt_parts(b"hello");
    let mut data = B64.decode(&parts.data).unwrap();
    data[3] ^= 0x40;
    let forged = EncParts { iv: parts.iv.clone(), data: B64.encode(&data), mac: parts.mac.clone() };
    assert!(matches!(err(key().decrypt(&forged.to_enc_string())), Failure::MacMismatch));
}

#[test]
fn short_vector_is_refused_after_the_mac() {
    let text = "2.BwcHBwcHBwcHBwcHBwcH|AQEBAQEBAQEBAQEBAQEBAQ==|qcr9q3NyzLisa7qYw2DoEHnGFFzkETtj8eZQvbP1mIw=";
    let e = err(key().decrypt(text));
    assert!(matches!(e, Failure::IvLength(15)));
    assert_eq!(e.message(), "bad iv length 15");
}

#[test]
fn ragged_ciphertext_is_refused() {
    let text = "2.BwcHBwcHBwcHBwcHBwcHBw==|AQEBAQEBAQEBAQEBAQEB|x5TK8NVUrbISBDGJ/53bSvkWPWBQTyY0balY9wKGVSc=";
    let e = err(key().decrypt(text));
    assert_eq!(e.message(), "AES-CBC decrypt failed: Unpad Error");
}

#[test]
fn text_has_to_be_utf8() {
    let text = "2.BwcHBwcHBwcHBwcHBwcHBw==|ZzXTcHgwCAPKovR2GrrJmQ==|FZg50mryGagroiC8c9jGWgbyUGiatix1OSbwGtgRtpM=";
    assert_eq!(ok(key().decrypt(text)), vec![0xffu8, 0xfe]);
    let e = err(key().decrypt_str(text));
    assert_eq!(
        e.message(),
        "decrypted value was not valid UTF-8: invalid utf-8 sequence of 1 bytes from index 0"
    );
    let parts = key().encrypt_parts("grüße — ✓".as_bytes());
    assert_eq!(ok(key().decrypt_str(&parts.to_enc_string())), "grüße — ✓");
}

#[test]
fn key_pair_publishes_its_public_half() {
    let der = B64.decode(PRIVATE_KEY).unwrap();
    let pair = ok(KeyPair::from_pkcs8_der(&der));
    assert_eq!(ok(pair.public_key_b64()), PUBLIC_KEY);
    assert!(matches!(err(KeyPair::from_pkcs8_der(b"no key")), Failure::Rsa(_)));
}

#[test]
fn transport_key_is_unwrapped() {
    let der = B64.decode(PRIVATE_KEY).unwrap();
    let pair = ok(KeyPair::from_pkcs8_der(&der));
    assert_eq!(ok(pair.unwrap_transport_key(WRAPPED_64)).to_bytes(), counting(64));
    assert!(matches!(err(pair.unwrap_transport_key(WRAPPED_63)), Failure::KeyLength(63)));
    assert!(matches!(err(pair.unwrap_transport_key("AAAA")), Failure::Rsa(_)));
    assert!(matches!(err(pair.unwrap_transport_key("?")), Failure::Base64(_)));
}

#[test]
fn generated_pair_unwraps_what_is_wrapped_for_it() {
    let pair = ok(KeyPair::generate());
    let der = B64.decode(ok(pair.public_key_b64())).unwrap();
    let public = RsaPublicKey::from_public_key_der(&der).unwrap();
    let secret = counting(64);
    let wrapped = public.encrypt(&mut rand::thread_rng(), Oaep::new::<Sha1>(), &secret).unwrap();
    assert_eq!(wrapped.len(), 256);
    let key = ok(pair.unwrap_transport_key(&B64.encode(wrapped)));
    assert_eq!(key.to_bytes(), secret);
}

#[test]
fn account_key_opens_type_4() {
    let der = B64.decode(PRIVATE_KEY).unwrap();
    let account = ok(PrivateKey::from_pkcs8_der(&der));
    assert_eq!(ok(account.decrypt_type4(&format!("4.{WRAPPED_63}"))), counting(63));
    assert_eq!(err(account.decrypt_type4(WRAPPED_63)).message(), "expected a type-4 (RSA) EncString");
    assert_eq!(
        err(account.decrypt_type4("4.AAAA")).message(),
        "RSA-OAEP decrypt failed: decryption error"
    );
    assert!(matches!(err(account.decrypt_type4("4.?")), Failure::Base64(_)));
}

#[test]
fn account_key_has_to_be_pkcs8() {
    let e = match PrivateKey::from_pkcs8_der(b"no key") {
        Ok(_) => panic!("unexpected success"),
        Err(e) => e,
    };
    assert!(e.message().starts_with("parsing account RSA private key: "));
}

/// A first prime of 300 bits and a second of 724, and the bytes 0 to 63 wrapped for it.
const SHORT_FIRST: &str = "MIICWwIBADANBgkqhkiG9w0BAQEFAASCAkUwggJBAgEAAoGBAMQBikzyA6JtwVWZjGD8UGmFwtgP8p/F8txc3IyBFm558926i9aPb1oZORERj82zkTm3NKBbn4aECRrI4iFAcdt2eX/OGhVFDhzaYRdYQCocFB7RmkdNIlFqd/SNcdNND2YFSWednKZgC2WVeYrMxoUApUmtpskO+ZX0FPqkN/BdAgMBAAECgYBSSbtAVpKEDMQQJeizhvpTct68SuW3gilVrn7BViiOtRBW1EyE/x9Y/6MofOvCDLrh+nsXeMtcyF4aPlnqZQFjEw+BPufn29yEhOQRjdpQcVMMQ4JJ9QLyYI7H5dc6GR1nd8qOvEwN9JWU+3aTm+a4w9hXpzkX/DUS1PxR4Y9fGQImDIrrVVWssbcZHY1q3HJ/Qp1DutCwmtNSYWIcGP3uMAw+0gZMVs8CWw+gjV/9iUe19gDb85EVwUcbzGAYCq8XFVVmcwuP631nYGUwWWSGXDwiVPzNVjFuruvNVnaldMdp5Bs7Bm7iRtYELS5KmcuI6LFQD46BwAxp/+eJiW3Yg48KURMCJgvSzMLVj4S7eEZ+b/S9Ti+qdhVd8o0QlgDM7nW0sdrDQFjVrRLLAlsM6MnBQVW1urh1Lz4/XWRkFK+5tkKlL4F9Ifvp0kNsPgjgrpc6NtBdENN6XzpT7aZsvx0tODOHRI+eex0uXpi71YlpU1FHVVs8lvGy/LakyrAPGoxABPtxH8mnAiYHRR+bbNmJFTSDYPIibSxsQM/3QJz7gaAiyv32VwmKQOrEkzGILQ==";
const WRAPPED_SHORT_FIRST: &str = "hja018fA0R4xkb9sLfAKVUMlMrqaiA+G/PCo0VpiGf7DyAf17OfkI8+IDBWBVVHdpy1aNzgjLtWp+E5kUZxx9kSK79O1wmvFuboZfq/6dUw8VgGonVSXNZX5IdrbZSFP0fB816APmUSU5WmZjtRvf7unUBCif3+RyRnyGd1i4S0=";

/// A first prime of 724 bits and a second of 300, and the bytes 0 to 63 wrapped for it.
const LONG_FIRST: &str = "MIICjwIBADANBgkqhkiG9w0BAQEFAASCAnkwggJ1AgEAAoGBAM+LTrFtMXEUdgHXI7z0rXZHyZmJn/w4ILwkrwjH0yU8vDWQhRx1m4Jgz+25wJfaJrfX2ctMSWi82kFWy+/xUiDakyiSehfzsLYWvyPO49q5KEGUnBADzV9T4lv7vqa/tJ83SUASzWvitpoeH2s8fvixSWGuvPxB1Uy+zCv/u2pZAgMBAAECgYAZ7hG64SWYNzI3MKXqabdyW624XRV78ZdFal/j/PNIZ7osBw5aaiGZ3M+j6gwMCMBfWdvcQEhZJa97zsqaI/D7qRjPP4h6noixpBNQQLDkwyL/M3EqsLp0G5sJhL3x7ETDKeshAHPatEB3Fuk6Ss6WtOXmbFb4NnpasIA72iFwwQJbDi50y9FIF4ygtN7OCMY3+LorZOo3Y1o6RkPCPhvW5YaoTaFyyC2vAEDauOonHcpEuzsmXEoxV3rw33+ALCdIhHw22Ycsfsn0wxp4FQHNd8vOEIKFBS5eTDUHHQImDqKHyRDluakDXF5EWiz6jEgoByszrmYb9DEFTEmBRDJVgdcgf20CWwTE6tKAl1YUHRe2tmONBdXIBj/x5J6tAVwP/YsVobefCYrR+OAJPQlAxk3ZsT37gBHXWpc+/EkHN2pyXpB6xZCIlYmiQ/x/vqi+hhPKf2cCS1KSElojteK7EqECJT3atA0dXdVWgt3jjwGTGWHPl161Obnh2EQ+7CWChte15bDhjnkCWwDIQca0wn4Lz84bTBZUpIzmce9877jDXeNiBnPA2D/xupraxgBMEykmuomLyHLGt8sBR+iWs5q6tLOvmYGj3RGNys/ziLBSyxGsuChWMJgIeKG3CNV27lKwh8c=";
const WRAPPED_LONG_FIRST: &str = "ZfGyHUsSBVq2gxrVXLkII/3z01d7jHJRRP4zbs5u2mwCqmNQX3Y8GMT5YEplG7eNyTDqlGCF+LHBtdjjW7cb2aBHO0mJ31KJ9nSDiSmscyq8eXe258wP48qlAOEoBCk/SIRVYymbVROXicoudXieUUP/tRDa5mxLdHsXD7mesKk=";

#[test]
fn lopsided_keys_are_used() {
    for (text, wrapped) in [(SHORT_FIRST, WRAPPED_SHORT_FIRST), (LONG_FIRST, WRAPPED_LONG_FIRST)] {
        let der = B64.decode(text).unwrap();
        let pair = ok(KeyPair::from_pkcs8_der(&der));
        assert_eq!(ok(pair.unwrap_transport_key(wrapped)).to_bytes(), counting(64));
        assert!(matches!(err(pair.unwrap_transport_key("AAAA")), Failure::Rsa(_)));
        let account = ok(PrivateKey::from_pkcs8_der(&der));
        assert_eq!(ok(account.decrypt_type4(&format!("4.{wrapped}"))), counting(64));
    }
}

#[test]
fn generated_pair_has_2048_bits() {
    let pair = ok(KeyPair::generate());
    let der = B64.decode(ok(pair.public_key_b64())).unwrap();
    let public = RsaPublicKey::from_public_key_der(&der).unwrap();
    assert_eq!(public.n().bits(), 2048);
}

#[test]
fn encrypted_parts_have_their_sizes() {
    for n in [0usize, 1, 15, 16, 17, 31, 32, 100] {
        let plain = vec![5u8; n];
        for parts in [key().encrypt_parts(&plain), key().encrypt_parts_with_iv(&plain, &[1u8; 16])] {
            assert_eq!(B64.decode(&parts.iv).unwrap().len(), 16);
            assert_eq!(B64.decode(&parts.data).unwrap().len(), 16 * (n / 16 + 1));
            assert_eq!(B64.decode(&parts.mac).unwrap().len(), 32);
        }
    }
}
