use aes::cipher::block_padding::Pkcs7;
use aes::cipher::{BlockDecryptMut, BlockEncryptMut, KeyIvInit};
use base64::engine::general_purpose::STANDARD as B64;
use base64::Engine;
use bw_wez::crypto::{KeyPair, SymmetricKey};
use bw_wez::error::{Error, Failure};
use bw_wez::json::Json;
use bw_wez::protocol::{
    encstring_from_message, unlock_reply, Handshake, Progress, Reply, Session,
};
use bw_wez::transport::{frame_length, read_json, write_json, TransportKind};
use bw_wez::vault::{begin_unlock, obtain_user_key, proceed, wait_time, Stage, Step};
use hmac::{Hmac, Mac};
use rand::RngCore;
use rsa::pkcs8::DecodePublicKey;
use rsa::{Oaep, RsaPublicKey};
use serde_json::Value;
use sha1::Sha1;
use sha2::Sha256;

const PRIVATE_KEY: &str = "MIICdwIBADANBgkqhkiG9w0BAQEFAASCAmEwggJdAgEAAoGBANEqnJBjyoYKNsw/Ejn0NFH/GbsGe7d0ePL7/1Iq06vYa24eDjKWuIfTIdcMEEe8mL9Z16C0XRk8YWmllcC8xtyIZMd75sbHHuYHONx21OY7Ni3w1ErWQpFiSHWAwygah3tZQ2OYwA0VB/mLbUEqUMNhboNztjbJpKiye24RvGNNAgMBAAECgYAC0KH+x3kISMboBMlIAmNZ3ycHf1TW6ThffMi44F6s52K6vqjOQX0GRu8jp8PoUz9zA9CFFyhRmKBu/Y2AZIoAk4wgYDvHVx42mPluKwBdQGfrhjammbvVKgwieoD771hsvvsvTN4SH1iLvN7bfPvbMmqqbxIYPoAvO4vsIPOIgQJBAP2i5yhuBA3UwCvGB6vABPwlkjFrm+RShD1LoYr9SnoyNDVBYWtVZIWoiHX8leSacvSO1aJwuOyazf5Sbhr6QfECQQDTHZ4LcesZM5dKUNSq/+iRvHTQxehNh+GkUgI28ds1arrVFIC2BDQMkQzTq8aaEyQ6aQKllKNsTBvMNLQ+1psdAkEA7eh8zTaMxPB3pVemYFrIEj+npoWaf4tLETe8+mNmFcK7p+yA1a4OkTSpc4qOixS4mV7VUv5K51y5tkFZmCJ/8QJBAKpJE3fr1VQolvmspT2g2Xjj592WJMCUv96I/5xODSDTDAxfU0p9rXYNcakyvyj8E5bBqQ7iC8eIxEs8n76n38kCQFUc22VRBPEZszRHb1IRE+ykgby7YSq7C4IKMwkXGdUduORPD7/j6tJtaihLroDTAsJCDjY0beZrC5ufb2E9ypA=";

const WRAPPED_64: &str = "NrOrUoREMHlIfW9B//K8pMHvjz8UATbfFoCrDl31CDxHu/NeW3bGvZWwOvZ5eFfVXLIMuFXrL6v4DEQ3NRQ9GY+HoBcNqymm401jNLYNGmXBdBU/+1jRN8JVUsQjg9vRKiDcuTJf5A7kM79zZGR9WZT+7P0n5mr2IFbjH7y9vKk=";

type Encryptor = cbc::Encryptor<aes::Aes256>;
type Decryptor = cbc::Decryptor<aes::Aes256>;

/// A desktop app that lives in memory and speaks frames.
struct Desktop {
    secret: Option<Vec<u8>>,
}

fn value(text: &str) -> Value {
    serde_json::from_str(text).expect("valid JSON")
}

fn to_frame(v: &Value) -> Vec<u8> {
    let body = serde_json::to_vec(v).unwrap();
    let mut out = (body.len() as u32).to_le_bytes().to_vec();
    out.extend_from_slice(&body);
    out
}

fn from_frame(bytes: &[u8]) -> Value {
    let n = u32::from_le_bytes([bytes[0], bytes[1], bytes[2], bytes[3]]) as usize;
    assert_eq!(n, bytes.len() - 4);
    serde_json::from_slice(&bytes[4..]).expect("valid JSON")
}

/// Reads a frame as the library does.
fn receive(bytes: &[u8]) -> Json {
    let header = [bytes[0], bytes[1], bytes[2], bytes[3]];
    let n = match frame_length(TransportKind::DirectSocket, &header) {
        Ok(n) => n,
        Err(e) => panic!("{}", e.message()),
    };
    match read_json(&bytes[4..4 + n]) {
        Ok(j) => j,
        Err(e) => panic!("{}", e.message()),
    }
}

/// Sends a document as the library does.
fn send(j: &Json) -> Vec<u8> {
    match write_json(j) {
        Ok(b) => b,
        Err(e) => panic!("{}", e.message()),
    }
}

impl Desktop {
    fn connect(&self) -> Vec<u8> {
        to_frame(&value(r#"{"command": "connected"}"#))
    }

    fn handle(&mut self, frame: &[u8]) -> Option<Vec<u8>> {
        let msg = from_frame(frame);
        let body = msg.get("message");
        let encrypted = body.and_then(|m| m.get("encryptionType")).and_then(|v| v.as_i64()) == Some(2);
        if encrypted {
            return self.handle_encrypted(&msg).map(|v| to_frame(&v));
        }
        match body.and_then(|m| m.get("command")).and_then(|c| c.as_str()) {
            Some("setupEncryption") => {
                let text = body?.get("publicKey")?.as_str()?;
                let public = RsaPublicKey::from_public_key_der(&B64.decode(text).ok()?).ok()?;
                let mut secret = vec![0u8; 64];
                rand::thread_rng().fill_bytes(&mut secret);
                let wrapped = public
                    .encrypt(&mut rand::thread_rng(), Oaep::new::<Sha1>(), &secret)
                    .ok()?;
                self.secret = Some(secret);
                Some(to_frame(&value(&format!(
                    r#"{{"command": "setupEncryption", "sharedSecret": "{}"}}"#,
                    B64.encode(wrapped)
                ))))
            }
            _ => Some(self.connect()),
        }
    }

    /// The EncString object that the desktop app makes of a message.
    fn seal(&self, plain: &[u8]) -> String {
        let secret = self.secret.as_ref().expect("session key");
        let mut iv = [0u8; 16];
        rand::thread_rng().fill_bytes(&mut iv);
        let cipher = Encryptor::new_from_slices(&secret[..32], &iv)
            .expect("valid key/iv length")
            .encrypt_padded_vec_mut::<Pkcs7>(plain);
        let mut mac = <Hmac<Sha256> as Mac>::new_from_slice(&secret[32..]).expect("hmac key");
        mac.update(&iv);
        mac.update(&cipher);
        let tag = mac.finalize().into_bytes();
        let (iv, data, mac) = (B64.encode(iv), B64.encode(&cipher), B64.encode(tag));
        format!(
            r#"{{"encryptionType": 2, "encryptedString": "2.{iv}|{data}|{mac}", "iv": "{iv}", "data": "{data}", "mac": "{mac}"}}"#
        )
    }

    /// The command in an encrypted message, read from its parts.
    fn open(&self, message: &Value) -> Option<Value> {
        let secret = self.secret.as_ref()?;
        let iv = B64.decode(message.get("iv")?.as_str()?).ok()?;
        let cipher = B64.decode(message.get("data")?.as_str()?).ok()?;
        let tag = B64.decode(message.get("mac")?.as_str()?).ok()?;
        let whole = format!(
            "2.{}|{}|{}",
            message.get("iv")?.as_str()?,
            message.get("data")?.as_str()?,
            message.get("mac")?.as_str()?
        );
        assert_eq!(message.get("encryptedString")?.as_str()?, whole);
        let mut mac = <Hmac<Sha256> as Mac>::new_from_slice(&secret[32..]).ok()?;
        mac.update(&iv);
        mac.update(&cipher);
        mac.verify_slice(&tag).ok()?;
        let plain = Decryptor::new_from_slices(&secret[..32], &iv)
            .ok()?
            .decrypt_padded_vec_mut::<Pkcs7>(&cipher)
            .ok()?;
        serde_json::from_slice(&plain).ok()
    }

    fn handle_encrypted(&self, msg: &Value) -> Option<Value> {
        let inner = self.open(msg.get("message")?)?;
        let id = inner.get("messageId").and_then(|v| v.as_i64()).unwrap_or(1);
        assert_eq!(msg.get("messageId").and_then(|v| v.as_i64()), Some(id));
        assert!(inner.get("timestamp")?.as_i64().is_some());
        let reply = match inner.get("command").and_then(|c| c.as_str()) {
            Some("unlockWithBiometricsForUser") => format!(
                r#"{{"command": "unlockWithBiometricsForUser", "messageId": {id}, "response": true, "userKeyB64": "{}"}}"#,
                B64.encode([0x42u8; 64])
            ),
            _ => format!(r#"{{"command": "other", "messageId": {id}, "response": null}}"#),
        };
        let app_id = msg.get("appId").and_then(|v| v.as_str()).unwrap_or("test");
        Some(value(&format!(
            r#"{{"appId": "{app_id}", "message": {}}}"#,
            self.seal(reply.as_bytes())
        )))
    }
}

const USER: &str = "00000000-0000-0000-0000-000000000000";

fn ok<T>(r: Result<T, Error>) -> T {
    match r {
        Ok(v) => v,
        Err(e) => panic!("unexpected error: {}", e.message()),
    }
}

fn doc(text: &str) -> Json {
    ok(read_json(text.as_bytes()))
}

fn pair() -> KeyPair {
    ok(KeyPair::from_pkcs8_der(&B64.decode(PRIVATE_KEY).unwrap()))
}

fn handshake(kind: TransportKind) -> Handshake {
    ok(Handshake::with_keys(kind, USER, "app".to_string(), pair()))
}

/// A session under the key of the bytes 0 to 63.
fn session() -> Session {
    let mut h = handshake(TransportKind::DirectSocket);
    let frame = doc(&format!(r#"{{"command": "setupEncryption", "sharedSecret": "{WRAPPED_64}"}}"#));
    match h.on_frame(&frame, 0) {
        Progress::Established(s) => s,
        _ => panic!("no session"),
    }
}

fn session_key() -> SymmetricKey {
    ok(SymmetricKey::from_bytes(&(0..64).collect::<Vec<u8>>()))
}

/// The frame of a reply, encrypted under the session key.
fn sealed_frame(plain: &str) -> Json {
    let text = session_key().encrypt_parts(plain.as_bytes()).to_enc_string();
    doc(&format!(r#"{{"message": "{text}"}}"#))
}

fn failure(p: Progress) -> String {
    match p {
        Progress::Failed(e) => e.message(),
        _ => panic!("no failure"),
    }
}

#[test]
fn test_socket_transport_write_read_frame() {
    let mut desktop = Desktop { secret: None };
    let connected = receive(&desktop.connect());
    assert_eq!(connected.text("command"), Some("connected"));
    let ping = send(&Json::Null.with("command", Json::string("ping")));
    let response = receive(&desktop.handle(&ping).expect("should read response"));
    assert_eq!(response.text("command"), Some("connected"));
}

#[test]
fn test_socket_transport_setup_encryption() {
    let mut desktop = Desktop { secret: None };
    let connected = receive(&desktop.connect());
    assert_eq!(connected.text("command"), Some("connected"));

    let keypair = ok(KeyPair::generate());
    let setup = Json::Null.with("appId", Json::string("test-app")).with(
        "message",
        Json::Null
            .with("command", Json::string("setupEncryption"))
            .with("publicKey", Json::string(&ok(keypair.public_key_b64())))
            .with("userId", Json::string("00000000-0000-0000-0000-000000000000")),
    );
    let response = receive(&desktop.handle(&send(&setup)).expect("should read setupEncryption response"));
    assert_eq!(response.text("command"), Some("setupEncryption"));
    assert!(
        response.text("sharedSecret").is_some(),
        "response should contain sharedSecret"
    );
}

#[test]
fn test_session_full_handshake_over_socket() {
    let mut desktop = Desktop { secret: None };
    let mut handshake = ok(Session::establish(
        TransportKind::DirectSocket,
        "00000000-0000-0000-0000-000000000000",
    ));
    let setup = handshake.open(1).expect("setup goes out at once");
    assert!(matches!(handshake.on_frame(&receive(&desktop.connect()), 2), Progress::Wait));
    let answer = desktop.handle(&send(&setup)).expect("answer to setup");
    let mut session = match handshake.on_frame(&receive(&answer), 3) {
        Progress::Established(s) => s,
        _ => panic!("session should establish"),
    };

    let (id, request) = ok(session.biometric_unlock());
    assert_eq!(id, 1);
    let answer = desktop.handle(&send(&request)).expect("answer to unlock");
    let reply = match session.read_encrypted(&receive(&answer)) {
        Reply::Message(j) => j,
        _ => panic!("biometric unlock should succeed"),
    };
    let user_key = ok(unlock_reply(&reply));

    assert_eq!(
        user_key,
        B64.encode([0x42u8; 64]),
        "user key should survive the encrypted socket round trip"
    );
    let decoded_user_key = B64
        .decode(&user_key)
        .expect("user key should be valid base64");
    assert_eq!(
        decoded_user_key.len(),
        64,
        "user key should contain 64 bytes"
    );
}

#[test]
fn unlock_from_beginning_to_end() {
    let mut desktop = Desktop { secret: None };
    let (mut stage, first) = ok(begin_unlock(TransportKind::NativeMessaging, USER, 5));
    assert!(first.is_none());
    let mut incoming = vec![desktop.connect()];
    let mut sent = 0;
    let key = loop {
        let frame = incoming.pop().expect("a frame");
        match obtain_user_key(stage, Ok(receive(&frame)), 6, &[9u8; 16]) {
            Step::Wait(s) => stage = s,
            Step::Send(s, j) => {
                sent += 1;
                stage = s;
                incoming.push(desktop.handle(&send(&j)).expect("an answer"));
            }
            Step::Done(k) => break k,
            Step::Failed(e) => panic!("{}", e.message()),
        }
    };
    assert_eq!(sent, 2);
    assert_eq!(key.to_bytes(), vec![0x42u8; 64]);
}

#[test]
fn app_ids_are_guids() {
    let mut h = ok(Session::establish(TransportKind::DirectSocket, USER));
    let setup = h.open(0).expect("setup");
    assert!(bw_wez::text::is_guid(setup.text("appId").expect("appId")));
}

#[test]
fn setup_message_spelled_out() {
    let mut h = handshake(TransportKind::DirectSocket);
    let setup = h.open(1700000000123).expect("setup");
    let public = ok(pair().public_key_b64());
    assert_eq!(
        setup.to_text(),
        format!(
            r#"{{"appId":"app","message":{{"command":"setupEncryption","messageId":0,"publicKey":"{public}","timestamp":1700000000123,"userId":"{USER}"}}}}"#
        )
    );
}

#[test]
fn setup_is_sent_once() {
    let connected = doc(r#"{"command": "connected"}"#);
    let other = doc(r#"{"command": "something"}"#);
    let bare = doc("[]");

    let mut direct = handshake(TransportKind::DirectSocket);
    assert!(direct.open(0).is_some());
    assert!(direct.open(0).is_none());
    assert!(matches!(direct.on_frame(&connected, 0), Progress::Wait));

    let mut proxy = handshake(TransportKind::NativeMessaging);
    assert!(proxy.open(0).is_none());
    assert!(matches!(proxy.on_frame(&other, 0), Progress::Wait));
    assert!(matches!(proxy.on_frame(&bare, 0), Progress::Wait));
    assert!(matches!(proxy.on_frame(&connected, 0), Progress::Send(_)));
    assert!(matches!(proxy.on_frame(&connected, 0), Progress::Wait));
}

#[test]
fn handshake_failures() {
    let mut h = handshake(TransportKind::DirectSocket);
    let mut said = |text: &str| failure(h.on_frame(&doc(text), 0));
    assert_eq!(
        said(r#"{"command": "wrongUserId"}"#),
        format!("the desktop app is not logged into userId {USER} (try setting BW_WEZ_USER_ID)")
    );
    assert_eq!(
        said(r#"{"command": "invalidateEncryption"}"#),
        "desktop invalidated the secure channel — retry"
    );
    assert_eq!(
        said(r#"{"command": "disconnected"}"#),
        "desktop disconnected during handshake — make sure the desktop vault is unlocked"
    );
    assert_eq!(
        said(r#"{"command": "setupEncryption"}"#),
        "setupEncryption reply missing sharedSecret"
    );
    assert_eq!(
        said(r#"{"command": "setupEncryption", "sharedSecret": 1, "sharedKey": "AAAA"}"#),
        "setupEncryption reply missing sharedSecret"
    );
    assert_eq!(
        said(r#"{"command": "setupEncryption", "sharedSecret": "AAAA"}"#),
        "decryption error"
    );
}

#[test]
fn older_name_of_the_shared_secret() {
    let mut h = handshake(TransportKind::NativeMessaging);
    let frame = doc(&format!(r#"{{"command": "setupEncryption", "sharedKey": "{WRAPPED_64}"}}"#));
    assert!(matches!(h.on_frame(&frame, 0), Progress::Established(_)));
}

#[test]
fn sealed_command_spelled_out() {
    let mut s = session();
    let command = Json::Null.with("command", Json::string("x"));
    let (id, frame) = ok(s.seal_command(command, 77, &[7u8; 16]));
    assert_eq!(id, 1);
    let inner = r#"{"command":"x","messageId":1,"timestamp":77}"#;
    let p = session_key().encrypt_parts_with_iv(inner.as_bytes(), &[7u8; 16]);
    assert_eq!(
        frame.to_text(),
        format!(
            r#"{{"appId":"app","message":{{"data":"{}","encryptedString":"{}","encryptionType":2,"iv":"{}","mac":"{}"}},"messageId":1}}"#,
            p.data,
            p.to_enc_string(),
            p.iv,
            p.mac
        )
    );
}

#[test]
fn sealed_command_is_read_by_the_holder_of_the_key() {
    let mut s = session();
    let (_, frame) = ok(s.send_encrypted(Json::Null.with("command", Json::string("x"))));
    match session().read_encrypted(&frame) {
        Reply::Message(j) => {
            assert_eq!(j.text("command"), Some("x"));
            assert_eq!(j.get("messageId").and_then(|v| v.as_i64()), Some(1));
            assert!(j.get("timestamp").and_then(|v| v.as_i64()).unwrap_or(0) > 1600000000000);
        }
        _ => panic!("not read"),
    }
}

#[test]
fn message_ids_ascend() {
    let mut s = session();
    for want in 1..6i64 {
        let (id, frame) = ok(s.biometric_unlock());
        assert_eq!(id, want);
        assert_eq!(frame.get("messageId").and_then(|v| v.as_i64()), Some(want));
    }
}

#[test]
fn unlock_command_spelled_out() {
    let mut s = session();
    let (_, frame) = ok(s.biometric_unlock_with(5, &[1u8; 16]));
    match s.read_encrypted(&frame) {
        Reply::Message(j) => assert_eq!(
            j.to_text(),
            format!(r#"{{"command":"unlockWithBiometricsForUser","messageId":1,"timestamp":5,"userId":"{USER}"}}"#)
        ),
        _ => panic!("not read"),
    }
}

#[test]
fn enc_strings_in_messages() {
    let found = |text: &str| encstring_from_message(Some(&doc(text)));
    assert_eq!(found(r#""2.a|b|c""#), Some("2.a|b|c".to_string()));
    assert_eq!(found(r#"{"encryptedString": "2.a|b|c", "iv": "x"}"#), Some("2.a|b|c".to_string()));
    assert_eq!(found(r#"{"iv": "a", "data": "b", "mac": "c"}"#), Some("2.a|b|c".to_string()));
    assert_eq!(
        found(r#"{"encryptedString": 1, "iv": "a", "data": "b", "mac": "c"}"#),
        Some("2.a|b|c".to_string())
    );
    assert_eq!(found(r#"{"iv": "a", "data": "b"}"#), None);
    assert_eq!(found("7"), None);
    assert_eq!(encstring_from_message(None), None);
}

#[test]
fn control_frames_in_a_session() {
    let s = session();
    let said = |text: &str| match s.read_encrypted(&doc(text)) {
        Reply::Wait => "wait".to_string(),
        Reply::Message(_) => "message".to_string(),
        Reply::Failed(e) => e.message(),
    };
    assert_eq!(said(r#"{"command": "verifyDesktopIPCFingerprint"}"#), "wait");
    assert_eq!(said(r#"{"command": "anything"}"#), "wait");
    assert_eq!(
        said(r#"{"command": "rejectedDesktopIPCFingerprint"}"#),
        "fingerprint approval was rejected in the desktop app"
    );
    assert_eq!(
        said(r#"{"command": "invalidateEncryption"}"#),
        "desktop invalidated the secure channel"
    );
    assert_eq!(said(r#"{"command": "disconnected"}"#), "desktop disconnected");
    assert_eq!(
        said(r#"{"message": "2.AAAA|AAAA|AAAA"}"#),
        "EncString MAC verification failed"
    );
}

#[test]
fn reply_has_to_be_json() {
    match session().read_encrypted(&sealed_frame("{")) {
        Reply::Failed(e) => assert!(matches!(e, Failure::Json(_))),
        _ => panic!("no failure"),
    }
}

#[test]
fn unlock_replies() {
    let got = |text: &str| match unlock_reply(&doc(text)) {
        Ok(k) => k,
        Err(e) => format!("! {}", e.message()),
    };
    assert_eq!(got(r#"{"response": true, "userKeyB64": "k", "keyB64": "old"}"#), "k");
    assert_eq!(got(r#"{"response": true, "keyB64": "old"}"#), "old");
    assert_eq!(got(r#"{"response": true}"#), "! unlock reply missing userKeyB64");
    assert_eq!(
        got(r#"{"response": true, "userKeyB64": 1, "keyB64": "old"}"#),
        "! unlock reply missing userKeyB64"
    );
    let denied = "! biometric unlock not granted — enable 'Unlock with Touch ID' in the desktop app and ensure its vault is unlocked";
    assert_eq!(got(r#"{"response": false, "userKeyB64": "k"}"#), denied);
    assert_eq!(got(r#"{"response": "true", "userKeyB64": "k"}"#), denied);
    assert_eq!(got("{}"), denied);
}

fn step(stage: Stage, event: Result<Json, Error>) -> String {
    match obtain_user_key(stage, event, 0, &[0u8; 16]) {
        Step::Wait(_) => "wait".to_string(),
        Step::Send(_, _) => "send".to_string(),
        Step::Done(_) => "done".to_string(),
        Step::Failed(e) => e.message(),
    }
}

#[test]
fn unlock_failures_name_the_circumstance() {
    let opening = || Stage::Handshake(handshake(TransportKind::DirectSocket));
    let waiting = || Stage::Unlock(session());
    assert_eq!(
        step(opening(), Err(Failure::TimedOut)),
        "connecting to the Bitwarden desktop app: reading handshake frame: timed out waiting for a reply"
    );
    assert_eq!(
        step(opening(), Ok(doc(r#"{"command": "invalidateEncryption"}"#))),
        "connecting to the Bitwarden desktop app: desktop invalidated the secure channel — retry"
    );
    assert_eq!(
        step(waiting(), Err(Failure::Closed)),
        "biometric unlock: connection closed"
    );
    assert_eq!(
        step(waiting(), Ok(doc(r#"{"command": "disconnected"}"#))),
        "biometric unlock: desktop disconnected"
    );
    assert_eq!(
        step(waiting(), Ok(sealed_frame(r#"{"response": false}"#))),
        "biometric unlock: biometric unlock not granted — enable 'Unlock with Touch ID' in the desktop app and ensure its vault is unlocked"
    );
    assert_eq!(
        step(waiting(), Ok(sealed_frame(r#"{"response": true, "userKeyB64": "AAAA"}"#))),
        "decoding the unlocked user key: expected a 64-byte symmetric key, got 3 bytes"
    );
    assert_eq!(step(waiting(), Ok(doc(r#"{"command": "verifyDesktopIPCFingerprint"}"#))), "wait");
    let granted = format!(r#"{{"response": true, "userKeyB64": "{}"}}"#, B64.encode([3u8; 64]));
    assert_eq!(step(waiting(), Ok(sealed_frame(&granted))), "done");
}

#[test]
fn stages_have_deadlines() {
    let left = |stage: &Stage, began: u64, now: u64| match wait_time(stage, began, now) {
        Ok(t) => t.to_string(),
        Err(e) => e.message(),
    };
    let opening = Stage::Handshake(handshake(TransportKind::DirectSocket));
    assert_eq!(left(&opening, 100, 100), "15000");
    assert_eq!(left(&opening, 100, 15_099), "1");
    assert_eq!(left(&opening, 100, 15_100), "timed out waiting for a reply");
    assert_eq!(left(&opening, 100, 50), "15000");
    let waiting = Stage::Unlock(session());
    assert_eq!(left(&waiting, 0, 119_999), "1");
    assert_eq!(left(&waiting, 0, 120_000), "timed out waiting for a reply");
}

#[test]
fn unlock_stage_begins_when_the_unlock_is_asked_for() {
    let opening = || Stage::Handshake(handshake(TransportKind::NativeMessaging));
    let connected = doc(r#"{"command": "connected"}"#);
    match proceed(opening(), 7, Ok(connected), 9) {
        (Step::Send(Stage::Handshake(_), j), began) => {
            assert_eq!(began, 7);
            assert!(j.get("message").and_then(|m| m.get("timestamp")).and_then(|t| t.as_i64()).unwrap_or(0) > 1600000000000);
        }
        _ => panic!("no setup"),
    }
    let secret = doc(&format!(r#"{{"command": "setupEncryption", "sharedSecret": "{WRAPPED_64}"}}"#));
    let (frame, iv) = match proceed(opening(), 7, Ok(secret), 9) {
        (Step::Send(Stage::Unlock(s), j), began) => {
            assert_eq!(began, 9);
            assert!(matches!(s.read_encrypted(&j), Reply::Message(_)));
            let iv = j.get("message").and_then(|m| m.text("iv")).unwrap_or("").to_string();
            (j, iv)
        }
        _ => panic!("no request"),
    };
    assert_eq!(frame.text("appId"), Some("app"));
    assert_ne!(iv, B64.encode([0u8; 16]));
    match proceed(Stage::Unlock(session()), 7, Err(Failure::TimedOut), 9) {
        (Step::Failed(e), _) => assert_eq!(e.message(), "biometric unlock: timed out waiting for a reply"),
        _ => panic!("no failure"),
    }
}

#[test]
fn unusual_commands_are_sealed() {
    let mut s = session();
    let large = doc(r#"{"command": "x", "n": 18446744073709551615}"#);
    let (_, frame) = ok(s.seal_command(large, 5, &[2u8; 16]));
    match s.read_encrypted(&frame) {
        Reply::Message(j) => assert_eq!(
            j.to_text(),
            r#"{"command":"x","messageId":1,"n":18446744073709551615,"timestamp":5}"#
        ),
        _ => panic!("not read"),
    }
    let mut deep = Json::Null;
    for _ in 0..150 {
        deep = Json::Array(vec![deep]);
    }
    let (id, frame) = ok(s.seal_command(Json::Null.with("deep", deep), 6, &[3u8; 16]));
    assert_eq!(id, 2);
    let enc = encstring_from_message(frame.get("message")).expect("an EncString");
    let plain = ok(session_key().decrypt_str(&enc));
    let open = "[".repeat(150);
    let close = "]".repeat(150);
    assert_eq!(plain, format!(r#"{{"deep":{open}null{close},"messageId":2,"timestamp":6}}"#));
}
