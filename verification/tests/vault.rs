use base64::engine::general_purpose::STANDARD as B64;
use base64::Engine;
use bw_wez::agent::{on_vault, ConnOutcome, KeyHolder, Next, Pending, Request, Response, State};
use bw_wez::crypto::SymmetricKey;
use bw_wez::error::{Error, Failure};
use bw_wez::json::Json;
use bw_wez::transport::read_json;
use bw_wez::vault::{desktop_user_id, find_account, get_field_at, get_field_with_key, list_with_key};

const PRIVATE_KEY: &str = "MIICdwIBADANBgkqhkiG9w0BAQEFAASCAmEwggJdAgEAAoGBANEqnJBjyoYKNsw/Ejn0NFH/GbsGe7d0ePL7/1Iq06vYa24eDjKWuIfTIdcMEEe8mL9Z16C0XRk8YWmllcC8xtyIZMd75sbHHuYHONx21OY7Ni3w1ErWQpFiSHWAwygah3tZQ2OYwA0VB/mLbUEqUMNhboNztjbJpKiye24RvGNNAgMBAAECgYAC0KH+x3kISMboBMlIAmNZ3ycHf1TW6ThffMi44F6s52K6vqjOQX0GRu8jp8PoUz9zA9CFFyhRmKBu/Y2AZIoAk4wgYDvHVx42mPluKwBdQGfrhjammbvVKgwieoD771hsvvsvTN4SH1iLvN7bfPvbMmqqbxIYPoAvO4vsIPOIgQJBAP2i5yhuBA3UwCvGB6vABPwlkjFrm+RShD1LoYr9SnoyNDVBYWtVZIWoiHX8leSacvSO1aJwuOyazf5Sbhr6QfECQQDTHZ4LcesZM5dKUNSq/+iRvHTQxehNh+GkUgI28ds1arrVFIC2BDQMkQzTq8aaEyQ6aQKllKNsTBvMNLQ+1psdAkEA7eh8zTaMxPB3pVemYFrIEj+npoWaf4tLETe8+mNmFcK7p+yA1a4OkTSpc4qOixS4mV7VUv5K51y5tkFZmCJ/8QJBAKpJE3fr1VQolvmspT2g2Xjj592WJMCUv96I/5xODSDTDAxfU0p9rXYNcakyvyj8E5bBqQ7iC8eIxEs8n76n38kCQFUc22VRBPEZszRHb1IRE+ykgby7YSq7C4IKMwkXGdUduORPD7/j6tJtaihLroDTAsJCDjY0beZrC5ufb2E9ypA=";

const WRAPPED_64: &str = "NrOrUoREMHlIfW9B//K8pMHvjz8UATbfFoCrDl31CDxHu/NeW3bGvZWwOvZ5eFfVXLIMuFXrL6v4DEQ3NRQ9GY+HoBcNqymm401jNLYNGmXBdBU/+1jRN8JVUsQjg9vRKiDcuTJf5A7kM79zZGR9WZT+7P0n5mr2IFbjH7y9vKk=";

const TOTP_SECRET: &str = "GEZDGNBVGY3TQOJQGEZDGNBVGY3TQOJQ";

fn ok<T>(r: Result<T, Error>) -> T {
    match r {
        Ok(v) => v,
        Err(e) => panic!("unexpected error: {}", e.message()),
    }
}

fn doc(text: &str) -> Json {
    ok(read_json(text.as_bytes()))
}

fn key_of(byte: u8) -> SymmetricKey {
    ok(SymmetricKey::from_bytes(&[byte; 64]))
}

fn user_key() -> SymmetricKey {
    key_of(0x42)
}

/// The key of the bytes 0 to 63, which the account key unwraps.
fn org_key() -> SymmetricKey {
    ok(SymmetricKey::from_bytes(&(0..64).collect::<Vec<u8>>()))
}

fn enc(key: &SymmetricKey, plain: &[u8]) -> String {
    key.encrypt_parts(plain).to_enc_string()
}

/// A store with personal items, an item of an organization, and some that cannot
/// be listed.
fn store() -> Json {
    let uk = user_key();
    let own = key_of(0x17);
    let org = org_key();
    let mut items: Vec<String> = Vec::new();
    items.push(format!(
        r#""1": {{"id": "one", "type": 1, "name": "{}", "folderId": "f1", "notes": "{}", "login": {{"username": "{}", "password": "{}", "totp": "{}", "uris": [{{"uri": "{}"}}, {{"uri": "x"}}]}}}}"#,
        enc(&uk, b"First"),
        enc(&uk, b"some notes"),
        enc(&uk, b"alice"),
        enc(&uk, b"secret1"),
        enc(&uk, TOTP_SECRET.as_bytes()),
        enc(&uk, b"https://one.example"),
    ));
    items.push(format!(
        r#""2": {{"id": "two", "type": 1, "key": "{}", "name": "{}", "login": {{"username": null, "password": "{}", "totp": "{}", "uris": []}}}}"#,
        enc(&uk, &own.to_bytes()),
        enc(&own, b"Second"),
        enc(&own, b"secret2"),
        enc(&own, b"otpauth://totp/x?secret=A&digits=12"),
    ));
    items.push(format!(
        r#""3": {{"id": "three", "type": 1, "organizationId": "o1", "name": "{}", "login": {{"password": "{}"}}}}"#,
        enc(&org, b"Third"),
        enc(&org, b"secret3"),
    ));
    items.push(r#""4": {"id": "four", "type": 1, "organizationId": "o2"}"#.to_string());
    items.push(r#""5": {"id": "five", "type": 2}"#.to_string());
    items.push(r#""6": {"type": 1}"#.to_string());
    items.push(format!(r#""7": {{"id": "seven", "type": 1, "key": "{}"}}"#, enc(&own, b"x")));
    items.push(format!(r#""8": {{"id": "eight", "type": 1, "key": "{}"}}"#, enc(&uk, b"short")));
    doc(&format!(
        r#"{{"user_u_ciphers_ciphers": {{{}}}, "user_u_folder_folders": {{"f1": {{"name": "{}"}}, "f2": {{"name": "2.bad"}}}}, "user_u_crypto_organizationKeys": {{"o1": {{"type": "organization", "key": "4.{WRAPPED_64}"}}, "o2": {{"key": "4.AAAA"}}}}, "user_u_crypto_privateKey": "{}"}}"#,
        items.join(", "),
        enc(&uk, b"Work"),
        enc(&uk, &B64.decode(PRIVATE_KEY).unwrap()),
    ))
}

fn get(data: &Json, id: &str, field: &str) -> String {
    match get_field_at(&user_key(), data, id, field, Ok(59)) {
        Ok(v) => v,
        Err(e) => format!("! {}", e.message()),
    }
}

#[test]
fn login_items_are_listed() {
    assert_eq!(
        ok(list_with_key(&user_key(), &store())),
        concat_lines(&[
            r#"{"folder":"Work","id":"one","name":"First","uri":"https://one.example","username":"alice"}"#,
            r#"{"folder":"","id":"two","name":"Second","uri":"","username":""}"#,
            r#"{"folder":"","id":"three","name":"Third","uri":"","username":""}"#,
        ])
    );
}

fn concat_lines(lines: &[&str]) -> String {
    format!("[{}]", lines.join(","))
}

#[test]
fn nothing_is_readable_with_another_key() {
    assert_eq!(
        ok(list_with_key(&key_of(1), &store())),
        concat_lines(&[r#"{"folder":"","id":"one","name":"","uri":"","username":""}"#])
    );
}

#[test]
fn store_without_items() {
    let e = match list_with_key(&user_key(), &doc("{}")) {
        Ok(_) => panic!("unexpected success"),
        Err(e) => e,
    };
    assert_eq!(
        e.message(),
        "no items found in the vault — open the Bitwarden desktop app and let it sync"
    );
    assert_eq!(ok(list_with_key(&user_key(), &doc(r#"{"x_ciphers_ciphers": null}"#))), "[]");
    assert_eq!(ok(list_with_key(&user_key(), &doc(r#"{"_ciphers_ciphers": {}}"#))), "[]");
    assert!(list_with_key(&user_key(), &doc("[]")).is_err());
}

#[test]
fn account_key_below_the_cryptographic_state() {
    let data = doc(&format!(
        r#"{{"a_ciphers_ciphers": {{"3": {{"id": "three", "organizationId": "o1", "notes": "{}"}}}}, "a_crypto_accountCryptographicState": {{"V1": {{"private_key": "{}"}}}}, "a_crypto_organizationKeys": {{"o1": {{"key": "4.{WRAPPED_64}"}}}}, "a_crypto_privateKey": "2.bad"}}"#,
        enc(&org_key(), b"deep"),
        enc(&user_key(), &B64.decode(PRIVATE_KEY).unwrap()),
    ));
    assert_eq!(get(&data, "three", "notes"), "deep");
}

#[test]
fn fields_are_read() {
    let data = store();
    assert_eq!(get(&data, "one", "password"), "secret1");
    assert_eq!(get(&data, "one", "username"), "alice");
    assert_eq!(get(&data, "one", "uri"), "https://one.example");
    assert_eq!(get(&data, "one", "notes"), "some notes");
    assert_eq!(get(&data, "one", "totp"), "287082");
    assert_eq!(get(&data, "two", "password"), "secret2");
    assert_eq!(get(&data, "three", "password"), "secret3");
}

#[test]
fn fields_that_cannot_be_read() {
    let data = store();
    assert_eq!(get(&data, "nine", "password"), "! item nine not found");
    assert_eq!(get(&data, "four", "password"), "! missing organization key for this item");
    assert_eq!(get(&data, "one", "pin"), "! unknown field: pin");
    assert_eq!(get(&data, "two", "username"), "! item has no username");
    assert_eq!(get(&data, "two", "uri"), "! item has no uri");
    assert_eq!(get(&data, "five", "notes"), "! item has no notes");
    assert_eq!(get(&data, "two", "totp"), "! unusable TOTP digits or period");
    assert_eq!(
        get(&data, "seven", "password"),
        "! decrypting item key: EncString MAC verification failed"
    );
    assert_eq!(
        get(&data, "eight", "password"),
        "! expected a 64-byte symmetric key, got 5 bytes"
    );
    assert!(get(&doc("{}"), "one", "password").starts_with("! no items found"));
}

#[test]
fn fields_are_read_now() {
    let data = store();
    assert_eq!(ok(get_field_with_key(&user_key(), &data, "one", "password")), "secret1");
    assert_eq!(ok(get_field_with_key(&user_key(), &data, "one", "totp")).len(), 6);
}

#[test]
fn account_to_unlock() {
    let a = "aaaaaaaa-aaaa-aaaa-aaaa-aaaaaaaaaaaa";
    let b = "bbbbbbbb-bbbb-bbbb-bbbb-bbbbbbbbbbbb";
    let c = "cccccccc-cccc-cccc-cccc-cccccccccccc";
    let active = Some(format!(r#"{{"global_account_activeAccountId": "{a}", "activeUserId": "{b}", "{c}": 1}}"#));
    let older = Some(format!(r#"{{"global_account_activeAccountId": "no", "activeUserId": "{b}", "{c}": 1}}"#));
    let keyed = Some(format!(r#"{{"{c}": 1, "zzz": 2}}"#));
    let broken = Some("{".to_string());
    let id = |chosen: Option<&str>, stores: Vec<Option<String>>| match desktop_user_id(chosen, &stores) {
        Ok(s) => s,
        Err(e) => format!("! {}", e.message()),
    };
    assert_eq!(id(Some("mine"), vec![active.clone()]), "mine");
    assert_eq!(id(Some(""), vec![active.clone()]), a);
    assert_eq!(id(None, vec![older.clone()]), b);
    assert_eq!(id(None, vec![keyed.clone()]), c);
    assert_eq!(id(None, vec![None, broken.clone(), keyed.clone(), active.clone()]), c);
    let none = "! could not determine the desktop app's userId — set BW_WEZ_USER_ID to your account GUID";
    assert_eq!(id(None, vec![]), none);
    assert_eq!(id(None, vec![None, broken, Some("[]".to_string())]), none);
}

fn request(cmd: &str) -> Request {
    Request::new(cmd)
}

fn reply(n: Next) -> (Response, ConnOutcome) {
    match n {
        Next::Reply(r, o) => (r, o),
        _ => panic!("no reply"),
    }
}

/// What the agent answers to a request that it can answer at once.
fn answer(state: &mut State, cmd: &str) -> (bool, String, bool) {
    let (next, _) = state.process(&request(cmd), 0);
    let (r, o) = reply(next);
    (r.ok, r.data.or(r.error).unwrap_or_default(), o == ConnOutcome::Stop)
}

fn unlocked(now: u128) -> State {
    let mut state = State::new();
    let (next, gone) = state.process(&request("unlock"), now);
    assert!(matches!(next, Next::ObtainKey(Pending::Unlock)));
    assert!(gone.is_none());
    let (next, gone) = state.on_key(Pending::Unlock, Ok(user_key()), now);
    let (r, o) = reply(next);
    assert!(r.ok && o == ConnOutcome::Continue && gone.is_none());
    assert_eq!(r.data.as_deref(), Some("unlocked"));
    state
}

#[test]
fn status_tells_the_truth() {
    let mut state = State::new();
    assert!(!state.is_unlocked());
    assert_eq!(answer(&mut state, "status"), (true, "locked".to_string(), false));
    let mut state = unlocked(0);
    assert!(state.is_unlocked());
    assert_eq!(answer(&mut state, "status"), (true, "unlocked".to_string(), false));
    assert_eq!(state.key_bytes(), Some(&[0x42u8; 64][..]));
}

#[test]
fn locking_hands_the_key_out() {
    let mut state = unlocked(0);
    let (next, gone) = state.process(&request("lock"), 5);
    let (r, _) = reply(next);
    assert_eq!(r.data.as_deref(), Some("locked"));
    assert_eq!(gone.map(|h| h.into_bytes()), Some(vec![0x42u8; 64]));
    assert!(!state.is_unlocked() && state.key_bytes().is_none());
    assert_eq!(answer(&mut state, "lock"), (true, "locked".to_string(), false));
}

#[test]
fn stopping_ends_the_agent() {
    assert_eq!(answer(&mut State::new(), "stop"), (true, "stopped".to_string(), true));
    assert_eq!(answer(&mut unlocked(0), "stop"), (true, "stopped".to_string(), true));
}

#[test]
fn unknown_commands_change_nothing() {
    let mut state = unlocked(0);
    assert_eq!(answer(&mut state, "dance"), (false, "unknown command: dance".to_string(), false));
    assert!(state.is_unlocked());
    assert_eq!(Response::bad_request("eof".to_string()).error.as_deref(), Some("bad request: eof"));
}

#[test]
fn failed_unlock_leaves_the_agent_usable() {
    let mut state = State::new();
    let e = Failure::Context("biometric unlock".to_string(), Box::new(Failure::TimedOut));
    let (next, gone) = state.on_key(Pending::List, Err(e), 3);
    let (r, o) = reply(next);
    assert!(!r.ok && o == ConnOutcome::Continue && gone.is_none());
    assert_eq!(r.error.as_deref(), Some("biometric unlock: timed out waiting for a reply"));
    assert_eq!(answer(&mut state, "status"), (true, "locked".to_string(), false));
    assert_eq!(answer(&mut state, "stop"), (true, "stopped".to_string(), true));
}

#[test]
fn a_new_key_replaces_the_old() {
    let mut state = unlocked(0);
    let (_, gone) = state.on_key(Pending::Unlock, Ok(key_of(1)), 9);
    assert_eq!(gone.map(|h| h.into_bytes()), Some(vec![0x42u8; 64]));
    assert_eq!(state.key_bytes(), Some(&[1u8; 64][..]));
}

#[test]
fn idle_key_is_dropped_after_the_timeout() {
    let second = 1_000_000_000u128;
    let mut state = unlocked(10 * second);
    assert!(state.reap(10 * second + 900 * second, 900).is_none());
    assert!(state.reap(5 * second, 900).is_none());
    assert!(state.is_unlocked());
    let gone = state.reap(10 * second + 900 * second + 1, 900);
    assert_eq!(gone.map(|h| h.into_bytes()), Some(vec![0x42u8; 64]));
    assert!(!state.is_unlocked());
    assert!(state.reap(u128::MAX, 0).is_none());
}

#[test]
fn use_puts_the_timeout_off() {
    let second = 1_000_000_000u128;
    let mut state = unlocked(0);
    let (next, _) = state.process(&request("list"), 800 * second);
    assert!(matches!(next, Next::ReadVault(Pending::List, _)));
    assert!(state.reap(1700 * second, 900).is_none());
    let (_, _) = state.process(&request("status"), 1700 * second);
    assert!(state.reap(1700 * second + 1, 900).is_some());
}

#[test]
fn requests_with_the_vault() {
    let mut state = unlocked(0);
    let mut r = request("get");
    r.id = Some("one".to_string());
    let (next, _) = state.process(&r, 1);
    let (pending, key) = match next {
        Next::ReadVault(p, k) => (p, k),
        _ => panic!("no reading"),
    };
    assert!(matches!(&pending, Pending::Get(id, field) if id == "one" && field == "password"));
    let (a, o) = on_vault(&pending, &key, Ok(store()), Ok(0));
    assert_eq!((a.ok, a.data.as_deref()), (true, Some("secret1")));
    assert!(o == ConnOutcome::Continue);
    let (a, _) = on_vault(&pending, &key, Err(Failure::NoVault), Ok(0));
    assert!(a.error.unwrap().starts_with("could not find the Bitwarden desktop app's vault on disk"));

    r.field = Some("totp".to_string());
    let (next, _) = state.process(&r, 1);
    let (pending, key) = match next {
        Next::ReadVault(p, k) => (p, k),
        _ => panic!("no reading"),
    };
    let (a, _) = on_vault(&pending, &key, Ok(store()), Ok(59));
    assert_eq!(a.data.as_deref(), Some("287082"));
    let (a, _) = on_vault(&pending, &key, Ok(store()), Err(Failure::Clock("backwards".to_string())));
    assert_eq!(a.error.as_deref(), Some("backwards"));

    let (a, _) = on_vault(&Pending::List, &key, Ok(store()), Ok(0));
    assert_eq!(a.data, Some(ok(list_with_key(&user_key(), &store()))));
    let (a, _) = on_vault(&Pending::List, &key, Ok(doc("{}")), Ok(0));
    assert!(!a.ok);
}

#[test]
fn locked_agent_obtains_the_key_first() {
    let mut state = State::new();
    let mut r = request("get");
    r.field = Some("uri".to_string());
    let (next, _) = state.process(&r, 1);
    let pending = match next {
        Next::ObtainKey(p) => p,
        _ => panic!("no unlock"),
    };
    assert!(matches!(&pending, Pending::Get(id, field) if id.is_empty() && field == "uri"));
    let (next, _) = state.on_key(pending, Ok(user_key()), 2);
    assert!(matches!(next, Next::ReadVault(Pending::Get(_, _), _)));
    assert!(state.is_unlocked());
}

#[test]
fn holder_keeps_the_bytes() {
    let h = KeyHolder::new(&user_key(), 1);
    assert_eq!(h.bytes(), &[0x42u8; 64][..]);
    assert_eq!(h.into_bytes(), vec![0x42u8; 64]);
}

#[test]
fn list_is_read_back() {
    let text = ok(list_with_key(&user_key(), &store()));
    match doc(&text) {
        Json::Array(lines) => {
            let ids: Vec<Option<&str>> = lines.iter().map(|l| l.text("id")).collect();
            assert_eq!(ids, vec![Some("one"), Some("two"), Some("three")]);
        }
        _ => panic!("no list"),
    }
}

#[test]
fn account_in_a_store() {
    let a = "aaaaaaaa-aaaa-aaaa-aaaa-aaaaaaaaaaaa";
    assert_eq!(find_account(&doc(&format!(r#"{{"activeUserId": "{a}"}}"#))), Some(a.to_string()));
    assert_eq!(find_account(&doc(&format!(r#"{{"{a}": 1}}"#))), Some(a.to_string()));
    assert_eq!(find_account(&doc(r#"{"activeUserId": "none"}"#)), None);
}
