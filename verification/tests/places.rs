use bw_wez::clock::{millis, now_ms, now_secs, seconds};
use bw_wez::cli::{render, Command, Field, Output};
use bw_wez::agent::{next_try, Response};
use bw_wez::error::Failure;
use bw_wez::locations::{
    agent_socket, choose_existing, data_override, desktop_data_candidates, desktop_data_path, idle_timeout,
    proxy_candidates, socket_candidates, vault_data_path, Location,
};
use bw_wez::text::{is_guid, is_white_space, split, strip_prefix, trim};
use bw_wez::transport::{
    connect_with_timeout, fallback, first_transport, poll_readable, poll_timeout, socket_failure, TransportKind,
};

fn show(l: &Location) -> String {
    match l {
        Location::Given(p) => p.clone(),
        Location::UnderHome(p) => format!("~/{p}"),
        Location::UnderCache(p) => format!("cache/{p}"),
    }
}

fn show_all(list: Vec<Location>) -> Vec<String> {
    list.iter().map(show).collect()
}

#[test]
fn sockets_to_try() {
    assert_eq!(
        show_all(socket_candidates(None)),
        vec![
            "~/Library/Group Containers/LTZ2PFU5D6.com.bitwarden.desktop/s.bw",
            "~/Library/Caches/com.bitwarden.desktop/s.bw",
        ]
    );
    assert_eq!(show_all(socket_candidates(Some("/tmp/s"))), vec!["/tmp/s"]);
    assert_eq!(show_all(socket_candidates(Some(""))), vec![""]);
}

#[test]
fn proxies_to_try() {
    let usual = vec![
        "/Applications/Bitwarden.app/Contents/MacOS/desktop_proxy",
        "/opt/Bitwarden/desktop_proxy",
    ];
    assert_eq!(show_all(proxy_candidates(None)), usual);
    let mut all = vec!["/tmp/proxy"];
    all.extend(usual);
    assert_eq!(show_all(proxy_candidates(Some("/tmp/proxy"))), all);
    let list = proxy_candidates(Some("/tmp/proxy"));
    let pick = |exists: Vec<bool>| choose_existing(&list, &exists).map(|l| show(&l));
    assert_eq!(pick(vec![false, false, true]), Some("/opt/Bitwarden/desktop_proxy".to_string()));
    assert_eq!(pick(vec![true, true, true]), Some("/tmp/proxy".to_string()));
    assert_eq!(pick(vec![false, false, false]), None);
}

#[test]
fn vault_store() {
    let usual = show_all(desktop_data_candidates());
    assert_eq!(
        usual,
        vec![
            "~/Library/Containers/com.bitwarden.desktop/Data/Library/Application Support/Bitwarden/data.json",
            "~/Library/Application Support/Bitwarden/data.json",
        ]
    );
    let at = |chosen: Option<&str>, exists: Vec<bool>| {
        vault_data_path(chosen, None, None, &exists).map(|l| show(&l))
    };
    assert_eq!(at(Some("/tmp/d.json"), vec![true, true]), Some("/tmp/d.json".to_string()));
    assert_eq!(at(Some(""), vec![false, true]), Some(usual[1].clone()));
    assert_eq!(at(None, vec![true, true]), Some(usual[0].clone()));
    assert_eq!(at(None, vec![false, false]), None);
    assert_eq!(desktop_data_path(&vec![false, true]).map(|l| show(&l)), Some(usual[1].clone()));
}

#[test]
fn agent_settings() {
    assert_eq!(show(&agent_socket(None)), "cache/bw-wez/agent.sock");
    assert_eq!(show(&agent_socket(Some("/tmp/a.sock"))), "/tmp/a.sock");
    assert_eq!(idle_timeout(None), 900);
    assert_eq!(idle_timeout(Some("60")), 60);
    assert_eq!(idle_timeout(Some("0")), 0);
    assert_eq!(idle_timeout(Some("soon")), 900);
    assert_eq!(idle_timeout(Some("")), 900);
    assert_eq!(idle_timeout(Some("-1")), 900);
    assert_eq!(idle_timeout(Some("18446744073709551615")), u64::MAX);
    assert_eq!(idle_timeout(Some("18446744073709551616")), 900);
}

#[test]
fn socket_comes_before_proxy() {
    assert_eq!(first_transport(), TransportKind::DirectSocket);
    assert_eq!(fallback(TransportKind::DirectSocket), Some(TransportKind::NativeMessaging));
    assert_eq!(fallback(TransportKind::NativeMessaging), None);
    assert_eq!(socket_failure(None).message(), "no IPC socket candidates available");
    assert_eq!(socket_failure(Some(Failure::TimedOut)).message(), "timed out waiting for a reply");
}

#[test]
fn poll_verdicts() {
    assert_eq!(poll_timeout(5000), 5000);
    assert_eq!(poll_timeout(u128::MAX), i32::MAX);
    let said = |rc: i32, events: i16| match poll_readable(rc, events, 0x38, "Interrupted") {
        Ok(()) => "ready".to_string(),
        Err(e) => e.message(),
    };
    assert_eq!(said(1, 1), "ready");
    assert_eq!(said(0, 0), "timed out waiting for a reply");
    assert_eq!(said(-1, 0), "poll: Interrupted");
    assert_eq!(said(1, 0x11), "connection closed");
    assert_eq!(said(1, 0x20), "connection closed");
}

#[test]
fn connect_verdicts() {
    let said = |rc: i32, events: i16| {
        match connect_with_timeout(rc, events, 0x18, 5, "Interrupted", "connection refused") {
            Ok(()) => "connected".to_string(),
            Err(e) => e.message(),
        }
    };
    assert_eq!(said(1, 4), "connected");
    assert_eq!(said(0, 0), "connection to IPC socket timed out after 5s");
    assert_eq!(said(-1, 0), "poll during socket connect: Interrupted");
    assert_eq!(said(1, 8), "IPC socket connect failed: connection refused");
}

#[test]
fn white_space_is_unicode_s() {
    for u in 0..=0x10ffffu32 {
        if let Some(c) = char::from_u32(u) {
            assert_eq!(is_white_space(c), c.is_whitespace(), "{u:x}");
        }
    }
}

#[test]
fn text_operations() {
    for s in ["", " ", " a b ", "\u{2003}x\u{85}", "x", "\n\n"] {
        assert_eq!(trim(s), s.trim());
    }
    for s in ["", "|", "a|b", "|a||b|", "plain"] {
        let want: Vec<&str> = s.split('|').collect();
        assert_eq!(split(s, '|'), want);
    }
    assert_eq!(strip_prefix("2.abc", "2."), Some("abc".to_string()));
    assert_eq!(strip_prefix("2", "2."), None);
    assert_eq!(strip_prefix("4.abc", "2."), None);
}

#[test]
fn guids() {
    assert!(is_guid("00000000-0000-0000-0000-000000000000"));
    assert!(is_guid("0A1b2C3d-ffff-EEEE-0000-0123456789ab"));
    assert!(is_guid("-A1b2C3d-ffff-EEEE-0000-0123456789a-"));
    assert!(!is_guid("00000000-0000-0000-0000-00000000000"));
    assert!(!is_guid("00000000-0000-0000-0000-00000000000g"));
    assert!(!is_guid("000000000000000000000000000000000000"));
    assert!(!is_guid("00000000-0000-0000-0000-0000000000é"));
    assert!(!is_guid(""));
}

#[test]
fn field_names() {
    assert_eq!(Field::Password.as_str(), "password");
    assert_eq!(Field::Username.as_str(), "username");
    assert_eq!(Field::Totp.as_str(), "totp");
    assert_eq!(Field::Uri.as_str(), "uri");
    assert_eq!(Field::Notes.as_str(), "notes");
}

#[test]
fn commands_become_requests() {
    let get = Command::Get("x".to_string(), Field::Totp);
    let r = get.request();
    assert_eq!(r.cmd, "get");
    assert_eq!(r.id.as_deref(), Some("x"));
    assert_eq!(r.field.as_deref(), Some("totp"));
    assert!(get.spawns_agent());
    for (command, word, spawns) in [
        (Command::Status, "status", true),
        (Command::List, "list", true),
        (Command::Unlock, "unlock", true),
        (Command::Lock, "lock", false),
        (Command::Stop, "stop", false),
    ] {
        let r = command.request();
        assert_eq!(r.cmd, word);
        assert!(r.id.is_none() && r.field.is_none());
        assert_eq!(command.spawns_agent(), spawns);
    }
}

fn line(o: Output) -> (String, i32) {
    let code = o.exit_code();
    let text = match o {
        Output::Status(s) => format!("{}/{}", s.status, s.message.unwrap_or_default()),
        Output::Line(t) => t,
        Output::Complaint(t) => format!("! {t}"),
    };
    (text, code)
}

#[test]
fn outcomes_are_rendered() {
    let yes = |s: &str| Ok(Response::ok(Some(s.to_string())));
    let no = || Ok(Response::err(&Failure::Other("no luck".to_string())));
    let get = Command::Get("x".to_string(), Field::Password);
    assert_eq!(line(render(&Command::Status, yes("locked"))), ("locked/".to_string(), 0));
    assert_eq!(line(render(&Command::Status, no())), ("error/no luck".to_string(), 0));
    assert_eq!(
        line(render(&Command::Status, Err(Failure::AgentNotStarted))),
        ("error/agent did not start within 5s".to_string(), 0)
    );
    assert_eq!(line(render(&Command::Unlock, yes("unlocked"))), ("unlocked/".to_string(), 0));
    assert_eq!(line(render(&Command::Unlock, no())), ("! no luck".to_string(), 1));
    assert_eq!(line(render(&Command::List, yes("[]"))), ("[]".to_string(), 0));
    assert_eq!(line(render(&get, yes("secret"))), ("secret".to_string(), 0));
    assert_eq!(line(render(&get, no())), ("! no luck".to_string(), 1));
    assert_eq!(line(render(&Command::Lock, yes("locked"))), ("locked/".to_string(), 0));
    assert_eq!(line(render(&Command::Stop, yes("stopped"))), ("stopped/".to_string(), 0));
    assert_eq!(
        line(render(&Command::Stop, Err(Failure::AgentNotRunning))),
        ("! agent is not running".to_string(), 1)
    );
    assert_eq!(line(render(&Command::List, Ok(Response::ok(None)))), (String::new(), 0));
    let chain = || Failure::Context("outer".to_string(), Box::new(Failure::TimedOut));
    assert_eq!(line(render(&Command::List, Err(chain()))), ("! outer".to_string(), 1));
    assert_eq!(line(render(&Command::Status, Err(chain()))), ("error/outer".to_string(), 0));
    assert_eq!(
        line(render(&Command::List, Ok(Response::err(&chain())))),
        ("! outer: timed out waiting for a reply".to_string(), 1)
    );
}

#[test]
fn errors_tell_their_causes() {
    let e = Failure::Context(
        "outer".to_string(),
        Box::new(Failure::Context("inner".to_string(), Box::new(Failure::KeyLength(12)))),
    );
    assert_eq!(e.message(), "outer: inner: expected a 64-byte symmetric key, got 12 bytes");
    assert_eq!(
        Failure::WrongUserId("u".to_string()).message(),
        "the desktop app is not logged into userId u (try setting BW_WEZ_USER_ID)"
    );
    assert_eq!(Failure::<String>::MessageTooLarge.message(), "message too large: out of range integral type conversion attempted");
    assert_eq!(Failure::<String>::MessageTooLarge.headline(), "message too large");
    assert_eq!(Failure::NotUtf8("x".to_string()).headline(), "decrypted value was not valid UTF-8");
    assert_eq!(e.headline(), "outer");
    assert_eq!(Failure::<String>::KeyLength(1).headline(), Failure::<String>::KeyLength(1).message());
    assert_eq!(Failure::ItemNotFound("7".to_string()).message(), "item 7 not found");
    assert_eq!(Failure::NoField("uri".to_string()).message(), "item has no uri");
    assert_eq!(
        Failure::<String>::NoUserId.message(),
        "could not determine the desktop app's userId — set BW_WEZ_USER_ID to your account GUID"
    );
}

#[test]
fn clock_readings_are_converted() {
    let secs = |r: Result<u128, String>| match seconds(r) {
        Ok(n) => Ok(n),
        Err(e) => Err(e.message()),
    };
    assert_eq!(secs(Ok(59_999_999_999)), Ok(59));
    assert_eq!(secs(Ok(60_000_000_000)), Ok(60));
    assert_eq!(secs(Err("backwards".to_string())), Err("backwards".to_string()));
    assert_eq!(millis(Ok(1_700_000_000_123_999_999)), 1_700_000_000_123);
    assert_eq!(millis(Err("backwards".to_string())), 0);
    let now = std::time::SystemTime::now().duration_since(std::time::UNIX_EPOCH).unwrap();
    let seen = match now_secs() {
        Ok(n) => n,
        Err(e) => panic!("{}", e.message()),
    };
    assert!(seen >= now.as_secs() && seen < now.as_secs() + 1000);
    assert!(now_ms() >= now.as_millis() as i64);
}

#[test]
fn vault_store_overrides() {
    let both = vec![true, true];
    let at = |own: Option<&str>, bw: Option<&str>, dir: Option<&str>| {
        vault_data_path(own, bw, dir, &both).map(|l| show(&l))
    };
    let path = |p: &str| Some(p.to_string());
    assert_eq!(at(None, Some("/tmp/d/data.json"), None), path("/tmp/d/data.json"));
    assert_eq!(at(Some("/own"), Some("/bw"), Some("/dir")), path("/own"));
    assert_eq!(at(Some(""), Some("/bw"), Some("/dir")), path("/bw"));
    assert_eq!(at(None, None, Some("/dir")), path("/dir/data.json"));
    assert_eq!(at(None, Some(""), Some("")), Some(show_all(desktop_data_candidates())[0].clone()));
    assert_eq!(data_override(None, Some("/bw"), None), path("/bw"));
    assert_eq!(data_override(None, None, None), None);
}

#[test]
fn new_agent_is_waited_for_five_seconds() {
    let mut tries = 0u32;
    let mut waited = 0u64;
    let e = loop {
        match next_try(tries) {
            Ok(pause) => waited += pause,
            Err(e) => break e,
        }
        tries += 1;
    };
    assert_eq!((tries, waited), (100, 5000));
    assert_eq!(e.message(), "agent did not start within 5s");
}
