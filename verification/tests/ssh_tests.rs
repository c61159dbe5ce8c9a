use mc_server_manager::ssh::{
    auth_outcome, auth_plan, ssh_address, tmux_send_keys_command, AuthPlan, ChannelEvent,
    ConnectError, ExecCollector, SshCredentials,
};

fn creds(method: &str, password: Option<&str>, key: Option<&str>) -> SshCredentials {
    SshCredentials {
        host: "example.org".to_string(),
        port: 22,
        username: "steve".to_string(),
        auth_method: method.to_string(),
        password: password.map(String::from),
        key_path: key.map(String::from),
    }
}

#[test]
fn address_joins_host_and_port() {
    assert_eq!(ssh_address("example.org", 2222), "example.org:2222");
}

#[test]
fn password_plan() {
    match auth_plan(creds("password", Some("pw"), None)) {
        Ok(AuthPlan::Password { username, password }) => {
            assert_eq!(username, "steve");
            assert_eq!(password, "pw");
        }
        _ => panic!("expected a password plan"),
    }
    let e = auth_plan(creds("password", None, Some("/k"))).err().unwrap();
    assert_eq!(e.message(), "No password provided");
}

#[test]
fn key_plan() {
    match auth_plan(creds("key", None, Some("/home/steve/.ssh/id_ed25519"))) {
        Ok(AuthPlan::Key { username, key_path }) => {
            assert_eq!(username, "steve");
            assert_eq!(key_path, "/home/steve/.ssh/id_ed25519");
        }
        _ => panic!("expected a key plan"),
    }
    let e = auth_plan(creds("key", Some("pw"), None)).err().unwrap();
    assert_eq!(e.message(), "No key path provided");
}

#[test]
fn unknown_method() {
    let e = auth_plan(creds("kerberos", Some("pw"), None)).err().unwrap();
    assert_eq!(e.message(), "Unknown auth method: kerberos");
}

#[test]
fn auth_outcome_and_messages() {
    assert!(auth_outcome(true).is_ok());
    assert_eq!(auth_outcome(false).err().unwrap().message(), "Authentication failed — check credentials");
    assert_eq!(ConnectError::TimedOut.message(), "Connection timed out after 10 seconds");
    assert_eq!(ConnectError::ConnectFailed("refused".into()).message(), "SSH connect failed: refused");
    assert_eq!(ConnectError::KeyLoadFailed("bad".into()).message(), "Failed to load key: bad");
}

#[test]
fn tmux_command_escapes_quotes() {
    assert_eq!(
        tmux_send_keys_command("mc", "say it's on"),
        "tmux send-keys -t mc 'say it'\\''s on' Enter"
    );
}

#[test]
fn collector_gathers_until_close() {
    let mut c = ExecCollector::new();
    assert!(c.step(ChannelEvent::Data(b"hel".to_vec())));
    assert!(c.step(ChannelEvent::ExtendedData(b"warn".to_vec())));
    assert!(c.step(ChannelEvent::Other));
    assert!(c.step(ChannelEvent::Data(b"lo".to_vec())));
    assert!(c.step(ChannelEvent::ExitStatus(3)));
    assert!(!c.step(ChannelEvent::Closed));
    assert!(!c.step(ChannelEvent::Data(b"ignored".to_vec())));
    assert_eq!(c.into_output(), ("hello".to_string(), "warn".to_string(), 3));
}

#[test]
fn collector_keeps_exit_status_sent_after_eof() {
    let mut c = ExecCollector::new();
    assert!(c.step(ChannelEvent::Data(b"out".to_vec())));
    assert!(c.step(ChannelEvent::Eof));
    assert!(c.step(ChannelEvent::ExitStatus(2)));
    assert!(!c.step(ChannelEvent::Closed));
    assert_eq!(c.into_output(), ("out".to_string(), String::new(), 2));
}

#[test]
fn collector_defaults_to_code_zero_and_stops_on_close() {
    let mut c = ExecCollector::new();
    assert!(!c.step(ChannelEvent::Closed));
    assert!(!c.step(ChannelEvent::ExitStatus(9)));
    assert_eq!(c.into_output(), (String::new(), String::new(), 0));
}

#[test]
fn collector_decodes_utf8_and_replaces_invalid_bytes() {
    let mut c = ExecCollector::new();
    c.step(ChannelEvent::Data("héllo".as_bytes().to_vec()));
    c.step(ChannelEvent::ExtendedData(vec![b'a', 0xff, b'b']));
    let (out, err, _) = c.into_output();
    assert_eq!(out, "héllo");
    assert_eq!(err, "a\u{FFFD}b");
}

#[test]
fn collector_drops_output_after_eof() {
    let mut c = ExecCollector::new();
    assert!(c.step(ChannelEvent::Data(b"before".to_vec())));
    assert!(c.step(ChannelEvent::Eof));
    assert!(c.step(ChannelEvent::Data(b"a".to_vec())));
    assert!(c.step(ChannelEvent::ExtendedData(b"b".to_vec())));
    assert!(c.step(ChannelEvent::ExitStatus(1)));
    assert!(!c.step(ChannelEvent::Closed));
    assert_eq!(c.into_output(), ("before".to_string(), String::new(), 1));
}

#[test]
fn auth_failed_message_is_the_reason() {
    assert_eq!(ConnectError::AuthFailed("channel closed".into()).message(), "channel closed");
}
