use mc_server_manager::properties::{
    default_properties, escape_single_quotes, load_server_properties_str, properties_path,
    read_outcome, read_properties_command, serialize_server_properties, write_outcome,
    write_properties_command, ServerProperties, SettingsError,
};

fn props(pairs: &[(&str, &str)]) -> ServerProperties {
    let mut p = ServerProperties::new();
    for (k, v) in pairs {
        p.insert(k.to_string(), v.to_string());
    }
    p
}

fn get(p: &ServerProperties, k: &str) -> Option<String> {
    p.get(k)
}

#[test]
fn load_reads_key_value_lines() {
    let p = load_server_properties_str("server-port=25565\nmotd=Hello World\n");
    assert_eq!(p.len(), 2);
    assert_eq!(get(&p, "server-port"), Some("25565".to_string()));
    assert_eq!(get(&p, "motd"), Some("Hello World".to_string()));
}

#[test]
fn load_skips_comments_blank_lines_and_lines_without_equals() {
    let text = "#Minecraft server properties\n\n   \n  # indented comment\nno equals here\npvp=true\n";
    let p = load_server_properties_str(text);
    assert_eq!(p.len(), 1);
    assert_eq!(get(&p, "pvp"), Some("true".to_string()));
}

#[test]
fn load_trims_keys_and_values_and_splits_at_first_equals() {
    let p = load_server_properties_str("  level-seed =  a=b=c  \r\nkey=\n");
    assert_eq!(get(&p, "level-seed"), Some("a=b=c".to_string()));
    assert_eq!(get(&p, "key"), Some("".to_string()));
    assert_eq!(p.len(), 2);
}

#[test]
fn load_later_line_wins() {
    let p = load_server_properties_str("a=1\nb=2\na=3");
    assert_eq!(p.len(), 2);
    assert_eq!(get(&p, "a"), Some("3".to_string()));
}

#[test]
fn load_empty_text() {
    let p = load_server_properties_str("");
    assert_eq!(p.len(), 0);
    assert_eq!(get(&p, "a"), None);
}

#[test]
fn insert_replaces_and_get_misses() {
    let mut p = ServerProperties::new();
    p.insert("a".to_string(), "1".to_string());
    p.insert("a".to_string(), "2".to_string());
    assert_eq!(p.len(), 1);
    assert_eq!(get(&p, "a"), Some("2".to_string()));
    assert_eq!(get(&p, "b"), None);
    assert_eq!(p.pairs(), vec![("a".to_string(), "2".to_string())]);
}

#[test]
fn serialize_sorts_lines_and_ends_with_newline() {
    let p = props(&[("pvp", "true"), ("motd", "hi"), ("max-players", "20")]);
    assert_eq!(serialize_server_properties(&p), "max-players=20\nmotd=hi\npvp=true\n");
}

#[test]
fn serialize_empty_is_one_newline() {
    assert_eq!(serialize_server_properties(&ServerProperties::new()), "\n");
}

#[test]
fn serialize_orders_as_string_order() {
    let p = props(&[("b", "1"), ("B", "1"), ("a-b", "1"), ("a", "2"), ("é", "x")]);
    let mut expected: Vec<String> =
        vec!["b=1", "B=1", "a-b=1", "a=2", "é=x"].into_iter().map(String::from).collect();
    expected.sort();
    let text = expected.join("\n") + "\n";
    assert_eq!(serialize_server_properties(&p), text);
}

#[test]
fn load_after_serialize_gives_back_the_properties() {
    let p = props(&[("server-port", "25565"), ("motd", "A Minecraft Server"), ("x", ""), ("a.b", "c=d")]);
    let q = load_server_properties_str(&serialize_server_properties(&p));
    assert_eq!(q.len(), p.len());
    for (k, v) in p.pairs() {
        assert_eq!(q.get(&k), Some(v));
    }
}

#[test]
fn default_properties_hold_the_ten_defaults() {
    let d = default_properties();
    assert_eq!(d.len(), 10);
    assert_eq!(
        serialize_server_properties(&d),
        "difficulty=normal\ngamemode=survival\nlevel-name=world\nmax-players=20\nmotd=A Minecraft Server\nonline-mode=true\npvp=true\nserver-port=25565\nspawn-protection=16\nview-distance=10\n"
    );
}

#[test]
fn paths_and_read_command() {
    assert_eq!(properties_path("/srv/mc"), "/srv/mc/server.properties");
    assert_eq!(read_properties_command("/srv/mc"), "cat '/srv/mc/server.properties'");
}

#[test]
fn read_outcome_success_parses_output() {
    match read_outcome("a=1\n", "", 0) {
        Ok(p) => assert_eq!(p.get("a"), Some("1".to_string())),
        Err(_) => panic!("expected properties"),
    }
}

#[test]
fn read_outcome_not_found() {
    let e = read_outcome("", "cat: x: No such file or directory", 1).err().unwrap();
    assert!(matches!(e, SettingsError::NotFound));
    assert_eq!(e.message(), "server.properties not found");
    let e = read_outcome("", "permission denied", 1).err().unwrap();
    assert!(matches!(e, SettingsError::NotFound));
}

#[test]
fn read_outcome_other_failure() {
    let e = read_outcome("partial", "permission denied", 1).err().unwrap();
    assert_eq!(e.message(), "Failed to read server.properties: permission denied");
}

#[test]
fn escape_quotes() {
    assert_eq!(escape_single_quotes("it's"), "it'\\''s");
    assert_eq!(escape_single_quotes("plain"), "plain");
}

#[test]
fn write_command_escapes_backslashes_then_quotes() {
    let p = props(&[("motd", "it's a \\ test")]);
    assert_eq!(
        write_properties_command("/srv", &p),
        "printf '%s' 'motd=it'\\''s a \\\\ test\n' > '/srv/server.properties'"
    );
}

#[test]
fn write_outcome_reports_stderr() {
    assert!(write_outcome("", 0).is_ok());
    let e = write_outcome("disk full", 1).err().unwrap();
    assert_eq!(e.message(), "Failed to write server.properties: disk full");
}

#[test]
fn reload_after_save_gives_what_was_loaded() {
    let text = "# comment\n  b = 2 \r\nweird key = x = y\n#c=d\na=1\n\n=empty key\n b=3\n";
    let first = load_server_properties_str(text);
    let again = load_server_properties_str(&serialize_server_properties(&first));
    assert_eq!(again.len(), first.len());
    for (k, v) in first.pairs() {
        assert_eq!(again.get(&k), Some(v));
    }
    assert_eq!(first.get("b"), Some("3".to_string()));
    assert_eq!(first.get("weird key"), Some("x = y".to_string()));
    assert_eq!(first.get(""), Some("empty key".to_string()));
}

#[test]
fn escaped_quotes_read_back_between_quotes() {
    for s in ["it's", "''", "a'b'c", "no quotes", "'\\''"] {
        let e = escape_single_quotes(s);
        let mut out = String::new();
        let mut rest = e.as_str();
        while let Some(i) = rest.find("'\\''") {
            out.push_str(&rest[..i]);
            out.push('\'');
            rest = &rest[i + 4..];
        }
        out.push_str(rest);
        assert_eq!(out, s);
    }
}

#[test]
fn load_of_joined_text_overrides_first_with_second() {
    let a = "a=1\nb=2\r";
    let b = "# c\nb=3\nc=4";
    let joined = load_server_properties_str(&format!("{}\n{}", a, b));
    let mut expected: std::collections::HashMap<String, String> =
        load_server_properties_str(a).pairs().into_iter().collect();
    expected.extend(load_server_properties_str(b).pairs());
    let got: std::collections::HashMap<String, String> = joined.pairs().into_iter().collect();
    assert_eq!(got, expected);
}

#[test]
fn serialized_text_does_not_depend_on_insertion_order() {
    let p1 = props(&[("a", "1"), ("b", "2"), ("a=b", "c"), ("a", "b=c")]);
    let p2 = props(&[("a", "b=c"), ("a=b", "c"), ("b", "2")]);
    assert_eq!(serialize_server_properties(&p1), serialize_server_properties(&p2));
}

/// What the shell and `printf '%s'` store for a write command.
fn stored_by(cmd: &str) -> String {
    let quoted = cmd.strip_prefix("printf '%s' '").unwrap();
    let end = quoted.rfind("' > '").unwrap();
    quoted[..end].replace("'\\''", "'")
}

#[test]
fn saved_settings_read_back() {
    let p = props(&[("motd", "it's fine"), ("pvp", "true"), ("level-name", "my world")]);
    let stored = stored_by(&write_properties_command("/srv", &p));
    let q = load_server_properties_str(&stored);
    assert_eq!(q.len(), p.len());
    for (k, v) in p.pairs() {
        assert_eq!(q.get(&k), Some(v));
    }
}

#[test]
fn saved_backslashes_come_back_doubled() {
    let p = props(&[("motd", "a\\b")]);
    let stored = stored_by(&write_properties_command("/srv", &p));
    assert_eq!(stored, "motd=a\\\\b\n");
}
