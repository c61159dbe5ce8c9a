use mc_server_manager::versions::{
    base64_encode, command_output_logs, command_result, filter_versions, upload_chunk_report,
    upload_chunk_result, upload_plan, upload_progress, LogLevel, LogLine, McVersion,
};

fn v(id: &str, t: &str) -> McVersion {
    McVersion {
        id: id.to_string(),
        version_type: t.to_string(),
        url: format!("https://example.invalid/{}.json", id),
        release_time: "2024-01-01T00:00:00+00:00".to_string(),
    }
}

fn ids(vs: &[McVersion]) -> Vec<String> {
    vs.iter().map(|x| x.id.clone()).collect()
}

#[test]
fn filter_keeps_releases_in_order() {
    let all = vec![v("24w01a", "snapshot"), v("1.20.4", "release"), v("b1.7", "old_beta"), v("1.20.3", "release")];
    assert_eq!(ids(&filter_versions(all, false)), vec!["1.20.4", "1.20.3"]);
}

#[test]
fn filter_with_snapshots_keeps_all() {
    let all = vec![v("24w01a", "snapshot"), v("1.20.4", "release")];
    assert_eq!(ids(&filter_versions(all, true)), vec!["24w01a", "1.20.4"]);
}

#[test]
fn base64_rfc4648_vectors() {
    assert_eq!(base64_encode(b""), "");
    assert_eq!(base64_encode(b"f"), "Zg==");
    assert_eq!(base64_encode(b"fo"), "Zm8=");
    assert_eq!(base64_encode(b"foo"), "Zm9v");
    assert_eq!(base64_encode(b"foob"), "Zm9vYg==");
    assert_eq!(base64_encode(b"fooba"), "Zm9vYmE=");
    assert_eq!(base64_encode(b"foobar"), "Zm9vYmFy");
    assert_eq!(base64_encode(&[0xff, 0xfe, 0x00]), "//4A");
}

#[test]
fn upload_plan_splits_encoding_into_pieces() {
    let data = vec![7u8; 40_000];
    let plan = upload_plan(&data, "/srv/a.jar");
    assert_eq!(plan.truncate_command, "> '/srv/a.jar'");
    let b64 = base64_encode(&data);
    assert_eq!(b64.len(), 53_336);
    assert_eq!(plan.chunk_commands.len(), 2);
    assert_eq!(plan.chunk_commands[0], format!("echo '{}' | base64 -d >> '/srv/a.jar'", &b64[..50_000]));
    assert_eq!(plan.chunk_commands[1], format!("echo '{}' | base64 -d >> '/srv/a.jar'", &b64[50_000..]));
}

#[test]
fn upload_plan_of_nothing_only_truncates() {
    let plan = upload_plan(&[], "/x");
    assert!(plan.chunk_commands.is_empty());
}

#[test]
fn upload_results_and_progress() {
    assert!(upload_chunk_result("", 0).is_ok());
    assert_eq!(upload_chunk_result("boom", 2).err().unwrap(), "SFTP upload failed: boom");
    assert_eq!(upload_progress(0, 3), Some("Uploading... 1/3 chunks (33%)".to_string()));
    assert_eq!(upload_progress(1, 3), None);
    assert_eq!(upload_progress(2, 3), Some("Uploading... 3/3 chunks (100%)".to_string()));
    assert_eq!(upload_progress(10, 25), Some("Uploading... 11/25 chunks (44%)".to_string()));
}

fn texts(ls: &[LogLine]) -> Vec<(LogLevel, String)> {
    ls.iter().map(|l| (l.level, l.raw.clone())).collect()
}

#[test]
fn chunk_report_logs_trimmed_output_and_error() {
    let (logs, r) = upload_chunk_report(4, " done \n", "  ", 0);
    assert_eq!(texts(&logs), vec![(LogLevel::Info, "done".to_string())]);
    assert!(r.is_ok());
    let (logs, r) = upload_chunk_report(4, "", " bad \n", 3);
    assert_eq!(texts(&logs), vec![(LogLevel::Warn, "bad".to_string())]);
    assert_eq!(r.err().unwrap(), "Upload chunk 5 failed (exit 3):  bad \n");
}

#[test]
fn command_output_becomes_log_lines() {
    let logs = command_output_logs("a\n\n b\n", "warn\n  \n");
    assert_eq!(
        texts(&logs),
        vec![
            (LogLevel::Info, "a".to_string()),
            (LogLevel::Info, " b".to_string()),
            (LogLevel::Warn, "warn".to_string())
        ]
    );
    assert!(logs.iter().all(|l| l.timestamp.is_none()));
}

#[test]
fn command_result_names_code_and_command() {
    assert!(command_result(0, "ls").is_ok());
    assert_eq!(command_result(127, "ls").err().unwrap(), "Command exited with code 127: ls");
}

#[test]
fn log_line_new_has_no_timestamp() {
    let l = LogLine::new("x".to_string(), LogLevel::Other);
    assert_eq!(l.raw, "x");
    assert_eq!(l.level, LogLevel::Other);
    assert!(l.timestamp.is_none());
}

#[test]
fn base64_length_and_concatenation() {
    for n in 0..20usize {
        let d: Vec<u8> = (0..n as u8).collect();
        assert_eq!(base64_encode(&d).len(), 4 * ((n + 2) / 3));
    }
    let a = b"abcdef";
    let b = b"xy";
    let ab: Vec<u8> = a.iter().chain(b.iter()).copied().collect();
    assert_eq!(base64_encode(&ab), base64_encode(a) + &base64_encode(b));
}

#[test]
fn upload_pieces_put_back_together_give_the_encoding() {
    let data: Vec<u8> = (0..120_000u32).map(|i| (i % 251) as u8).collect();
    let plan = upload_plan(&data, "p");
    let b64 = base64_encode(&data);
    let mut joined = String::new();
    for (i, c) in plan.chunk_commands.iter().enumerate() {
        let piece = c.strip_prefix("echo '").unwrap().strip_suffix("' | base64 -d >> 'p'").unwrap();
        if i + 1 < plan.chunk_commands.len() {
            assert_eq!(piece.len(), 50_000);
        }
        joined.push_str(piece);
    }
    assert_eq!(joined, b64);
}

use mc_server_manager::versions::{Upload, UploadAction, UploadEvent};

fn ran(stdout: &str, stderr: &str, code: u32) -> UploadEvent {
    UploadEvent::Ran { stdout: stdout.to_string(), stderr: stderr.to_string(), code }
}

fn cmd_of(a: &UploadAction) -> String {
    match a {
        UploadAction::Run(c) => c.clone(),
        _ => panic!("expected a command"),
    }
}

#[test]
fn upload_runs_truncate_then_each_piece() {
    let data = vec![1u8; 40_000];
    let plan = upload_plan(&data, "/p");
    let (mut up, a) = Upload::start(&data, "/p", true);
    assert_eq!(cmd_of(&a), "> '/p'");
    let (logs, a) = up.step(ran("ignored", "", 5));
    assert_eq!(texts(&logs), vec![(LogLevel::Info, "Uploading... 1/2 chunks (50%)".to_string())]);
    assert_eq!(cmd_of(&a), plan.chunk_commands[0]);
    let (logs, a) = up.step(ran(" ok ", "", 0));
    assert_eq!(
        texts(&logs),
        vec![(LogLevel::Info, "ok".to_string()), (LogLevel::Info, "Uploading... 2/2 chunks (100%)".to_string())]
    );
    assert_eq!(cmd_of(&a), plan.chunk_commands[1]);
    let (logs, a) = up.step(ran("", "", 0));
    assert!(logs.is_empty());
    assert!(matches!(a, UploadAction::Done));
    assert!(up.is_finished());
}

#[test]
fn upload_stops_at_first_failed_piece() {
    let data = vec![1u8; 40_000];
    let (mut up, _) = Upload::start(&data, "/p", false);
    let (logs, _) = up.step(ran("", "", 0));
    assert!(logs.is_empty());
    let (logs, a) = up.step(ran("x", "disk full", 1));
    assert!(logs.is_empty());
    assert!(matches!(&a, UploadAction::Fail(e) if e == "SFTP upload failed: disk full"));
    assert!(up.is_finished());
}

#[test]
fn emitting_upload_reports_failed_piece_and_run_failure() {
    let (mut up, _) = Upload::start(b"abc", "/p", true);
    up.step(ran("", "", 0));
    let (logs, a) = up.step(ran("", " nope ", 2));
    assert_eq!(texts(&logs), vec![(LogLevel::Warn, "nope".to_string())]);
    assert!(matches!(&a, UploadAction::Fail(e) if e == "Upload chunk 1 failed (exit 2):  nope "));
    let (mut up, _) = Upload::start(b"abc", "/p", false);
    let (_, a) = up.step(UploadEvent::RunFailed("not connected".to_string()));
    assert!(matches!(&a, UploadAction::Fail(e) if e == "not connected"));
}

#[test]
fn empty_upload_is_done_after_truncate() {
    let (mut up, _) = Upload::start(&[], "/p", true);
    let (logs, a) = up.step(ran("", "", 0));
    assert!(logs.is_empty());
    assert!(matches!(a, UploadAction::Done));
}
