use mc_server_manager::install::{
    eula_path, find_version, jar_name, jar_path, version_dir, InstallAction, InstallEvent,
    InstallLog, InstallStep, Installer, Phase,
};
use mc_server_manager::versions::{LogLevel, McVersion};

fn ran(stdout: &str, stderr: &str, code: u32) -> InstallEvent {
    InstallEvent::Ran { stdout: stdout.to_string(), stderr: stderr.to_string(), code }
}

fn version(id: &str, url: &str) -> McVersion {
    McVersion {
        id: id.to_string(),
        version_type: "release".to_string(),
        url: url.to_string(),
        release_time: String::new(),
    }
}

fn run_cmd(s: &InstallStep) -> String {
    match &s.action {
        InstallAction::Run(c) => c.clone(),
        _ => panic!("expected a command"),
    }
}

fn lines(s: &InstallStep) -> Vec<(LogLevel, String)> {
    s.logs
        .iter()
        .filter_map(|l| match l {
            InstallLog::Line(line) => Some((line.level, line.raw.clone())),
            InstallLog::JarSize { .. } => None,
        })
        .collect()
}

fn step(inst: &mut Installer, e: InstallEvent) -> InstallStep {
    assert!(inst.accepts(&e));
    inst.step(e)
}

#[test]
fn names_of_version_paths() {
    assert_eq!(version_dir("/srv", "1.20.4"), "/srv/minecraft-server-1-20-4");
    assert_eq!(jar_name("1.20.4"), "minecraft_server_1.20.4.jar");
    assert_eq!(jar_path("/srv", "1.20.4"), "/srv/minecraft-server-1-20-4/minecraft_server_1.20.4.jar");
    assert_eq!(eula_path("/srv", "1.20.4"), "/srv/minecraft-server-1-20-4/eula.txt");
}

#[test]
fn find_version_takes_the_first_match() {
    let vs = vec![version("a", "u1"), version("b", "u2"), version("b", "u3")];
    assert_eq!(find_version(&vs, "b"), Some(1));
    assert_eq!(find_version(&vs, "c"), None);
}

fn start_to_meta(dir: &str) -> Installer {
    let (mut inst, s) = Installer::start("1.20.4".to_string(), dir.to_string());
    assert_eq!(lines(&s), vec![(LogLevel::Info, format!("Using server directory: {}", dir))]);
    assert_eq!(
        run_cmd(&s),
        format!("test -w '{d}' || (mkdir -p '{d}' 2>&1 && test -w '{d}')", d = dir)
    );
    let s = step(&mut inst, ran("", "", 0));
    assert!(matches!(s.action, InstallAction::FetchManifest));
    assert_eq!(lines(&s), vec![(LogLevel::Info, "Fetching version manifest from Mojang...".to_string())]);
    let s = step(
        &mut inst,
        InstallEvent::Manifest(vec![version("1.20.3", "m3"), version("1.20.4", "m4")]),
    );
    match &s.action {
        InstallAction::FetchMeta(u) => assert_eq!(u, "m4"),
        _ => panic!("expected metadata fetch"),
    }
    inst
}

#[test]
fn full_installation_with_wget() {
    let mut inst = start_to_meta("/srv");
    let vd = "/srv/minecraft-server-1-20-4";
    let jar = "/srv/minecraft-server-1-20-4/minecraft_server_1.20.4.jar";
    let s = step(
        &mut inst,
        InstallEvent::Meta { url: "https://dl/server.jar".to_string(), sha1: "abc123".to_string(), size: 5 },
    );
    assert!(matches!(&s.logs[0], InstallLog::JarSize { version_id, size: 5 } if version_id == "1.20.4"));
    assert_eq!(
        lines(&s),
        vec![
            (LogLevel::Info, format!("Server directory: {}", vd)),
            (LogLevel::Other, format!("$ mkdir -p {}", vd)),
        ]
    );
    assert_eq!(run_cmd(&s), format!("mkdir -p '{}'", vd));
    let s = step(&mut inst, ran("created\n", "", 0));
    assert_eq!(lines(&s), vec![(LogLevel::Info, "created".to_string())]);
    assert_eq!(run_cmd(&s), "which wget");
    let s = step(&mut inst, ran("/usr/bin/wget\n", "", 0));
    assert_eq!(run_cmd(&s), "which curl");
    let s = step(&mut inst, ran("", "", 1));
    let cmd = format!("wget -O '{}' 'https://dl/server.jar' 2>&1", jar);
    assert_eq!(run_cmd(&s), cmd);
    assert_eq!(lines(&s), vec![(LogLevel::Other, format!("$ {}", cmd))]);
    let s = step(&mut inst, ran("saved\n", "", 0));
    assert_eq!(
        lines(&s),
        vec![(LogLevel::Info, "saved".to_string()), (LogLevel::Info, "Verifying SHA1 checksum...".to_string())]
    );
    assert_eq!(run_cmd(&s), format!("sha1sum '{}' | awk '{{print $1}}'", jar));
    let s = step(&mut inst, ran("abc123\n", "", 0));
    assert_eq!(
        lines(&s),
        vec![
            (LogLevel::Info, "SHA1: abc123".to_string()),
            (LogLevel::Info, "SHA1 checksum verified ✓".to_string())
        ]
    );
    assert_eq!(run_cmd(&s), format!("chmod +x '{}'", jar));
    let s = step(&mut inst, ran("", "", 0));
    let eula = format!("printf 'eula=true\\n' > '{}/eula.txt'", vd);
    assert_eq!(run_cmd(&s), eula);
    assert_eq!(
        lines(&s),
        vec![
            (LogLevel::Info, "Accepting EULA (creating eula.txt)...".to_string()),
            (LogLevel::Other, format!("$ {}", eula))
        ]
    );
    let s = step(&mut inst, ran("", "", 0));
    assert_eq!(run_cmd(&s), format!("ls -lh '{}'", vd));
    assert_eq!(
        lines(&s),
        vec![
            (LogLevel::Info, "eula.txt created ✓".to_string()),
            (LogLevel::Other, format!("$ ls -lh '{}'", vd))
        ]
    );
    let s = step(&mut inst, ran("total 1\n", "", 0));
    assert_eq!(
        lines(&s),
        vec![
            (LogLevel::Info, "total 1".to_string()),
            (LogLevel::Info, format!("Installation complete! Server ready at: {}", vd))
        ]
    );
    match &s.action {
        InstallAction::Finish(d) => assert_eq!(d, vd),
        _ => panic!("expected success"),
    }
    assert_eq!(inst.phase(), Phase::Finished);
    assert!(!inst.accepts(&ran("", "", 0)));
}

#[test]
fn tilde_directory_is_expanded_first() {
    let (mut inst, s) = Installer::start("1.20.4".to_string(), "~/minecraft".to_string());
    assert!(s.logs.is_empty());
    assert_eq!(run_cmd(&s), "eval echo ~/minecraft");
    let s = step(&mut inst, ran("/home/steve/minecraft\n", "", 0));
    assert_eq!(lines(&s), vec![(LogLevel::Info, "Using server directory: /home/steve/minecraft".to_string())]);
}

#[test]
fn failed_expansion_keeps_the_given_directory() {
    let (mut inst, _) = Installer::start("1.20.4".to_string(), "~/mc ".to_string());
    let s = step(&mut inst, InstallEvent::RunFailed("not connected".to_string()));
    assert_eq!(lines(&s), vec![(LogLevel::Info, "Using server directory: ~/mc".to_string())]);
}

#[test]
fn unwritable_directory_fails() {
    let (mut inst, _) = Installer::start("1.20.4".to_string(), "/root/mc".to_string());
    let s = step(&mut inst, ran("", " Permission denied \n", 1));
    let m = "Cannot write to '/root/mc': Permission denied. Please go to Settings and set a writable server directory like ~/minecraft";
    assert_eq!(lines(&s), vec![(LogLevel::Error, m.to_string())]);
    match &s.action {
        InstallAction::Fail(e) => assert_eq!(e, m),
        _ => panic!("expected failure"),
    }
}

#[test]
fn write_check_that_cannot_run_passes() {
    let (mut inst, _) = Installer::start("1.20.4".to_string(), "/srv".to_string());
    let s = step(&mut inst, InstallEvent::RunFailed("x".to_string()));
    assert!(matches!(s.action, InstallAction::FetchManifest));
}

#[test]
fn unknown_version_fails() {
    let (mut inst, _) = Installer::start("9.9".to_string(), "/srv".to_string());
    step(&mut inst, ran("", "", 0));
    let s = step(&mut inst, InstallEvent::Manifest(vec![version("1.20.4", "m")]));
    assert_eq!(lines(&s), vec![(LogLevel::Error, "Error: Version 9.9 not found".to_string())]);
    match &s.action {
        InstallAction::Fail(e) => assert_eq!(e, "Version 9.9 not found"),
        _ => panic!("expected failure"),
    }
}

#[test]
fn manifest_and_metadata_failures() {
    let (mut inst, _) = Installer::start("1.20.4".to_string(), "/srv".to_string());
    step(&mut inst, ran("", "", 0));
    let s = step(&mut inst, InstallEvent::ManifestFailed("offline".to_string()));
    assert_eq!(lines(&s), vec![(LogLevel::Error, "Error fetching manifest: offline".to_string())]);
    let mut inst = start_to_meta("/srv");
    let s = step(&mut inst, InstallEvent::MetaRequestFailed("timeout".to_string()));
    assert!(s.logs.is_empty());
    assert!(matches!(&s.action, InstallAction::Fail(e) if e == "timeout"));
    let mut inst = start_to_meta("/srv");
    let s = step(&mut inst, InstallEvent::MetaDecodeFailed("bad json".to_string()));
    assert_eq!(lines(&s), vec![(LogLevel::Error, "Error fetching version metadata: bad json".to_string())]);
}

fn to_download(wget_code: u32, curl_code: u32) -> (Installer, InstallStep) {
    let mut inst = start_to_meta("/srv");
    step(&mut inst, InstallEvent::Meta { url: "U".to_string(), sha1: "S".to_string(), size: 1 });
    step(&mut inst, ran("", "", 0));
    step(&mut inst, ran("", "", wget_code));
    let s = step(&mut inst, ran("", "", curl_code));
    (inst, s)
}

#[test]
fn curl_is_used_without_wget() {
    let (_, s) = to_download(1, 0);
    assert_eq!(
        run_cmd(&s),
        "curl -L --progress-bar -o '/srv/minecraft-server-1-20-4/minecraft_server_1.20.4.jar' 'U' 2>&1"
    );
}

#[test]
fn no_download_tool_fails() {
    let (_, s) = to_download(1, 1);
    let m = "Neither wget nor curl found on remote server. Install with: sudo apt install wget";
    assert_eq!(lines(&s), vec![(LogLevel::Error, format!("Error: {}", m))]);
    assert!(matches!(&s.action, InstallAction::Fail(e) if e == m));
}

#[test]
fn failed_download_reports_exit_code() {
    let (mut inst, s) = to_download(0, 1);
    let cmd = run_cmd(&s);
    let s = step(&mut inst, ran("", "404\n", 8));
    let e = format!("Command exited with code 8: {}", cmd);
    assert_eq!(
        lines(&s),
        vec![(LogLevel::Warn, "404".to_string()), (LogLevel::Error, format!("wget failed: {}", e))]
    );
    assert!(matches!(&s.action, InstallAction::Fail(x) if *x == e));
}

#[test]
fn digest_mismatch_removes_the_jar_and_fails() {
    let (mut inst, _) = to_download(0, 0);
    step(&mut inst, ran("", "", 0));
    let s = step(&mut inst, ran("deadbeef\n", "", 0));
    let m = "SHA1 mismatch! Expected: S, Got: deadbeef";
    assert_eq!(
        lines(&s),
        vec![(LogLevel::Info, "SHA1: deadbeef".to_string()), (LogLevel::Error, format!("Error: {}", m))]
    );
    assert_eq!(run_cmd(&s), "rm -f '/srv/minecraft-server-1-20-4/minecraft_server_1.20.4.jar'");
    let s = step(&mut inst, ran("", "", 0));
    assert!(s.logs.is_empty());
    assert!(matches!(&s.action, InstallAction::Fail(e) if e == m));
}

#[test]
fn mkdir_failure_and_eula_warning() {
    let mut inst = start_to_meta("/srv");
    step(&mut inst, InstallEvent::Meta { url: "U".to_string(), sha1: "S".to_string(), size: 1 });
    let s = step(&mut inst, InstallEvent::RunFailed("channel closed".to_string()));
    assert_eq!(lines(&s), vec![(LogLevel::Error, "Error creating directory: channel closed".to_string())]);

    let (mut inst, _) = to_download(0, 0);
    step(&mut inst, ran("", "", 0));
    step(&mut inst, ran("S", "", 0));
    step(&mut inst, ran("", "", 1));
    let s = step(&mut inst, InstallEvent::RunFailed("gone".to_string()));
    assert_eq!(lines(&s)[0], (LogLevel::Warn, "Warning: could not create eula.txt: gone".to_string()));
}
