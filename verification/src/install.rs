//! Installing a Minecraft server version on the remote machine, as a state
//! machine: each step takes what the last action brought back (the result of
//! a remote command, the version manifest, or the version's metadata) and
//! tells which log lines to show and what to do next. The caller performs
//! the actions.
use vstd::prelude::*;
use crate::text::{cat, replace_char, replace_char_str, starts_with_char, trim, trim_str};
use crate::versions::{
    command_output_logs, command_result, exit_error, log_views, output_logs, plain_log, LogLevel,
    LogLine, McVersion,
};
use crate::text::str_eq;

verus! {

/// The name of the directory of a version: `minecraft-server-` and the
/// version id with each `.` turned into `-`.
pub open spec fn version_dir_name(version_id: Seq<char>) -> Seq<char> {
    "minecraft-server-"@ + replace_char(version_id, '.', seq!['-'])
}

/// The directory of a version inside the server directory.
pub open spec fn version_dir_spec(dir: Seq<char>, version_id: Seq<char>) -> Seq<char> {
    dir + seq!['/'] + version_dir_name(version_id)
}

/// The name of a version's server jar.
pub open spec fn jar_name_spec(version_id: Seq<char>) -> Seq<char> {
    "minecraft_server_"@ + version_id + ".jar"@
}

/// The path of a version's server jar.
pub open spec fn jar_path_spec(dir: Seq<char>, version_id: Seq<char>) -> Seq<char> {
    version_dir_spec(dir, version_id) + seq!['/'] + jar_name_spec(version_id)
}

/// The path of a version's `eula.txt`.
pub open spec fn eula_path_spec(dir: Seq<char>, version_id: Seq<char>) -> Seq<char> {
    version_dir_spec(dir, version_id) + "/eula.txt"@
}

/// The directory of `version_id` inside `dir`.
pub fn version_dir(dir: &str, version_id: &str) -> (r: String)
    ensures
        r@ == version_dir_spec(dir@, version_id@),
{
    proof {
        reveal_strlit("-");
        reveal_strlit("/");
        assert("-"@ =~= seq!['-']);
        assert("/"@ =~= seq!['/']);
    }
    let name = cat("minecraft-server-", replace_char_str(version_id, '.', "-").as_str());
    cat(cat(dir, "/").as_str(), name.as_str())
}

/// The name of the server jar of `version_id`.
pub fn jar_name(version_id: &str) -> (r: String)
    ensures
        r@ == jar_name_spec(version_id@),
{
    cat(cat("minecraft_server_", version_id).as_str(), ".jar")
}

/// The path of the server jar of `version_id` inside `dir`.
pub fn jar_path(dir: &str, version_id: &str) -> (r: String)
    ensures
        r@ == jar_path_spec(dir@, version_id@),
{
    proof {
        reveal_strlit("/");
        assert("/"@ =~= seq!['/']);
    }
    let vd = version_dir(dir, version_id);
    cat(cat(vd.as_str(), "/").as_str(), jar_name(version_id).as_str())
}

/// The path of `eula.txt` of `version_id` inside `dir`.
pub fn eula_path(dir: &str, version_id: &str) -> (r: String)
    ensures
        r@ == eula_path_spec(dir@, version_id@),
{
    let vd = version_dir(dir, version_id);
    cat(vd.as_str(), "/eula.txt")
}

/// Where an installation stands: which answer it waits for.
#[derive(Clone, Copy, Debug, PartialEq, Eq, Structural)]
pub enum Phase {
    /// The shell's expansion of a server directory that starts with `~`.
    ExpandDir,
    /// Whether the server directory can be written.
    CheckWritable,
    /// The version manifest.
    AwaitManifest,
    /// The metadata of the version.
    AwaitMeta,
    /// The creation of the version's directory.
    MakeDir,
    /// Whether `wget` is there.
    WhichWget,
    /// Whether `curl` is there.
    WhichCurl,
    /// The download of the jar.
    Download,
    /// The SHA-1 digest of the downloaded jar.
    Checksum,
    /// The removal of a jar whose digest did not match.
    Cleanup,
    /// Making the jar executable.
    Chmod,
    /// Writing `eula.txt`.
    Eula,
    /// The listing of the version's directory.
    Listing,
    /// Nothing: the installation is over.
    Finished,
}

/// What the last action brought back.
pub enum InstallEvent {
    /// The remote command ran, with its output and exit code.
    Ran { stdout: String, stderr: String, code: u32 },
    /// The remote command could not be run; the reason.
    RunFailed(String),
    /// The versions of the manifest.
    Manifest(Vec<McVersion>),
    /// The manifest could not be had; the reason.
    ManifestFailed(String),
    /// The server download of the version: its URL, SHA-1 digest and size.
    Meta { url: String, sha1: String, size: u64 },
    /// The metadata request failed; the reason.
    MetaRequestFailed(String),
    /// The metadata could not be decoded; the reason.
    MetaDecodeFailed(String),
}

/// What to do next.
pub enum InstallAction {
    /// Run this command on the remote machine; answer with `Ran` or
    /// `RunFailed`.
    Run(String),
    /// Fetch the version manifest, snapshots included; answer with
    /// `Manifest` or `ManifestFailed`.
    FetchManifest,
    /// Fetch the version metadata at this URL; answer with `Meta`,
    /// `MetaRequestFailed` or `MetaDecodeFailed`.
    FetchMeta(String),
    /// The installation succeeded; the version's directory.
    Finish(String),
    /// The installation failed; the error.
    Fail(String),
}

/// An action, with text as character sequences.
pub enum ActionView {
    Run(Seq<char>),
    FetchManifest,
    FetchMeta(Seq<char>),
    Finish(Seq<char>),
    Fail(Seq<char>),
}

/// A log entry of the installation.
pub enum InstallLog {
    /// A log line.
    Line(LogLine),
    /// The line that gives the size of the jar in megabytes.
    JarSize { version_id: String, size: u64 },
}

/// A log entry, with text as character sequences.
pub enum LogView {
    Line((LogLevel, Seq<char>, Option<Seq<char>>)),
    JarSize(Seq<char>, u64),
}

/// What one step hands back: the log entries to show, in order, and the
/// next action.
pub struct InstallStep {
    pub logs: Vec<InstallLog>,
    pub action: InstallAction,
}

/// The state of an installation.
pub struct Installer {
    version_id: String,
    dir: String,
    url: String,
    sha1: String,
    command: String,
    pending_error: String,
    wget_found: bool,
    use_wget: bool,
    phase: Phase,
}

/// The state of an installation: the version, the server directory (as
/// given until it has been expanded), the download URL and digest, the
/// command last run, the error that waits for a cleanup, whether `wget` was
/// found and is used, and the phase.
pub struct InstallerState {
    pub version_id: Seq<char>,
    pub dir: Seq<char>,
    pub url: Seq<char>,
    pub sha1: Seq<char>,
    pub command: Seq<char>,
    pub pending_error: Seq<char>,
    pub wget_found: bool,
    pub use_wget: bool,
    pub phase: Phase,
}

/// What one step gives, with text as character sequences.
pub struct StepView {
    pub state: InstallerState,
    pub logs: Seq<LogView>,
    pub action: ActionView,
}

impl View for Installer {
    type V = InstallerState;

    closed spec fn view(&self) -> InstallerState {
        InstallerState {
            version_id: self.version_id@,
            dir: self.dir@,
            url: self.url@,
            sha1: self.sha1@,
            command: self.command@,
            pending_error: self.pending_error@,
            wget_found: self.wget_found,
            use_wget: self.use_wget,
            phase: self.phase,
        }
    }
}

/// The view of an action.
pub open spec fn action_view(a: InstallAction) -> ActionView {
    match a {
        InstallAction::Run(c) => ActionView::Run(c@),
        InstallAction::FetchManifest => ActionView::FetchManifest,
        InstallAction::FetchMeta(u) => ActionView::FetchMeta(u@),
        InstallAction::Finish(d) => ActionView::Finish(d@),
        InstallAction::Fail(e) => ActionView::Fail(e@),
    }
}

/// The view of a log entry.
pub open spec fn install_log_view(l: InstallLog) -> LogView {
    match l {
        InstallLog::Line(line) => LogView::Line(line@),
        InstallLog::JarSize { version_id, size } => LogView::JarSize(version_id@, size),
    }
}

/// The views of log entries.
pub open spec fn install_logs_view(ls: Seq<InstallLog>) -> Seq<LogView> {
    ls.map_values(|l: InstallLog| install_log_view(l))
}

/// The view of a step's result, with the installer's new state.
pub open spec fn step_view(state: InstallerState, step: InstallStep) -> StepView {
    StepView { state, logs: install_logs_view(step.logs@), action: action_view(step.action) }
}

/// A log line at `level` without a timestamp.
pub open spec fn msg(level: LogLevel, text: Seq<char>) -> LogView {
    LogView::Line(plain_log(level, text))
}

/// Log lines as log entries.
pub open spec fn lift_logs(ls: Seq<(LogLevel, Seq<char>, Option<Seq<char>>)>) -> Seq<LogView> {
    ls.map_values(|l: (LogLevel, Seq<char>, Option<Seq<char>>)| LogView::Line(l))
}

/// The command that asks the remote shell to expand a directory.
pub open spec fn expand_command(server_dir: Seq<char>) -> Seq<char> {
    "eval echo "@ + server_dir
}

/// The command that checks that `d` can be written, creating it if needed.
pub open spec fn writable_command(d: Seq<char>) -> Seq<char> {
    "test -w '"@ + d + "' || (mkdir -p '"@ + d + "' 2>&1 && test -w '"@ + d + "')"@
}

/// The error of a server directory that cannot be written.
pub open spec fn cannot_write_text(d: Seq<char>, err: Seq<char>) -> Seq<char> {
    "Cannot write to '"@ + d + "': "@ + err
        + ". Please go to Settings and set a writable server directory like ~/minecraft"@
}

/// The command that creates the directory `vd`.
pub open spec fn mkdir_command(vd: Seq<char>) -> Seq<char> {
    "mkdir -p '"@ + vd + "'"@
}

/// The command that downloads `url` to `path` with `wget`.
pub open spec fn wget_command(path: Seq<char>, url: Seq<char>) -> Seq<char> {
    "wget -O '"@ + path + "' '"@ + url + "' 2>&1"@
}

/// The command that downloads `url` to `path` with `curl`.
pub open spec fn curl_command(path: Seq<char>, url: Seq<char>) -> Seq<char> {
    "curl -L --progress-bar -o '"@ + path + "' '"@ + url + "' 2>&1"@
}

/// The command that prints the SHA-1 digest of `path`.
pub open spec fn sha1_command(path: Seq<char>) -> Seq<char> {
    "sha1sum '"@ + path + "' | awk '{print $1}'"@
}

/// The command that removes `path`.
pub open spec fn remove_command(path: Seq<char>) -> Seq<char> {
    "rm -f '"@ + path + "'"@
}

/// The command that makes `path` executable.
pub open spec fn chmod_command(path: Seq<char>) -> Seq<char> {
    "chmod +x '"@ + path + "'"@
}

/// The command that writes `eula=true` to `path`.
pub open spec fn eula_command(path: Seq<char>) -> Seq<char> {
    "printf 'eula=true\\n' > '"@ + path + "'"@
}

/// The command that lists the directory `vd`.
pub open spec fn listing_command(vd: Seq<char>) -> Seq<char> {
    "ls -lh '"@ + vd + "'"@
}

/// The error of a downloaded jar whose digest does not match.
pub open spec fn mismatch_text(expected: Seq<char>, actual: Seq<char>) -> Seq<char> {
    "SHA1 mismatch! Expected: "@ + expected + ", Got: "@ + actual
}

/// The error when neither download tool is there.
pub open spec fn no_tool_text() -> Seq<char> {
    "Neither wget nor curl found on remote server. Install with: sudo apt install wget"@
}

/// The index of the first version of `vs` with the id `id`, if any.
pub open spec fn first_with_id(vs: Seq<McVersion>, id: Seq<char>) -> Option<int>
    decreases vs.len(),
{
    if vs.len() == 0 {
        None
    } else if vs.last().id@ == id && first_with_id(vs.drop_last(), id) is None {
        Some(vs.len() - 1)
    } else {
        first_with_id(vs.drop_last(), id)
    }
}

/// The exit code of a remote command whose output is not read: the reported
/// one, or 0 when the command could not be run.
pub open spec fn quiet_code(e: InstallEvent) -> u32 {
    match e {
        InstallEvent::Ran { code, .. } => code,
        _ => 0,
    }
}

/// A remote command whose output is shown: the log lines of its output, and
/// its error (the reason it could not run, or its nonzero exit code).
pub open spec fn shown_outcome(e: InstallEvent, cmd: Seq<char>) -> (Seq<LogView>, Option<Seq<char>>) {
    match e {
        InstallEvent::Ran { stdout, stderr, code } => (
            lift_logs(output_logs(stdout@, stderr@)),
            if code != 0 {
                Some(exit_error(code, cmd))
            } else {
                None
            },
        ),
        InstallEvent::RunFailed(m) => (seq![], Some(m@)),
        _ => (seq![], None),
    }
}

/// The step that ends the installation with the error `m`.
pub open spec fn fail_step(s: InstallerState, logs: Seq<LogView>, m: Seq<char>) -> StepView {
    StepView {
        state: InstallerState { phase: Phase::Finished, ..s },
        logs,
        action: ActionView::Fail(m),
    }
}

/// The step that runs `cmd` and then waits in `phase`.
pub open spec fn run_step(s: InstallerState, phase: Phase, cmd: Seq<char>, logs: Seq<LogView>) -> StepView {
    StepView { state: InstallerState { phase, command: cmd, ..s }, logs, action: ActionView::Run(cmd) }
}

/// The step once the server directory `dir` is known: it is logged and
/// checked for writing.
pub open spec fn dir_known_step(s: InstallerState, dir: Seq<char>) -> StepView {
    run_step(
        InstallerState { dir, ..s },
        Phase::CheckWritable,
        writable_command(dir),
        seq![msg(LogLevel::Info, "Using server directory: "@ + dir)],
    )
}

/// The state before the first step.
pub open spec fn initial_state(version_id: Seq<char>, server_dir: Seq<char>) -> InstallerState {
    InstallerState {
        version_id,
        dir: server_dir,
        url: seq![],
        sha1: seq![],
        command: seq![],
        pending_error: seq![],
        wget_found: false,
        use_wget: false,
        phase: Phase::ExpandDir,
    }
}

/// The first step of installing `version_id` into `server_dir`: a directory
/// that starts with `~` is first expanded by the remote shell; otherwise it
/// is used as it is.
pub open spec fn install_start(version_id: Seq<char>, server_dir: Seq<char>) -> StepView {
    let s = initial_state(version_id, server_dir);
    if server_dir.len() > 0 && server_dir[0] == '~' {
        run_step(s, Phase::ExpandDir, expand_command(server_dir), seq![])
    } else {
        dir_known_step(s, server_dir)
    }
}

/// Whether `e` answers the action that `phase` waits for.
pub open spec fn fits(phase: Phase, e: InstallEvent) -> bool {
    match phase {
        Phase::AwaitManifest => e is Manifest || e is ManifestFailed,
        Phase::AwaitMeta => e is Meta || e is MetaRequestFailed || e is MetaDecodeFailed,
        Phase::Finished => false,
        _ => e is Ran || e is RunFailed,
    }
}

/// The step that the answer `e` gives in state `s`.
pub open spec fn install_next(s: InstallerState, e: InstallEvent) -> StepView {
    let vd = version_dir_spec(s.dir, s.version_id);
    let jar = jar_path_spec(s.dir, s.version_id);
    match s.phase {
        Phase::ExpandDir => {
            let dir = match e {
                InstallEvent::Ran { stdout, .. } => trim(stdout@),
                _ => trim(s.dir),
            };
            dir_known_step(s, dir)
        },
        Phase::CheckWritable => {
            let proceed = StepView {
                state: InstallerState { phase: Phase::AwaitManifest, ..s },
                logs: seq![msg(LogLevel::Info, "Fetching version manifest from Mojang..."@)],
                action: ActionView::FetchManifest,
            };
            match e {
                InstallEvent::Ran { stderr, code, .. } => {
                    if code != 0 {
                        let m = cannot_write_text(s.dir, trim(stderr@));
                        fail_step(s, seq![msg(LogLevel::Error, m)], m)
                    } else {
                        proceed
                    }
                },
                _ => proceed,
            }
        },
        Phase::AwaitManifest => match e {
            InstallEvent::Manifest(vs) => match first_with_id(vs@, s.version_id) {
                Some(i) => StepView {
                    state: InstallerState { phase: Phase::AwaitMeta, ..s },
                    logs: seq![],
                    action: ActionView::FetchMeta(vs@[i].url@),
                },
                None => {
                    let m = "Version "@ + s.version_id + " not found"@;
                    fail_step(s, seq![msg(LogLevel::Error, "Error: "@ + m)], m)
                },
            },
            InstallEvent::ManifestFailed(err) => fail_step(
                s,
                seq![msg(LogLevel::Error, "Error fetching manifest: "@ + err@)],
                err@,
            ),
            _ => fail_step(s, seq![], seq![]),
        },
        Phase::AwaitMeta => match e {
            InstallEvent::Meta { url, sha1, size } => run_step(
                InstallerState { url: url@, sha1: sha1@, ..s },
                Phase::MakeDir,
                mkdir_command(vd),
                seq![
                    LogView::JarSize(s.version_id, size),
                    msg(LogLevel::Info, "Server directory: "@ + vd),
                    msg(LogLevel::Other, "$ mkdir -p "@ + vd),
                ],
            ),
            InstallEvent::MetaRequestFailed(err) => fail_step(s, seq![], err@),
            InstallEvent::MetaDecodeFailed(err) => fail_step(
                s,
                seq![msg(LogLevel::Error, "Error fetching version metadata: "@ + err@)],
                err@,
            ),
            _ => fail_step(s, seq![], seq![]),
        },
        Phase::MakeDir => {
            let (ls, err) = shown_outcome(e, s.command);
            match err {
                Some(m) => fail_step(s, ls.push(msg(LogLevel::Error, "Error creating directory: "@ + m)), m),
                None => run_step(s, Phase::WhichWget, "which wget"@, ls),
            }
        },
        Phase::WhichWget => run_step(
            InstallerState { wget_found: quiet_code(e) == 0, ..s },
            Phase::WhichCurl,
            "which curl"@,
            seq![],
        ),
        Phase::WhichCurl => {
            if s.wget_found {
                let cmd = wget_command(jar, s.url);
                run_step(
                    InstallerState { use_wget: true, ..s },
                    Phase::Download,
                    cmd,
                    seq![msg(LogLevel::Other, "$ "@ + cmd)],
                )
            } else if quiet_code(e) == 0 {
                let cmd = curl_command(jar, s.url);
                run_step(
                    InstallerState { use_wget: false, ..s },
                    Phase::Download,
                    cmd,
                    seq![msg(LogLevel::Other, "$ "@ + cmd)],
                )
            } else {
                fail_step(s, seq![msg(LogLevel::Error, "Error: "@ + no_tool_text())], no_tool_text())
            }
        },
        Phase::Download => {
            let (ls, err) = shown_outcome(e, s.command);
            match err {
                Some(m) => {
                    let what = if s.use_wget {
                        "wget failed: "@
                    } else {
                        "curl failed: "@
                    };
                    fail_step(s, ls.push(msg(LogLevel::Error, what + m)), m)
                },
                None => run_step(
                    s,
                    Phase::Checksum,
                    sha1_command(jar),
                    ls.push(msg(LogLevel::Info, "Verifying SHA1 checksum..."@)),
                ),
            }
        },
        Phase::Checksum => match e {
            InstallEvent::Ran { stdout, .. } => {
                let actual = trim(stdout@);
                let seen = msg(LogLevel::Info, "SHA1: "@ + actual);
                if actual != s.sha1 {
                    let m = mismatch_text(s.sha1, actual);
                    run_step(
                        InstallerState { pending_error: m, ..s },
                        Phase::Cleanup,
                        remove_command(jar),
                        seq![seen, msg(LogLevel::Error, "Error: "@ + m)],
                    )
                } else {
                    run_step(
                        s,
                        Phase::Chmod,
                        chmod_command(jar),
                        seq![seen, msg(LogLevel::Info, "SHA1 checksum verified ✓"@)],
                    )
                }
            },
            InstallEvent::RunFailed(m) => fail_step(s, seq![], m@),
            _ => fail_step(s, seq![], seq![]),
        },
        Phase::Cleanup => fail_step(s, seq![], s.pending_error),
        Phase::Chmod => {
            let ls = shown_outcome(e, s.command).0;
            let cmd = eula_command(eula_path_spec(s.dir, s.version_id));
            run_step(
                s,
                Phase::Eula,
                cmd,
                ls + seq![
                    msg(LogLevel::Info, "Accepting EULA (creating eula.txt)..."@),
                    msg(LogLevel::Other, "$ "@ + cmd),
                ],
            )
        },
        Phase::Eula => {
            let (ls, err) = shown_outcome(e, s.command);
            let said = match err {
                Some(m) => msg(LogLevel::Warn, "Warning: could not create eula.txt: "@ + m),
                None => msg(LogLevel::Info, "eula.txt created ✓"@),
            };
            let cmd = listing_command(vd);
            run_step(s, Phase::Listing, cmd, ls + seq![said, msg(LogLevel::Other, "$ "@ + cmd)])
        },
        Phase::Listing => {
            let ls = shown_outcome(e, s.command).0;
            StepView {
                state: InstallerState { phase: Phase::Finished, ..s },
                logs: ls.push(msg(LogLevel::Info, "Installation complete! Server ready at: "@ + vd)),
                action: ActionView::Finish(vd),
            }
        },
        Phase::Finished => fail_step(s, seq![], seq![]),
    }
}

} // verus!

verus! {

/// The view of an optional text.
pub open spec fn opt_view(o: Option<String>) -> Option<Seq<char>> {
    match o {
        Some(s) => Some(s@),
        None => None,
    }
}

fn log_msg(level: LogLevel, text: String) -> (r: InstallLog)
    ensures
        install_log_view(r) == msg(level, text@),
{
    InstallLog::Line(LogLine::new(text, level))
}

fn push_log(v: &mut Vec<InstallLog>, l: InstallLog)
    ensures
        install_logs_view(final(v)@) == install_logs_view(old(v)@).push(install_log_view(l)),
{
    let ghost l_view = install_log_view(l);
    v.push(l);
    assert(install_logs_view(final(v)@) =~= install_logs_view(old(v)@).push(l_view));
}

fn output_entries(stdout: &str, stderr: &str) -> (r: Vec<InstallLog>)
    ensures
        install_logs_view(r@) == lift_logs(output_logs(stdout@, stderr@)),
{
    let mut rest = command_output_logs(stdout, stderr);
    let ghost all = log_views(rest@);
    let mut out: Vec<InstallLog> = Vec::new();
    proof {
        assert(install_logs_view(out@) =~= lift_logs(all.take(0)));
        assert(all.skip(0) =~= all);
    }
    while rest.len() > 0
        invariant
            rest@.len() <= all.len(),
            log_views(rest@) == all.skip(all.len() - rest@.len()),
            install_logs_view(out@) == lift_logs(all.take(all.len() - rest@.len())),
        decreases rest.len(),
    {
        let ghost k = all.len() - rest@.len();
        let ghost r0 = rest@;
        let line = rest.remove(0);
        proof {
            assert(log_views(r0)[0] == line@);
            assert(all[k] == line@);
            assert(log_views(rest@) =~= log_views(r0).drop_first());
            assert(all.skip(k).drop_first() =~= all.skip(k + 1));
            assert(lift_logs(all.take(k + 1)) =~= lift_logs(all.take(k)).push(LogView::Line(line@)));
        }
        push_log(&mut out, InstallLog::Line(line));
    }
    assert(all.take(all.len() as int) =~= all);
    out
}

fn shown(e: &InstallEvent, cmd: &str) -> (r: (Vec<InstallLog>, Option<String>))
    ensures
        install_logs_view(r.0@) == shown_outcome(*e, cmd@).0,
        opt_view(r.1) == shown_outcome(*e, cmd@).1,
{
    match e {
        InstallEvent::Ran { stdout, stderr, code } => {
            let logs = output_entries(stdout.as_str(), stderr.as_str());
            match command_result(*code, cmd) {
                Ok(()) => (logs, None),
                Err(m) => (logs, Some(m)),
            }
        },
        InstallEvent::RunFailed(m) => {
            let v: Vec<InstallLog> = Vec::new();
            assert(install_logs_view(v@) =~= seq![]);
            (v, Some(m.clone()))
        },
        _ => {
            let v: Vec<InstallLog> = Vec::new();
            assert(install_logs_view(v@) =~= seq![]);
            (v, None)
        },
    }
}

fn one_log(l: InstallLog) -> (r: Vec<InstallLog>)
    ensures
        install_logs_view(r@) == seq![install_log_view(l)],
{
    let mut v: Vec<InstallLog> = Vec::new();
    assert(install_logs_view(v@) =~= seq![]);
    push_log(&mut v, l);
    v
}

fn no_logs() -> (r: Vec<InstallLog>)
    ensures
        install_logs_view(r@) == Seq::<LogView>::empty(),
{
    let v: Vec<InstallLog> = Vec::new();
    assert(install_logs_view(v@) =~= seq![]);
    v
}

impl Installer {
    /// The phase the installation is in.
    pub fn phase(&self) -> (r: Phase)
        ensures
            r == self@.phase,
    {
        self.phase
    }

    /// Whether `e` answers the action that the installation waits for.
    pub fn accepts(&self, e: &InstallEvent) -> (r: bool)
        ensures
            r == fits(self@.phase, *e),
    {
        match self.phase {
            Phase::AwaitManifest => match e {
                InstallEvent::Manifest(_) => true,
                InstallEvent::ManifestFailed(_) => true,
                _ => false,
            },
            Phase::AwaitMeta => match e {
                InstallEvent::Meta { .. } => true,
                InstallEvent::MetaRequestFailed(_) => true,
                InstallEvent::MetaDecodeFailed(_) => true,
                _ => false,
            },
            Phase::Finished => false,
            _ => match e {
                InstallEvent::Ran { .. } => true,
                InstallEvent::RunFailed(_) => true,
                _ => false,
            },
        }
    }

    fn run(&mut self, phase: Phase, cmd: String, logs: Vec<InstallLog>) -> (r: InstallStep)
        ensures
            final(self)@ == (InstallerState { phase, command: cmd@, ..old(self)@ }),
            r.action == InstallAction::Run(cmd),
            r.logs == logs,
    {
        self.phase = phase;
        self.command = cmd.clone();
        InstallStep { logs, action: InstallAction::Run(cmd) }
    }

    fn fail(&mut self, logs: Vec<InstallLog>, m: String) -> (r: InstallStep)
        ensures
            final(self)@ == (InstallerState { phase: Phase::Finished, ..old(self)@ }),
            r.action == InstallAction::Fail(m),
            r.logs == logs,
    {
        self.phase = Phase::Finished;
        InstallStep { logs, action: InstallAction::Fail(m) }
    }

    fn dir_known(&mut self, dir: String) -> (r: InstallStep)
        ensures
            step_view(final(self)@, r) == dir_known_step(old(self)@, dir@),
    {
        let d = dir.as_str();
        let a = cat("test -w '", d);
        let b = cat(a.as_str(), "' || (mkdir -p '");
        let c = cat(b.as_str(), d);
        let e = cat(c.as_str(), "' 2>&1 && test -w '");
        let f = cat(e.as_str(), d);
        let cmd = cat(f.as_str(), "')");
        let logs = one_log(log_msg(LogLevel::Info, cat("Using server directory: ", d)));
        self.dir = dir;
        let r = self.run(Phase::CheckWritable, cmd, logs);
        assert(step_view(final(self)@, r).logs =~= dir_known_step(old(self)@, dir@).logs);
        r
    }

    /// Starts installing `version_id` into `server_dir`.
    pub fn start(version_id: String, server_dir: String) -> (r: (Installer, InstallStep))
        ensures
            step_view(r.0@, r.1) == install_start(version_id@, server_dir@),
    {
        let expand = starts_with_char(server_dir.as_str(), '~');
        let mut inst = Installer {
            version_id,
            dir: server_dir,
            url: String::new(),
            sha1: String::new(),
            command: String::new(),
            pending_error: String::new(),
            wget_found: false,
            use_wget: false,
            phase: Phase::ExpandDir,
        };
        assert(inst@ == initial_state(version_id@, server_dir@));
        if expand {
            let cmd = cat("eval echo ", inst.dir.as_str());
            let step = inst.run(Phase::ExpandDir, cmd, no_logs());
            assert(step_view(inst@, step).logs =~= install_start(version_id@, server_dir@).logs);
            (inst, step)
        } else {
            let d = inst.dir.clone();
            let step = inst.dir_known(d);
            (inst, step)
        }
    }

    /// Takes the answer to the last action and gives the log entries to show
    /// and the next action.
    pub fn step(&mut self, e: InstallEvent) -> (r: InstallStep)
        requires
            fits(old(self)@.phase, e),
        ensures
            step_view(final(self)@, r) == install_next(old(self)@, e),
    {
        match self.phase {
            Phase::ExpandDir => self.on_expand_dir(e),
            Phase::CheckWritable => self.on_check_writable(e),
            Phase::AwaitManifest => self.on_manifest(e),
            Phase::AwaitMeta => self.on_meta(e),
            Phase::MakeDir => self.on_make_dir(e),
            Phase::WhichWget => self.on_which_wget(e),
            Phase::WhichCurl => self.on_which_curl(e),
            Phase::Download => self.on_download(e),
            Phase::Checksum => self.on_checksum(e),
            Phase::Cleanup => self.on_cleanup(e),
            Phase::Chmod => self.on_chmod(e),
            Phase::Eula => self.on_eula(e),
            Phase::Listing => self.on_listing(e),
            Phase::Finished => self.on_cleanup(e),
        }
    }

    fn on_expand_dir(&mut self, e: InstallEvent) -> (r: InstallStep)
        requires
            old(self)@.phase == Phase::ExpandDir,
        ensures
            step_view(final(self)@, r) == install_next(old(self)@, e),
    {
        let dir = match &e {
            InstallEvent::Ran { stdout, .. } => trim_str(stdout.as_str()),
            _ => trim_str(self.dir.as_str()),
        };
        self.dir_known(dir)
    }

    fn on_check_writable(&mut self, e: InstallEvent) -> (r: InstallStep)
        requires
            old(self)@.phase == Phase::CheckWritable,
        ensures
            step_view(final(self)@, r) == install_next(old(self)@, e),
    {
        match &e {
            InstallEvent::Ran { stderr, code, .. } => {
                if *code != 0 {
                    let a = cat("Cannot write to '", self.dir.as_str());
                    let b = cat(a.as_str(), "': ");
                    let c = cat(b.as_str(), trim_str(stderr.as_str()).as_str());
                    let m = cat(
                        c.as_str(),
                        ". Please go to Settings and set a writable server directory like ~/minecraft",
                    );
                    let logs = one_log(log_msg(LogLevel::Error, m.clone()));
                    let r = self.fail(logs, m);
                    assert(step_view(final(self)@, r).logs =~= install_next(old(self)@, e).logs);
                    return r;
                }
            },
            _ => {},
        }
        let logs = one_log(
            log_msg(LogLevel::Info, String::from_str("Fetching version manifest from Mojang...")),
        );
        self.phase = Phase::AwaitManifest;
        let r = InstallStep { logs, action: InstallAction::FetchManifest };
        assert(step_view(final(self)@, r).logs =~= install_next(old(self)@, e).logs);
        r
    }

    fn on_manifest(&mut self, e: InstallEvent) -> (r: InstallStep)
        requires
            old(self)@.phase == Phase::AwaitManifest,
            fits(old(self)@.phase, e),
        ensures
            step_view(final(self)@, r) == install_next(old(self)@, e),
    {
        match e {
            InstallEvent::Manifest(vs) => {
                match find_version(&vs, self.version_id.as_str()) {
                    Some(i) => {
                        self.phase = Phase::AwaitMeta;
                        let r = InstallStep {
                            logs: no_logs(),
                            action: InstallAction::FetchMeta(vs[i].url.clone()),
                        };
                        r
                    },
                    None => {
                        let m = cat(
                            cat("Version ", self.version_id.as_str()).as_str(),
                            " not found",
                        );
                        let logs = one_log(log_msg(LogLevel::Error, cat("Error: ", m.as_str())));
                        let r = self.fail(logs, m);
                        assert(step_view(final(self)@, r).logs =~= install_next(old(self)@, e).logs);
                        r
                    },
                }
            },
            InstallEvent::ManifestFailed(err) => {
                let logs = one_log(
                    log_msg(LogLevel::Error, cat("Error fetching manifest: ", err.as_str())),
                );
                let r = self.fail(logs, err);
                assert(step_view(final(self)@, r).logs =~= install_next(old(self)@, e).logs);
                r
            },
            _ => self.fail(no_logs(), String::new()),
        }
    }

    fn on_meta(&mut self, e: InstallEvent) -> (r: InstallStep)
        requires
            old(self)@.phase == Phase::AwaitMeta,
            fits(old(self)@.phase, e),
        ensures
            step_view(final(self)@, r) == install_next(old(self)@, e),
    {
        match e {
            InstallEvent::Meta { url, sha1, size } => {
                let vd = version_dir(self.dir.as_str(), self.version_id.as_str());
                let mut logs = one_log(
                    InstallLog::JarSize { version_id: self.version_id.clone(), size },
                );
                push_log(&mut logs, log_msg(LogLevel::Info, cat("Server directory: ", vd.as_str())));
                push_log(&mut logs, log_msg(LogLevel::Other, cat("$ mkdir -p ", vd.as_str())));
                let cmd = cat(cat("mkdir -p '", vd.as_str()).as_str(), "'");
                self.url = url;
                self.sha1 = sha1;
                let r = self.run(Phase::MakeDir, cmd, logs);
                assert(step_view(final(self)@, r).logs =~= install_next(old(self)@, e).logs);
                r
            },
            InstallEvent::MetaRequestFailed(err) => self.fail(no_logs(), err),
            InstallEvent::MetaDecodeFailed(err) => {
                let logs = one_log(
                    log_msg(LogLevel::Error, cat("Error fetching version metadata: ", err.as_str())),
                );
                let r = self.fail(logs, err);
                assert(step_view(final(self)@, r).logs =~= install_next(old(self)@, e).logs);
                r
            },
            _ => self.fail(no_logs(), String::new()),
        }
    }

    fn on_make_dir(&mut self, e: InstallEvent) -> (r: InstallStep)
        requires
            old(self)@.phase == Phase::MakeDir,
        ensures
            step_view(final(self)@, r) == install_next(old(self)@, e),
    {
        let (mut logs, err) = shown(&e, self.command.as_str());
        match err {
            Some(m) => {
                push_log(
                    &mut logs,
                    log_msg(LogLevel::Error, cat("Error creating directory: ", m.as_str())),
                );
                self.fail(logs, m)
            },
            None => self.run(Phase::WhichWget, String::from_str("which wget"), logs),
        }
    }

    fn on_which_wget(&mut self, e: InstallEvent) -> (r: InstallStep)
        requires
            old(self)@.phase == Phase::WhichWget,
        ensures
            step_view(final(self)@, r) == install_next(old(self)@, e),
    {
        self.wget_found = match &e {
            InstallEvent::Ran { code, .. } => *code == 0,
            _ => true,
        };
        self.run(Phase::WhichCurl, String::from_str("which curl"), no_logs())
    }

    fn on_which_curl(&mut self, e: InstallEvent) -> (r: InstallStep)
        requires
            old(self)@.phase == Phase::WhichCurl,
        ensures
            step_view(final(self)@, r) == install_next(old(self)@, e),
    {
        let curl_found = match &e {
            InstallEvent::Ran { code, .. } => *code == 0,
            _ => true,
        };
        let jar = jar_path(self.dir.as_str(), self.version_id.as_str());
        if self.wget_found || curl_found {
            let wget = self.wget_found;
            let head = if wget {
                cat("wget -O '", jar.as_str())
            } else {
                cat("curl -L --progress-bar -o '", jar.as_str())
            };
            let a = cat(head.as_str(), "' '");
            let b = cat(a.as_str(), self.url.as_str());
            let cmd = cat(b.as_str(), "' 2>&1");
            let logs = one_log(log_msg(LogLevel::Other, cat("$ ", cmd.as_str())));
            self.use_wget = wget;
            let r = self.run(Phase::Download, cmd, logs);
            assert(step_view(final(self)@, r).logs =~= install_next(old(self)@, e).logs);
            r
        } else {
            let m = String::from_str(
                "Neither wget nor curl found on remote server. Install with: sudo apt install wget",
            );
            let logs = one_log(log_msg(LogLevel::Error, cat("Error: ", m.as_str())));
            let r = self.fail(logs, m);
            assert(step_view(final(self)@, r).logs =~= install_next(old(self)@, e).logs);
            r
        }
    }

    fn on_download(&mut self, e: InstallEvent) -> (r: InstallStep)
        requires
            old(self)@.phase == Phase::Download,
        ensures
            step_view(final(self)@, r) == install_next(old(self)@, e),
    {
        let (mut logs, err) = shown(&e, self.command.as_str());
        match err {
            Some(m) => {
                let what = if self.use_wget {
                    "wget failed: "
                } else {
                    "curl failed: "
                };
                push_log(&mut logs, log_msg(LogLevel::Error, cat(what, m.as_str())));
                self.fail(logs, m)
            },
            None => {
                let jar = jar_path(self.dir.as_str(), self.version_id.as_str());
                push_log(
                    &mut logs,
                    log_msg(LogLevel::Info, String::from_str("Verifying SHA1 checksum...")),
                );
                let cmd = cat(
                    cat("sha1sum '", jar.as_str()).as_str(),
                    "' | awk '{print $1}'",
                );
                self.run(Phase::Checksum, cmd, logs)
            },
        }
    }

    fn on_checksum(&mut self, e: InstallEvent) -> (r: InstallStep)
        requires
            old(self)@.phase == Phase::Checksum,
            fits(old(self)@.phase, e),
        ensures
            step_view(final(self)@, r) == install_next(old(self)@, e),
    {
        match e {
            InstallEvent::Ran { stdout, .. } => {
                let actual = trim_str(stdout.as_str());
                let jar = jar_path(self.dir.as_str(), self.version_id.as_str());
                let mut logs = one_log(log_msg(LogLevel::Info, cat("SHA1: ", actual.as_str())));
                if !str_eq(actual.as_str(), self.sha1.as_str()) {
                    let a = cat("SHA1 mismatch! Expected: ", self.sha1.as_str());
                    let b = cat(a.as_str(), ", Got: ");
                    let m = cat(b.as_str(), actual.as_str());
                    push_log(&mut logs, log_msg(LogLevel::Error, cat("Error: ", m.as_str())));
                    let cmd = cat(cat("rm -f '", jar.as_str()).as_str(), "'");
                    self.pending_error = m;
                    let r = self.run(Phase::Cleanup, cmd, logs);
                    assert(step_view(final(self)@, r).logs =~= install_next(old(self)@, e).logs);
                    r
                } else {
                    push_log(
                        &mut logs,
                        log_msg(LogLevel::Info, String::from_str("SHA1 checksum verified ✓")),
                    );
                    let cmd = cat(cat("chmod +x '", jar.as_str()).as_str(), "'");
                    let r = self.run(Phase::Chmod, cmd, logs);
                    assert(step_view(final(self)@, r).logs =~= install_next(old(self)@, e).logs);
                    r
                }
            },
            InstallEvent::RunFailed(m) => self.fail(no_logs(), m),
            _ => self.fail(no_logs(), String::new()),
        }
    }

    fn on_cleanup(&mut self, e: InstallEvent) -> (r: InstallStep)
        requires
            old(self)@.phase == Phase::Cleanup || old(self)@.phase == Phase::Finished,
        ensures
            step_view(final(self)@, r) == install_next(old(self)@, e),
    {
        if self.phase == Phase::Finished {
            return self.fail(no_logs(), String::new());
        }
        let m = self.pending_error.clone();
        self.fail(no_logs(), m)
    }

    fn on_chmod(&mut self, e: InstallEvent) -> (r: InstallStep)
        requires
            old(self)@.phase == Phase::Chmod,
        ensures
            step_view(final(self)@, r) == install_next(old(self)@, e),
    {
        let (mut logs, _err) = shown(&e, self.command.as_str());
        let ep = eula_path(self.dir.as_str(), self.version_id.as_str());
        let cmd = cat(cat("printf 'eula=true\\n' > '", ep.as_str()).as_str(), "'");
        push_log(
            &mut logs,
            log_msg(LogLevel::Info, String::from_str("Accepting EULA (creating eula.txt)...")),
        );
        push_log(&mut logs, log_msg(LogLevel::Other, cat("$ ", cmd.as_str())));
        let r = self.run(Phase::Eula, cmd, logs);
        assert(step_view(final(self)@, r).logs =~= install_next(old(self)@, e).logs);
        r
    }

    fn on_eula(&mut self, e: InstallEvent) -> (r: InstallStep)
        requires
            old(self)@.phase == Phase::Eula,
        ensures
            step_view(final(self)@, r) == install_next(old(self)@, e),
    {
        let (mut logs, err) = shown(&e, self.command.as_str());
        match err {
            Some(m) => push_log(
                &mut logs,
                log_msg(LogLevel::Warn, cat("Warning: could not create eula.txt: ", m.as_str())),
            ),
            None => push_log(
                &mut logs,
                log_msg(LogLevel::Info, String::from_str("eula.txt created ✓")),
            ),
        }
        let vd = version_dir(self.dir.as_str(), self.version_id.as_str());
        let cmd = cat(cat("ls -lh '", vd.as_str()).as_str(), "'");
        push_log(&mut logs, log_msg(LogLevel::Other, cat("$ ", cmd.as_str())));
        let r = self.run(Phase::Listing, cmd, logs);
        assert(step_view(final(self)@, r).logs =~= install_next(old(self)@, e).logs);
        r
    }

    fn on_listing(&mut self, e: InstallEvent) -> (r: InstallStep)
        requires
            old(self)@.phase == Phase::Listing,
        ensures
            step_view(final(self)@, r) == install_next(old(self)@, e),
    {
        let (mut logs, _err) = shown(&e, self.command.as_str());
        let vd = version_dir(self.dir.as_str(), self.version_id.as_str());
        push_log(
            &mut logs,
            log_msg(
                LogLevel::Info,
                cat("Installation complete! Server ready at: ", vd.as_str()),
            ),
        );
        self.phase = Phase::Finished;
        InstallStep { logs, action: InstallAction::Finish(vd) }
    }
}

/// The index of the first version with the id `id`, if any.
pub fn find_version(vs: &Vec<McVersion>, id: &str) -> (r: Option<usize>)
    ensures
        match r {
            Some(i) => i < vs@.len() && first_with_id(vs@, id@) == Some(i as int),
            None => first_with_id(vs@, id@) is None,
        },
        match r {
            Some(i) => vs@[i as int].id@ == id@ && forall|j: int|
                0 <= j < i ==> (#[trigger] vs@[j]).id@ != id@,
            None => forall|j: int| 0 <= j < vs@.len() ==> (#[trigger] vs@[j]).id@ != id@,
        },
{
    proof {
        law_first_with_id(vs@, id@);
    }
    let n = vs.len();
    let mut i: usize = 0;
    proof {
        assert(vs@.take(0) =~= seq![]);
    }
    while i < n
        invariant
            n == vs@.len(),
            i <= n,
            first_with_id(vs@.take(i as int), id@) is None,
        decreases n - i,
    {
        proof {
            assert(vs@.take(i + 1).drop_last() =~= vs@.take(i as int));
        }
        if str_eq(vs[i].id.as_str(), id) {
            proof {
                lemma_first_with_id_prefix(vs@, id@, i as int);
                law_first_with_id(vs@, id@);
            }
            return Some(i);
        }
        i = i + 1;
    }
    assert(vs@.take(n as int) =~= vs@);
    None
}

proof fn lemma_first_with_id_prefix(vs: Seq<McVersion>, id: Seq<char>, i: int)
    requires
        0 <= i < vs.len(),
        vs[i].id@ == id,
        first_with_id(vs.take(i), id) is None,
    ensures
        first_with_id(vs, id) == Some(i),
    decreases vs.len(),
{
    if i == vs.len() - 1 {
        assert(vs.drop_last() =~= vs.take(i));
    } else {
        assert(vs.drop_last().take(i) =~= vs.take(i));
        lemma_first_with_id_prefix(vs.drop_last(), id, i);
    }
}

} // verus!

verus! {

/// The state after answering the actions of `s` with the events `es`, one
/// after the other.
pub open spec fn trace(s: InstallerState, es: Seq<InstallEvent>) -> InstallerState
    decreases es.len(),
{
    if es.len() == 0 {
        s
    } else {
        install_next(trace(s, es.drop_last()), es.last()).state
    }
}

/// Whether a phase comes after the digest check of the jar.
pub open spec fn past_checksum(p: Phase) -> bool {
    p == Phase::Chmod || p == Phase::Eula || p == Phase::Listing
}

/// Whether `e` answers the digest check in state `s` with the digest that
/// the metadata gave.
pub open spec fn digest_matched(s: InstallerState, e: InstallEvent) -> bool {
    &&& s.phase == Phase::Checksum
    &&& e matches InstallEvent::Ran { stdout, .. } && trim(stdout@) == s.sha1
}

/// An installation finishes only from the listing of the version directory,
/// and what it reports is that directory.
pub proof fn law_finish_reports_version_dir(s: InstallerState, e: InstallEvent)
    requires
        install_next(s, e).action is Finish,
    ensures
        s.phase == Phase::Listing,
        install_next(s, e).action == ActionView::Finish(version_dir_spec(s.dir, s.version_id)),
        install_next(s, e).state.phase == Phase::Finished,
{
}

/// The phases after the digest check are entered only from one another, or
/// from the digest check with a digest that matched.
pub proof fn law_past_checksum_step(s: InstallerState, e: InstallEvent)
    requires
        past_checksum(install_next(s, e).state.phase),
    ensures
        past_checksum(s.phase) || digest_matched(s, e),
{
}

/// An installation that starts before the digest check reports success only
/// if, on the way, the digest of the downloaded jar matched the one that the
/// version metadata gave.
pub proof fn law_success_needs_matching_digest(
    s: InstallerState,
    es: Seq<InstallEvent>,
    e: InstallEvent,
)
    requires
        !past_checksum(s.phase),
        install_next(trace(s, es), e).action is Finish,
    ensures
        exists|k: int| 0 <= k < es.len() && #[trigger] digest_matched(trace(s, es.take(k)), es[k]),
{
    law_finish_reports_version_dir(trace(s, es), e);
    lemma_reach_past_checksum(s, es);
}

proof fn lemma_reach_past_checksum(s: InstallerState, es: Seq<InstallEvent>)
    requires
        !past_checksum(s.phase),
        past_checksum(trace(s, es).phase),
    ensures
        exists|k: int| 0 <= k < es.len() && #[trigger] digest_matched(trace(s, es.take(k)), es[k]),
    decreases es.len(),
{
    let d = es.drop_last();
    let t = trace(s, d);
    law_past_checksum_step(t, es.last());
    if past_checksum(t.phase) {
        lemma_reach_past_checksum(s, d);
        let k = choose|k: int| 0 <= k < d.len() && #[trigger] digest_matched(trace(s, d.take(k)), d[k]);
        assert(d.take(k) =~= es.take(k));
        assert(d[k] == es[k]);
        assert(digest_matched(trace(s, es.take(k)), es[k]));
    } else {
        let k = es.len() - 1;
        assert(es.take(k) =~= d);
        assert(digest_matched(trace(s, es.take(k)), es[k]));
    }
}

} // verus!

verus! {

/// Whether the phase waits for the answer to the action: a remote command
/// in the phases that wait for one, the manifest and the metadata in their
/// own phases, and nothing once the installation has succeeded or failed.
pub open spec fn action_fits(a: ActionView, p: Phase) -> bool {
    match a {
        ActionView::Run(_) => p != Phase::AwaitManifest && p != Phase::AwaitMeta && p
            != Phase::Finished,
        ActionView::FetchManifest => p == Phase::AwaitManifest,
        ActionView::FetchMeta(_) => p == Phase::AwaitMeta,
        ActionView::Finish(_) => p == Phase::Finished,
        ActionView::Fail(_) => p == Phase::Finished,
    }
}

/// The first step asks for what the installation then waits for.
pub proof fn law_start_asks_what_it_waits_for(version_id: Seq<char>, server_dir: Seq<char>)
    ensures
        action_fits(
            install_start(version_id, server_dir).action,
            install_start(version_id, server_dir).state.phase,
        ),
{
}

/// Each step asks for what the installation then waits for, so that the
/// answer to an action always fits the next step.
pub proof fn law_step_asks_what_it_waits_for(s: InstallerState, e: InstallEvent)
    requires
        fits(s.phase, e),
    ensures
        action_fits(install_next(s, e).action, install_next(s, e).state.phase),
{
}

} // verus!

verus! {

/// The version chosen for an id is the first one whose id equals it exactly;
/// when none is chosen, no version has that id.
pub proof fn law_first_with_id(vs: Seq<McVersion>, id: Seq<char>)
    ensures
        match first_with_id(vs, id) {
            Some(i) => 0 <= i < vs.len() && vs[i].id@ == id && forall|j: int|
                0 <= j < i ==> (#[trigger] vs[j]).id@ != id,
            None => forall|j: int| 0 <= j < vs.len() ==> (#[trigger] vs[j]).id@ != id,
        },
    decreases vs.len(),
{
    if vs.len() > 0 {
        let d = vs.drop_last();
        law_first_with_id(d, id);
        match first_with_id(d, id) {
            Some(i) => {
                assert(vs[i] == d[i]);
                assert forall|j: int| 0 <= j < i implies (#[trigger] vs[j]).id@ != id by {
                    assert(vs[j] == d[j]);
                }
            },
            None => {
                assert forall|j: int| 0 <= j < vs.len() - 1 implies (#[trigger] vs[j]).id@ != id by {
                    assert(vs[j] == d[j]);
                }
            },
        }
    }
}

} // verus!

verus! {

/// Given the manifest, the installation fetches the metadata of the first
/// version whose id is exactly the requested one, and fails, naming the id,
/// when no version has it.
pub proof fn law_manifest_picks_exact_version(s: InstallerState, vs: Vec<McVersion>)
    requires
        s.phase == Phase::AwaitManifest,
    ensures
        install_next(s, InstallEvent::Manifest(vs)).action matches ActionView::FetchMeta(u) ==> exists|
            i: int,
        |
            0 <= i < vs@.len() && (#[trigger] vs@[i]).id@ == s.version_id && u == vs@[i].url@ && forall|
                j: int,
            | 0 <= j < i ==> (#[trigger] vs@[j]).id@ != s.version_id,
        (forall|j: int| 0 <= j < vs@.len() ==> (#[trigger] vs@[j]).id@ != s.version_id)
            ==> install_next(s, InstallEvent::Manifest(vs)).action == ActionView::Fail(
            "Version "@ + s.version_id + " not found"@,
        ),
{
    law_first_with_id(vs@, s.version_id);
    match first_with_id(vs@, s.version_id) {
        Some(i) => {
            assert(vs@[i].id@ == s.version_id);
        },
        None => {},
    }
}

} // verus!
