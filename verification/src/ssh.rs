//! The decisions around an SSH session: how to log in, where to connect,
//! how the output of a remote command is gathered, and the `tmux` command
//! that types into a server console.
use vstd::prelude::*;
use vstd::utf8::{decode_utf8, valid_utf8};
use crate::text::{cat, decimal, decimal_str};
use crate::properties::{escape_single_quotes, quote_escape};
use crate::text::str_eq;

verus! {

/// What a connection profile holds for logging in.
pub struct SshCredentials {
    pub host: String,
    pub port: u16,
    pub username: String,
    pub auth_method: String,
    pub password: Option<String>,
    pub key_path: Option<String>,
}

/// How to log in.
pub enum AuthPlan {
    /// With a password.
    Password { username: String, password: String },
    /// With the private key in the file at `key_path`.
    Key { username: String, key_path: String },
}

/// Why a connection could not be made.
pub enum ConnectError {
    /// The server did not answer within 10 seconds.
    TimedOut,
    /// The connection failed; the reason.
    ConnectFailed(String),
    /// The password method was chosen without a password.
    NoPassword,
    /// The key method was chosen without a key path.
    NoKeyPath,
    /// The key file could not be loaded; the reason.
    KeyLoadFailed(String),
    /// The method is neither `password` nor `key`; the method.
    UnknownMethod(String),
    /// Logging in failed on the way; the reason.
    AuthFailed(String),
    /// The server refused the credentials.
    AuthRejected,
}

/// The text of a connection error.
pub open spec fn connect_error_text(e: ConnectError) -> Seq<char> {
    match e {
        ConnectError::TimedOut => "Connection timed out after 10 seconds"@,
        ConnectError::ConnectFailed(s) => "SSH connect failed: "@ + s@,
        ConnectError::NoPassword => "No password provided"@,
        ConnectError::NoKeyPath => "No key path provided"@,
        ConnectError::KeyLoadFailed(s) => "Failed to load key: "@ + s@,
        ConnectError::UnknownMethod(s) => "Unknown auth method: "@ + s@,
        ConnectError::AuthFailed(s) => s@,
        ConnectError::AuthRejected => "Authentication failed — check credentials"@,
    }
}

impl ConnectError {
    /// The text of the error, as it is shown to the user.
    pub fn message(&self) -> (r: String)
        ensures
            r@ == connect_error_text(*self),
    {
        match self {
            ConnectError::TimedOut => String::from_str("Connection timed out after 10 seconds"),
            ConnectError::ConnectFailed(s) => cat("SSH connect failed: ", s.as_str()),
            ConnectError::NoPassword => String::from_str("No password provided"),
            ConnectError::NoKeyPath => String::from_str("No key path provided"),
            ConnectError::KeyLoadFailed(s) => cat("Failed to load key: ", s.as_str()),
            ConnectError::UnknownMethod(s) => cat("Unknown auth method: ", s.as_str()),
            ConnectError::AuthFailed(s) => s.clone(),
            ConnectError::AuthRejected => String::from_str("Authentication failed — check credentials"),
        }
    }
}

/// The address to connect to: the host, a colon and the port.
pub fn ssh_address(host: &str, port: u16) -> (r: String)
    ensures
        r@ == host@ + ":"@ + decimal(port as nat),
{
    let a = cat(host, ":");
    cat(a.as_str(), decimal_str(port as u64).as_str())
}

/// How to log in with `creds`: the method `password` needs a password and
/// the method `key` a key path; any other method is refused.
pub fn auth_plan(creds: SshCredentials) -> (r: Result<AuthPlan, ConnectError>)
    ensures
        creds.auth_method@ == "password"@ ==> match creds.password {
            Some(p) => r matches Ok(AuthPlan::Password { username, password }) && username
                == creds.username && password == p,
            None => r matches Err(ConnectError::NoPassword),
        },
        creds.auth_method@ == "key"@ ==> match creds.key_path {
            Some(k) => r matches Ok(AuthPlan::Key { username, key_path }) && username == creds.username
                && key_path == k,
            None => r matches Err(ConnectError::NoKeyPath),
        },
        creds.auth_method@ != "password"@ && creds.auth_method@ != "key"@ ==> (r matches Err(
            ConnectError::UnknownMethod(m),
        ) && m == creds.auth_method),
{
    proof {
        reveal_strlit("password");
        reveal_strlit("key");
        assert("password"@.len() != "key"@.len());
    }
    if str_eq(creds.auth_method.as_str(), "password") {
        match creds.password {
            Some(p) => Ok(AuthPlan::Password { username: creds.username, password: p }),
            None => Err(ConnectError::NoPassword),
        }
    } else if str_eq(creds.auth_method.as_str(), "key") {
        match creds.key_path {
            Some(k) => Ok(AuthPlan::Key { username: creds.username, key_path: k }),
            None => Err(ConnectError::NoKeyPath),
        }
    } else {
        Err(ConnectError::UnknownMethod(creds.auth_method))
    }
}

/// Whether logging in worked, given whether the server accepted it.
pub fn auth_outcome(authenticated: bool) -> (r: Result<(), ConnectError>)
    ensures
        authenticated ==> r is Ok,
        !authenticated ==> r matches Err(ConnectError::AuthRejected),
{
    if !authenticated {
        return Err(ConnectError::AuthRejected);
    }
    Ok(())
}

/// The shell command that types `keys` into the `tmux` session
/// `session_name` and presses Enter.
pub fn tmux_send_keys_command(session_name: &str, keys: &str) -> (r: String)
    ensures
        r@ == "tmux send-keys -t "@ + session_name@ + " '"@ + quote_escape(keys@) + "' Enter"@,
{
    let escaped = escape_single_quotes(keys);
    let a = cat("tmux send-keys -t ", session_name);
    let b = cat(a.as_str(), " '");
    let c = cat(b.as_str(), escaped.as_str());
    cat(c.as_str(), "' Enter")
}

/// A message that the channel of a remote command delivers.
pub enum ChannelEvent {
    /// Bytes of standard output.
    Data(Vec<u8>),
    /// Bytes of error output.
    ExtendedData(Vec<u8>),
    /// The exit code of the command.
    ExitStatus(u32),
    /// The end of the output; the exit status may still follow.
    Eof,
    /// The channel closed.
    Closed,
    /// Any other message.
    Other,
}

/// What has been gathered of a remote command's run: standard output, error
/// output, exit code, whether the output has ended, and whether the channel
/// has closed.
pub struct ExecState {
    pub stdout: Seq<u8>,
    pub stderr: Seq<u8>,
    pub exit_code: u32,
    pub eof: bool,
    pub done: bool,
}

/// What one channel message adds to what has been gathered: output bytes
/// are appended until the end of the output, an exit status is kept (also
/// one that comes after the end of the output), the closing of the channel
/// ends the gathering, and after that nothing changes.
pub open spec fn gather(s: ExecState, e: ChannelEvent) -> ExecState {
    if s.done {
        s
    } else {
        match e {
            ChannelEvent::Data(d) => if s.eof {
                s
            } else {
                ExecState { stdout: s.stdout + d@, ..s }
            },
            ChannelEvent::ExtendedData(d) => if s.eof {
                s
            } else {
                ExecState { stderr: s.stderr + d@, ..s }
            },
            ChannelEvent::ExitStatus(c) => ExecState { exit_code: c, ..s },
            ChannelEvent::Eof => ExecState { eof: true, ..s },
            ChannelEvent::Closed => ExecState { done: true, ..s },
            ChannelEvent::Other => s,
        }
    }
}

/// Nothing gathered yet; the exit code is 0 until the command reports one.
pub open spec fn gather_start() -> ExecState {
    ExecState { stdout: seq![], stderr: seq![], exit_code: 0, eof: false, done: false }
}

/// What a sequence of channel messages gathers.
pub open spec fn gather_all(es: Seq<ChannelEvent>) -> ExecState
    decreases es.len(),
{
    if es.len() == 0 {
        gather_start()
    } else {
        gather(gather_all(es.drop_last()), es.last())
    }
}

/// Gathers the output of a remote command from its channel messages.
pub struct ExecCollector {
    stdout: Vec<u8>,
    stderr: Vec<u8>,
    exit_code: u32,
    eof: bool,
    done: bool,
}

impl View for ExecCollector {
    type V = ExecState;

    closed spec fn view(&self) -> ExecState {
        ExecState {
            stdout: self.stdout@,
            stderr: self.stderr@,
            exit_code: self.exit_code,
            eof: self.eof,
            done: self.done,
        }
    }
}

/// What `String::from_utf8_lossy` makes of some bytes.
pub uninterp spec fn lossy_utf8(bytes: Seq<u8>) -> Seq<char>;

/// Calls `String::from_utf8_lossy`: the result is named `lossy_utf8` of the
/// bytes, and bytes that are valid UTF-8 are decoded unchanged. What it makes
/// of invalid sequences (each becomes U+FFFD) is not stated.
#[verifier::external_body]
fn utf8_lossy(bytes: &[u8]) -> (r: String)
    ensures
        r@ == lossy_utf8(bytes@),
        valid_utf8(bytes@) ==> r@ == decode_utf8(bytes@),
{
    String::from_utf8_lossy(bytes).into_owned()
}

fn append_bytes(out: &mut Vec<u8>, d: &Vec<u8>)
    ensures
        final(out)@ == old(out)@ + d@,
{
    let n = d.len();
    let mut i: usize = 0;
    while i < n
        invariant
            n == d@.len(),
            i <= n,
            out@ == old(out)@ + d@.take(i as int),
        decreases n - i,
    {
        out.push(d[i]);
        assert(d@.take(i + 1) =~= d@.take(i as int).push(d@[i as int]));
        assert(out@ =~= old(out)@ + d@.take(i + 1));
        i = i + 1;
    }
    assert(d@.take(n as int) =~= d@);
}

impl ExecCollector {
    /// Nothing gathered yet.
    pub fn new() -> (r: ExecCollector)
        ensures
            r@ == gather_start(),
    {
        ExecCollector {
            stdout: Vec::new(),
            stderr: Vec::new(),
            exit_code: 0,
            eof: false,
            done: false,
        }
    }

    /// Takes in one channel message; tells whether more are to be read.
    pub fn step(&mut self, e: ChannelEvent) -> (more: bool)
        ensures
            final(self)@ == gather(old(self)@, e),
            more == !final(self)@.done,
    {
        if self.done {
            return false;
        }
        match e {
            ChannelEvent::Data(d) => {
                if !self.eof {
                    append_bytes(&mut self.stdout, &d);
                }
            },
            ChannelEvent::ExtendedData(d) => {
                if !self.eof {
                    append_bytes(&mut self.stderr, &d);
                }
            },
            ChannelEvent::ExitStatus(c) => {
                self.exit_code = c;
            },
            ChannelEvent::Eof => {
                self.eof = true;
            },
            ChannelEvent::Closed => {
                self.done = true;
            },
            ChannelEvent::Other => {},
        }
        !self.done
    }

    /// The standard output and error output as text, and the exit code.
    pub fn into_output(self) -> (r: (String, String, u32))
        ensures
            r.0@ == lossy_utf8(self@.stdout),
            r.1@ == lossy_utf8(self@.stderr),
            valid_utf8(self@.stdout) ==> r.0@ == decode_utf8(self@.stdout),
            valid_utf8(self@.stderr) ==> r.1@ == decode_utf8(self@.stderr),
            r.2 == self@.exit_code,
    {
        let out = utf8_lossy(self.stdout.as_slice());
        let err = utf8_lossy(self.stderr.as_slice());
        (out, err, self.exit_code)
    }
}

/// Once the channel has closed, later channel messages change nothing.
pub proof fn law_gather_ends(es: Seq<ChannelEvent>, more: Seq<ChannelEvent>)
    requires
        gather_all(es).done,
    ensures
        gather_all(es + more) == gather_all(es),
    decreases more.len(),
{
    if more.len() == 0 {
        assert(es + more =~= es);
    } else {
        law_gather_ends(es, more.drop_last());
        assert((es + more).drop_last() =~= es + more.drop_last());
    }
}

/// The standard output gathered is the data of the standard-output messages
/// before the end of the output, in order; error output comes only from its
/// own messages.
pub proof fn law_gather_step_data(es: Seq<ChannelEvent>, d: Vec<u8>)
    requires
        !gather_all(es).done,
        !gather_all(es).eof,
    ensures
        gather_all(es.push(ChannelEvent::Data(d))).stdout == gather_all(es).stdout + d@,
        gather_all(es.push(ChannelEvent::Data(d))).stderr == gather_all(es).stderr,
        gather_all(es.push(ChannelEvent::ExtendedData(d))).stderr == gather_all(es).stderr + d@,
        gather_all(es.push(ChannelEvent::ExtendedData(d))).stdout == gather_all(es).stdout,
{
    assert(es.push(ChannelEvent::Data(d)).drop_last() =~= es);
    assert(es.push(ChannelEvent::ExtendedData(d)).drop_last() =~= es);
}

/// The exit code gathered is the last exit status received before the
/// channel closed: an exit status replaces it, and every other message
/// leaves it as it was.
pub proof fn law_gather_exit_code(es: Seq<ChannelEvent>, e: ChannelEvent)
    requires
        !gather_all(es).done,
    ensures
        e matches ChannelEvent::ExitStatus(c) ==> gather_all(es.push(e)).exit_code == c,
        !(e is ExitStatus) ==> gather_all(es.push(e)).exit_code == gather_all(es).exit_code,
        gather_all(es.push(e)).done <==> e is Closed,
{
    assert(es.push(e).drop_last() =~= es);
}

/// An exit status that comes after the end of the output is kept.
pub proof fn law_exit_status_after_eof(es: Seq<ChannelEvent>, c: u32)
    requires
        !gather_all(es).done,
    ensures
        gather_all(es.push(ChannelEvent::Eof).push(ChannelEvent::ExitStatus(c))).exit_code == c,
        !gather_all(es.push(ChannelEvent::Eof)).done,
{
    let a = es.push(ChannelEvent::Eof);
    assert(a.drop_last() =~= es);
    assert(a.last() == ChannelEvent::Eof);
    assert(gather_all(a) == gather(gather_all(es), ChannelEvent::Eof));
    let b = a.push(ChannelEvent::ExitStatus(c));
    assert(b.drop_last() =~= a);
    assert(b.last() == ChannelEvent::ExitStatus(c));
    assert(gather_all(b) == gather(gather_all(a), ChannelEvent::ExitStatus(c)));
}

/// Output that comes after the end of the output is not gathered.
pub proof fn law_no_output_after_eof(es: Seq<ChannelEvent>, d: Vec<u8>)
    requires
        gather_all(es).eof,
    ensures
        gather_all(es.push(ChannelEvent::Data(d))) == gather_all(es),
        gather_all(es.push(ChannelEvent::ExtendedData(d))) == gather_all(es),
{
    assert(es.push(ChannelEvent::Data(d)).drop_last() =~= es);
    assert(es.push(ChannelEvent::ExtendedData(d)).drop_last() =~= es);
}

} // verus!
