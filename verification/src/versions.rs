//! Minecraft versions, the log lines shown while installing one, remote
//! command output, and the Base64 upload of files through shell commands.
use vstd::prelude::*;
use crate::text::{
    cat, decimal, decimal_str, lines, nonblank, nonblank_lines, trim, trim_str, views,
};
use crate::text::str_eq;

verus! {

/// How a log line is shown.
#[derive(Clone, Copy, Debug, PartialEq, Eq, Structural)]
pub enum LogLevel {
    Info,
    Warn,
    Error,
    Other,
}

/// One line of the installation log.
pub struct LogLine {
    pub raw: String,
    pub level: LogLevel,
    pub timestamp: Option<String>,
}

/// The text and level of a log line without a timestamp.
pub open spec fn plain_log(level: LogLevel, text: Seq<char>) -> (LogLevel, Seq<char>, Option<Seq<char>>) {
    (level, text, None)
}

impl View for LogLine {
    type V = (LogLevel, Seq<char>, Option<Seq<char>>);

    open spec fn view(&self) -> (LogLevel, Seq<char>, Option<Seq<char>>) {
        (
            self.level,
            self.raw@,
            match self.timestamp {
                Some(t) => Some(t@),
                None => None,
            },
        )
    }
}

impl LogLine {
    /// A log line with the text `msg` at `level` and no timestamp.
    pub fn new(msg: String, level: LogLevel) -> (r: LogLine)
        ensures
            r@ == plain_log(level, msg@),
    {
        LogLine { raw: msg, level, timestamp: None }
    }
}

/// The views of a sequence of log lines.
pub open spec fn log_views(v: Seq<LogLine>) -> Seq<(LogLevel, Seq<char>, Option<Seq<char>>)> {
    v.map_values(|l: LogLine| l@)
}

/// A Minecraft version as the version manifest lists it.
pub struct McVersion {
    pub id: String,
    pub version_type: String,
    pub url: String,
    pub release_time: String,
}

/// Whether `v` is listed: all versions are when snapshots are included,
/// otherwise only those of type `release`.
pub open spec fn listed(v: McVersion, include_snapshots: bool) -> bool {
    include_snapshots || v.version_type@ == "release"@
}

/// The versions of `vs` that are listed, in their order.
pub open spec fn listed_versions(vs: Seq<McVersion>, include_snapshots: bool) -> Seq<McVersion>
    decreases vs.len(),
{
    if vs.len() == 0 {
        seq![]
    } else {
        (if listed(vs[0], include_snapshots) {
            seq![vs[0]]
        } else {
            seq![]
        }) + listed_versions(vs.drop_first(), include_snapshots)
    }
}

/// The versions of the manifest that are shown: all of them when snapshots
/// are included, otherwise the releases, in the manifest's order.
pub fn filter_versions(versions: Vec<McVersion>, include_snapshots: bool) -> (r: Vec<McVersion>)
    ensures
        r@ == listed_versions(versions@, include_snapshots),
        !include_snapshots ==> r@ == versions@.filter(|v: McVersion| v.version_type@ == "release"@),
        include_snapshots ==> r@ == versions@,
{
    proof {
        law_listed_is_filter(versions@);
    }
    let ghost orig = versions@;
    let mut rest = versions;
    let mut out: Vec<McVersion> = Vec::new();
    proof {
        assert(orig.skip(0) =~= orig);
    }
    while rest.len() > 0
        invariant
            rest@.len() <= orig.len(),
            rest@ == orig.skip(orig.len() - rest@.len()),
            listed_versions(orig, include_snapshots) == out@ + listed_versions(rest@, include_snapshots),
        decreases rest.len(),
    {
        let ghost r0 = rest@;
        let v = rest.remove(0);
        proof {
            assert(rest@ =~= r0.drop_first());
            assert(rest@ =~= orig.skip(orig.len() - rest@.len()));
        }
        let keep = include_snapshots || str_eq(v.version_type.as_str(), "release");
        let ghost before = out@;
        if keep {
            out.push(v);
            assert(out@ + listed_versions(rest@, include_snapshots) =~= before + listed_versions(r0, include_snapshots));
        } else {
            assert(before + listed_versions(rest@, include_snapshots) =~= before + listed_versions(r0, include_snapshots));
        }
    }
    assert(listed_versions(rest@, include_snapshots) =~= seq![]);
    assert(out@ + seq![] =~= out@);
    out
}

/// With snapshots included, every version of the manifest is listed.
pub proof fn law_all_listed_with_snapshots(vs: Seq<McVersion>)
    ensures
        listed_versions(vs, true) == vs,
    decreases vs.len(),
{
    if vs.len() > 0 {
        law_all_listed_with_snapshots(vs.drop_first());
        assert(seq![vs[0]] + vs.drop_first() =~= vs);
    }
}

/// Without snapshots, only releases are listed.
pub proof fn law_only_releases_listed(vs: Seq<McVersion>)
    ensures
        forall|i: int|
            0 <= i < listed_versions(vs, false).len() ==> (#[trigger] listed_versions(vs, false)[i]).version_type@
                == "release"@,
    decreases vs.len(),
{
    if vs.len() > 0 {
        law_only_releases_listed(vs.drop_first());
        let h = if listed(vs[0], false) {
            seq![vs[0]]
        } else {
            seq![]
        };
        let t = listed_versions(vs.drop_first(), false);
        assert forall|i: int| 0 <= i < (h + t).len() implies (#[trigger] (h + t)[i]).version_type@
            == "release"@ by {
            if i >= h.len() {
                assert((h + t)[i] == t[i - h.len()]);
            }
        }
    }
}

/// The log lines that the output of a remote command gives: each line of its
/// standard output with more than whitespace at `Info`, then each such line
/// of its error output at `Warn`.
pub open spec fn output_logs(stdout: Seq<char>, stderr: Seq<char>) -> Seq<
    (LogLevel, Seq<char>, Option<Seq<char>>),
> {
    nonblank(lines(stdout)).map_values(|l: Seq<char>| plain_log(LogLevel::Info, l)) + nonblank(
        lines(stderr),
    ).map_values(|l: Seq<char>| plain_log(LogLevel::Warn, l))
}

fn push_lines(out: &mut Vec<LogLine>, ls: Vec<String>, level: LogLevel)
    ensures
        log_views(final(out)@) == log_views(old(out)@) + views(ls@).map_values(
            |l: Seq<char>| plain_log(level, l),
        ),
{
    let n = ls.len();
    let ghost start = log_views(out@);
    let mut rest = ls;
    let ghost all = views(rest@);
    let mut i: usize = 0;
    proof {
        assert(all.take(0).map_values(|l: Seq<char>| plain_log(level, l)) =~= seq![]);
        assert(start + seq![] =~= start);
    }
    while i < n
        invariant
            n == all.len(),
            i <= n,
            rest@.len() == n - i,
            views(rest@) == all.skip(i as int),
            log_views(out@) == start + all.take(i as int).map_values(
                |l: Seq<char>| plain_log(level, l),
            ),
        decreases n - i,
    {
        let ghost r0 = rest@;
        let line = rest.remove(0);
        proof {
            assert(views(rest@) =~= views(r0).drop_first());
            assert(views(r0)[0] == line@);
            assert(all.skip(i as int).drop_first() =~= all.skip(i + 1));
            assert(all[i as int] == line@);
        }
        let ghost before = log_views(out@);
        out.push(LogLine::new(line, level));
        proof {
            assert(log_views(out@) =~= before.push(plain_log(level, all[i as int])));
            assert(all.take(i + 1).map_values(|l: Seq<char>| plain_log(level, l)) =~= all.take(
                i as int,
            ).map_values(|l: Seq<char>| plain_log(level, l)).push(plain_log(level, all[i as int])));
        }
        i = i + 1;
    }
    assert(all.take(n as int) =~= all);
}

/// The log lines that the output of a remote command gives (see
/// `output_logs`).
pub fn command_output_logs(stdout: &str, stderr: &str) -> (r: Vec<LogLine>)
    ensures
        log_views(r@) == output_logs(stdout@, stderr@),
{
    let mut out: Vec<LogLine> = Vec::new();
    assert(log_views(out@) =~= seq![]);
    push_lines(&mut out, nonblank_lines(stdout), LogLevel::Info);
    push_lines(&mut out, nonblank_lines(stderr), LogLevel::Warn);
    assert(log_views(out@) =~= output_logs(stdout@, stderr@));
    out
}

/// The error of a remote command that ended with a nonzero exit code.
pub open spec fn exit_error(code: u32, cmd: Seq<char>) -> Seq<char> {
    "Command exited with code "@ + decimal(code as nat) + ": "@ + cmd
}

/// Whether a remote command succeeded: it did when its exit code is 0;
/// otherwise the error names the code and the command.
pub fn command_result(code: u32, cmd: &str) -> (r: Result<(), String>)
    ensures
        code == 0 ==> r is Ok,
        code != 0 ==> (r matches Err(e) && e@ == exit_error(code, cmd@)),
{
    if code != 0 {
        let d = decimal_str(code as u64);
        let a = cat("Command exited with code ", d.as_str());
        let b = cat(a.as_str(), ": ");
        return Err(cat(b.as_str(), cmd));
    }
    Ok(())
}

} // verus!

verus! {

/// The Base64 alphabet of RFC 4648.
pub open spec fn b64_alphabet() -> Seq<char> {
    "ABCDEFGHIJKLMNOPQRSTUVWXYZabcdefghijklmnopqrstuvwxyz0123456789+/"@
}

/// The four characters that encode a group of `k` bytes (1 to 3): the bytes
/// `b0 b1 b2`, missing ones taken as zero, read as one 24-bit number and
/// written as four 6-bit digits, the digits past the `k` bytes replaced by
/// `=`.
pub open spec fn b64_group(b0: u8, b1: u8, b2: u8, k: int) -> Seq<char> {
    let n = b0 as int * 65536 + b1 as int * 256 + b2 as int;
    seq![
        b64_alphabet()[n / 262144],
        b64_alphabet()[(n / 4096) % 64],
        if k > 1 {
            b64_alphabet()[(n / 64) % 64]
        } else {
            '='
        },
        if k > 2 {
            b64_alphabet()[n % 64]
        } else {
            '='
        },
    ]
}

/// The padded Base64 encoding of `d`.
pub open spec fn base64(d: Seq<u8>) -> Seq<char>
    decreases d.len(),
{
    if d.len() == 0 {
        seq![]
    } else if d.len() < 3 {
        b64_group(d[0], if d.len() > 1 { d[1] } else { 0 }, 0, d.len() as int)
    } else {
        b64_group(d[0], d[1], d[2], 3) + base64(d.skip(3))
    }
}

proof fn lemma_b64_combine(b0: u32, b1: u32, b2: u32)
    requires
        b0 < 256,
        b1 < 256,
        b2 < 256,
    ensures
        (b0 << 16u32) | (b1 << 8u32) | b2 == b0 * 65536 + b1 * 256 + b2,
{
    assert((b0 << 16u32) | (b1 << 8u32) | b2 == b0 * 65536 + b1 * 256 + b2) by (bit_vector)
        requires
            b0 < 256,
            b1 < 256,
            b2 < 256,
    ;
}

proof fn lemma_b64_digits(n: u32)
    requires
        n < 0x1000000,
    ensures
        (n >> 18u32) & 0x3f == n / 262144,
        (n >> 12u32) & 0x3f == (n / 4096) % 64,
        (n >> 6u32) & 0x3f == (n / 64) % 64,
        n & 0x3f == n % 64,
{
    assert((n >> 18u32) & 0x3f == n / 262144) by (bit_vector)
        requires
            n < 0x1000000,
    ;
    assert((n >> 12u32) & 0x3f == (n / 4096) % 64) by (bit_vector);
    assert((n >> 6u32) & 0x3f == (n / 64) % 64) by (bit_vector);
    assert(n & 0x3f == n % 64) by (bit_vector);
}

/// Appends the alphabet character for the digit `d`.
fn push_digit(out: &mut String, d: u32)
    requires
        d < 64,
    ensures
        final(out)@ == old(out)@.push(b64_alphabet()[d as int]),
{
    let alphabet = "ABCDEFGHIJKLMNOPQRSTUVWXYZabcdefghijklmnopqrstuvwxyz0123456789+/";
    proof {
        reveal_strlit("ABCDEFGHIJKLMNOPQRSTUVWXYZabcdefghijklmnopqrstuvwxyz0123456789+/");
    }
    let i = d as usize;
    let one = alphabet.substring_char(i, i + 1);
    assert(one@ =~= seq![b64_alphabet()[d as int]]);
    out.append(one);
    assert(final(out)@ =~= old(out)@.push(b64_alphabet()[d as int]));
}

/// The padded Base64 encoding of `data`, with the standard alphabet.
pub fn base64_encode(data: &[u8]) -> (r: String)
    ensures
        r@ == base64(data@),
{
    let len = data.len();
    let mut out = String::new();
    let mut i: usize = 0;
    proof {
        reveal_strlit("=");
        assert(data@.skip(0) =~= data@);
    }
    while i < len
        invariant
            len == data@.len(),
            i <= len,
            "="@ == seq!['='],
            base64(data@) == out@ + base64(data@.skip(i as int)),
        decreases len - i,
    {
        let rem = len - i;
        let b0 = data[i] as u32;
        let b1 = if rem > 1 { data[i + 1] as u32 } else { 0 };
        let b2 = if rem > 2 { data[i + 2] as u32 } else { 0 };
        proof {
            lemma_b64_combine(b0, b1, b2);
        }
        let n = (b0 << 16u32) | (b1 << 8u32) | b2;
        proof {
            lemma_b64_digits(n);
        }
        let ghost rest = data@.skip(i as int);
        let ghost g = b64_group(
            rest[0],
            if rest.len() > 1 { rest[1] } else { 0 },
            if rest.len() > 2 { rest[2] } else { 0 },
            if rest.len() > 3 { 3 } else { rest.len() as int },
        );
        let ghost before = out@;
        push_digit(&mut out, (n >> 18u32) & 0x3f);
        push_digit(&mut out, (n >> 12u32) & 0x3f);
        if rem > 1 {
            push_digit(&mut out, (n >> 6u32) & 0x3f);
        } else {
            out.append("=");
        }
        if rem > 2 {
            push_digit(&mut out, n & 0x3f);
        } else {
            out.append("=");
        }
        proof {
            assert(out@ =~= before + g);
        }
        if rem < 3 {
            proof {
                assert(base64(rest) == g);
                assert(data@.skip(len as int) =~= seq![]);
                assert(out@ + base64(data@.skip(len as int)) =~= out@);
            }
            i = len;
        } else {
            proof {
                assert(rest.skip(3) =~= data@.skip(i + 3));
                assert(base64(rest) == g + base64(data@.skip(i + 3)));
            }
            i = i + 3;
        }
    }
    assert(data@.skip(len as int) =~= seq![]);
    assert(out@ + base64(data@.skip(len as int)) =~= out@);
    out
}

/// The encoding has four characters for each started group of three bytes.
pub proof fn law_base64_length(d: Seq<u8>)
    ensures
        base64(d).len() == 4 * ((d.len() + 2) / 3),
    decreases d.len(),
{
    if d.len() >= 3 {
        law_base64_length(d.skip(3));
    }
}

/// Encoding a concatenation whose first part is whole groups of three bytes
/// is encoding each part.
pub proof fn law_base64_concat(a: Seq<u8>, b: Seq<u8>)
    requires
        a.len() % 3 == 0,
    ensures
        base64(a + b) == base64(a) + base64(b),
    decreases a.len(),
{
    if a.len() == 0 {
        assert(a + b =~= b);
        assert(base64(a) + base64(b) =~= base64(b));
    } else {
        law_base64_concat(a.skip(3), b);
        assert((a + b).skip(3) =~= a.skip(3) + b);
        assert((a + b)[0] == a[0] && (a + b)[1] == a[1] && (a + b)[2] == a[2]);
        assert(base64(a + b) =~= base64(a) + base64(b));
    }
}

} // verus!

verus! {

/// The pieces of at most 50 000 characters that `s` is sent in, in order.
pub open spec fn upload_chunks(s: Seq<char>) -> Seq<Seq<char>>
    decreases s.len(),
{
    if s.len() == 0 {
        seq![]
    } else if s.len() <= 50000 {
        seq![s]
    } else {
        seq![s.take(50000)] + upload_chunks(s.skip(50000))
    }
}

/// The pieces joined back together.
pub open spec fn concat_all(ls: Seq<Seq<char>>) -> Seq<char>
    decreases ls.len(),
{
    if ls.len() == 0 {
        seq![]
    } else {
        ls[0] + concat_all(ls.drop_first())
    }
}

/// The shell command that empties the file at `path`.
pub open spec fn truncate_command_spec(path: Seq<char>) -> Seq<char> {
    "> '"@ + path + "'"@
}

/// The shell command that decodes one Base64 piece and appends it to `path`.
pub open spec fn chunk_command_spec(chunk: Seq<char>, path: Seq<char>) -> Seq<char> {
    "echo '"@ + chunk + "' | base64 -d >> '"@ + path + "'"@
}

/// The commands that upload a file: one that empties the target, then one
/// per piece of the Base64 text.
pub struct UploadPlan {
    pub truncate_command: String,
    pub chunk_commands: Vec<String>,
}

/// The commands that write `data` to `remote_path`: the file is emptied,
/// then the Base64 encoding of `data` is sent in pieces of 50 000
/// characters, each decoded and appended on the remote side.
pub fn upload_plan(data: &[u8], remote_path: &str) -> (r: UploadPlan)
    ensures
        r.truncate_command@ == truncate_command_spec(remote_path@),
        views(r.chunk_commands@) == upload_chunks(base64(data@)).map_values(
            |c: Seq<char>| chunk_command_spec(c, remote_path@),
        ),
{
    let b64 = base64_encode(data);
    let n = b64.as_str().unicode_len();
    let truncate_command = cat(cat("> '", remote_path).as_str(), "'");
    let mut cmds: Vec<String> = Vec::new();
    let ghost mut cs: Seq<Seq<char>> = seq![];
    let mut start: usize = 0;
    proof {
        assert(b64@.skip(0) =~= b64@);
        assert(upload_chunks(b64@) =~= cs + upload_chunks(b64@.skip(0)));
    }
    while start < n
        invariant
            n == b64@.len(),
            start <= n,
            upload_chunks(b64@) == cs + upload_chunks(b64@.skip(start as int)),
            views(cmds@) == cs.map_values(|c: Seq<char>| chunk_command_spec(c, remote_path@)),
        decreases n - start,
    {
        let end = if n - start > 50000 {
            start + 50000
        } else {
            n
        };
        let chunk = b64.as_str().substring_char(start, end);
        let a = cat("echo '", chunk);
        let b = cat(a.as_str(), "' | base64 -d >> '");
        let c = cat(b.as_str(), remote_path);
        let cmd = cat(c.as_str(), "'");
        let ghost rest = b64@.skip(start as int);
        let ghost before = views(cmds@);
        let ghost old_cs = cs;
        cmds.push(cmd);
        proof {
            cs = cs.push(chunk@);
            assert(views(cmds@) =~= before.push(chunk_command_spec(chunk@, remote_path@)));
            assert(cs.map_values(|c: Seq<char>| chunk_command_spec(c, remote_path@)) =~= old_cs.map_values(
                |c: Seq<char>| chunk_command_spec(c, remote_path@),
            ).push(chunk_command_spec(chunk@, remote_path@)));
            if n - start > 50000 {
                assert(rest.take(50000) =~= chunk@);
                assert(rest.skip(50000) =~= b64@.skip(end as int));
            } else {
                assert(rest =~= chunk@);
                assert(b64@.skip(end as int) =~= seq![]);
                assert(upload_chunks(b64@.skip(end as int)) =~= seq![]);
            }
            assert(upload_chunks(b64@) =~= cs + upload_chunks(b64@.skip(end as int)));
        }
        start = end;
    }
    proof {
        assert(b64@.skip(n as int) =~= seq![]);
        assert(cs + upload_chunks(b64@.skip(n as int)) =~= cs);
    }
    UploadPlan { truncate_command, chunk_commands: cmds }
}

/// The pieces of an upload put back together give the whole text; every
/// piece but the last holds exactly 50 000 characters, so each decodes on
/// its own when the text is Base64.
pub proof fn law_upload_chunks(s: Seq<char>)
    ensures
        concat_all(upload_chunks(s)) == s,
        forall|i: int|
            0 <= i < upload_chunks(s).len() - 1 ==> (#[trigger] upload_chunks(s)[i]).len() == 50000,
        forall|i: int|
            0 <= i < upload_chunks(s).len() ==> (#[trigger] upload_chunks(s)[i]).len() > 0,
    decreases s.len(),
{
    if s.len() == 0 {
    } else if s.len() <= 50000 {
        let cs = upload_chunks(s);
        assert(cs.drop_first() =~= seq![]);
        assert(concat_all(cs.drop_first()) =~= seq![]);
        assert(concat_all(cs) =~= s + concat_all(cs.drop_first()));
    } else {
        let t = s.skip(50000);
        law_upload_chunks(t);
        let cs = upload_chunks(s);
        assert(cs.drop_first() =~= upload_chunks(t));
        assert(s.take(50000) + t =~= s);
        assert forall|i: int| 0 <= i < cs.len() implies (#[trigger] cs[i]).len() > 0 && (i < cs.len()
            - 1 ==> cs[i].len() == 50000) by {
            if i > 0 {
                assert(cs[i] == upload_chunks(t)[i - 1]);
            }
        }
    }
}

/// Whether the upload of one piece worked: it did on exit code 0; otherwise
/// the error holds the remote error output.
pub fn upload_chunk_result(stderr: &str, code: u32) -> (r: Result<(), String>)
    ensures
        code == 0 ==> r is Ok,
        code != 0 ==> (r matches Err(e) && e@ == "SFTP upload failed: "@ + stderr@),
{
    if code != 0 {
        return Err(cat("SFTP upload failed: ", stderr));
    }
    Ok(())
}

/// The progress message for piece `i` of `total`.
pub open spec fn progress_text(i: nat, total: nat) -> Seq<char> {
    "Uploading... "@ + decimal(i + 1) + "/"@ + decimal(total) + " chunks ("@ + decimal(
        ((i + 1) * 100 / total) as nat,
    ) + "%)"@
}

/// The progress message shown before piece `i` of `total` is sent: for every
/// tenth piece and for the last one.
pub fn upload_progress(i: u64, total: u64) -> (r: Option<String>)
    requires
        i < total,
        total <= u64::MAX / 100,
    ensures
        (i % 10 == 0 || i == total - 1) ==> (r matches Some(m) && m@ == progress_text(
            i as nat,
            total as nat,
        )),
        !(i % 10 == 0 || i == total - 1) ==> r is None,
{
    if i % 10 == 0 || i == total - 1 {
        let pct = (i + 1) * 100 / total;
        let a = cat("Uploading... ", decimal_str(i + 1).as_str());
        let b = cat(a.as_str(), "/");
        let c = cat(b.as_str(), decimal_str(total).as_str());
        let d = cat(c.as_str(), " chunks (");
        let e = cat(d.as_str(), decimal_str(pct).as_str());
        let f = cat(e.as_str(), "%)");
        return Some(f);
    }
    None
}

/// The log lines for the output of a piece's upload command: its trimmed
/// standard output at `Info` and its trimmed error output at `Warn`, each
/// only when not blank.
pub open spec fn chunk_logs(stdout: Seq<char>, stderr: Seq<char>) -> Seq<
    (LogLevel, Seq<char>, Option<Seq<char>>),
> {
    (if trim(stdout).len() > 0 {
        seq![plain_log(LogLevel::Info, trim(stdout))]
    } else {
        seq![]
    }) + (if trim(stderr).len() > 0 {
        seq![plain_log(LogLevel::Warn, trim(stderr))]
    } else {
        seq![]
    })
}

/// The error of piece `i` whose upload command exited with `code`.
pub open spec fn chunk_error(i: nat, code: u32, stderr: Seq<char>) -> Seq<char> {
    "Upload chunk "@ + decimal(i + 1) + " failed (exit "@ + decimal(code as nat) + "): "@ + stderr
}

/// What the output of the upload command of piece `i` gives: the log lines
/// of `chunk_logs`, and an error naming the piece, the exit code and the
/// error output when the exit code is not 0.
pub fn upload_chunk_report(i: u64, stdout: &str, stderr: &str, code: u32) -> (r: (
    Vec<LogLine>,
    Result<(), String>,
))
    requires
        i < u64::MAX,
    ensures
        log_views(r.0@) == chunk_logs(stdout@, stderr@),
        code == 0 ==> r.1 is Ok,
        code != 0 ==> (r.1 matches Err(e) && e@ == chunk_error(i as nat, code, stderr@)),
{
    let mut logs: Vec<LogLine> = Vec::new();
    let out_t = trim_str(stdout);
    let err_t = trim_str(stderr);
    if out_t.as_str().unicode_len() > 0 {
        logs.push(LogLine::new(out_t, LogLevel::Info));
    }
    if err_t.as_str().unicode_len() > 0 {
        logs.push(LogLine::new(err_t, LogLevel::Warn));
    }
    proof {
        assert(log_views(logs@) =~= chunk_logs(stdout@, stderr@));
    }
    if code != 0 {
        let a = cat("Upload chunk ", decimal_str(i + 1).as_str());
        let b = cat(a.as_str(), " failed (exit ");
        let c = cat(b.as_str(), decimal_str(code as u64).as_str());
        let d = cat(c.as_str(), "): ");
        let e = cat(d.as_str(), stderr);
        return (logs, Err(e));
    }
    (logs, Ok(()))
}

} // verus!

verus! {

/// An upload has at most this many pieces, so that its progress in percent
/// can be computed in 64 bits.
pub open spec fn max_pieces() -> nat {
    (u64::MAX / 100) as nat
}

proof fn lemma_upload_chunks_count(s: Seq<char>)
    ensures
        upload_chunks(s).len() <= s.len() / 50000 + 1,
    decreases s.len(),
{
    if s.len() > 50000 {
        lemma_upload_chunks_count(s.skip(50000));
    }
}

/// What the last command of an upload gave.
pub enum UploadEvent {
    /// The command ran, with its output and exit code.
    Ran { stdout: String, stderr: String, code: u32 },
    /// The command could not be run; the reason.
    RunFailed(String),
}

/// What to do next in an upload.
pub enum UploadAction {
    /// Run this command on the remote machine.
    Run(String),
    /// The upload is complete.
    Done,
    /// The upload failed; the error.
    Fail(String),
}

/// An action of an upload, with text as character sequences.
pub enum UploadActionView {
    Run(Seq<char>),
    Done,
    Fail(Seq<char>),
}

/// The view of an upload action.
pub open spec fn upload_action_view(a: UploadAction) -> UploadActionView {
    match a {
        UploadAction::Run(c) => UploadActionView::Run(c@),
        UploadAction::Done => UploadActionView::Done,
        UploadAction::Fail(e) => UploadActionView::Fail(e@),
    }
}

/// The state of an upload: its commands (the one that empties the target,
/// then one per piece), how many of them have been answered, whether the
/// progress is shown, and whether the upload is over.
pub struct UploadState {
    pub commands: Seq<Seq<char>>,
    pub answered: nat,
    pub emitting: bool,
    pub finished: bool,
}

/// An upload of a file through remote commands.
pub struct Upload {
    commands: Vec<String>,
    answered: usize,
    emitting: bool,
    finished: bool,
}

impl View for Upload {
    type V = UploadState;

    closed spec fn view(&self) -> UploadState {
        UploadState {
            commands: views(self.commands@),
            answered: self.answered as nat,
            emitting: self.emitting,
            finished: self.finished,
        }
    }
}

/// What one step of an upload gives: the new state, the log lines to show,
/// and the next action.
pub struct UploadStepView {
    pub state: UploadState,
    pub logs: Seq<(LogLevel, Seq<char>, Option<Seq<char>>)>,
    pub action: UploadActionView,
}

/// The step after the command `s.answered` succeeded: the upload is done
/// after the last piece; otherwise the next piece is sent, after its progress
/// message when the progress is shown.
pub open spec fn upload_proceed(
    s: UploadState,
    logs: Seq<(LogLevel, Seq<char>, Option<Seq<char>>)>,
) -> UploadStepView {
    let a = s.answered + 1;
    let total = (s.commands.len() - 1) as nat;
    if a >= s.commands.len() {
        UploadStepView { state: UploadState { answered: a, finished: true, ..s }, logs, action: UploadActionView::Done }
    } else {
        let i = (a - 1) as nat;
        let shown = if s.emitting && (i % 10 == 0 || i == total - 1) {
            seq![plain_log(LogLevel::Info, progress_text(i, total))]
        } else {
            seq![]
        };
        UploadStepView {
            state: UploadState { answered: a, ..s },
            logs: logs + shown,
            action: UploadActionView::Run(s.commands[a as int]),
        }
    }
}

/// The step that the answer `e` to command `s.answered` gives: a command
/// that cannot be run ends the upload with its reason; the output of the
/// command that empties the target is not looked at; a piece whose command
/// exits with a nonzero code ends the upload with an error, and the first
/// such piece is the last one sent.
pub open spec fn upload_next(s: UploadState, e: UploadEvent) -> UploadStepView {
    match e {
        UploadEvent::RunFailed(m) => UploadStepView {
            state: UploadState { finished: true, ..s },
            logs: seq![],
            action: UploadActionView::Fail(m@),
        },
        UploadEvent::Ran { stdout, stderr, code } => {
            if s.answered == 0 {
                upload_proceed(s, seq![])
            } else {
                let i = (s.answered - 1) as nat;
                let logs = if s.emitting {
                    chunk_logs(stdout@, stderr@)
                } else {
                    seq![]
                };
                if code != 0 {
                    UploadStepView {
                        state: UploadState { finished: true, ..s },
                        logs,
                        action: UploadActionView::Fail(
                            if s.emitting {
                                chunk_error(i, code, stderr@)
                            } else {
                                "SFTP upload failed: "@ + stderr@
                            },
                        ),
                    }
                } else {
                    upload_proceed(s, logs)
                }
            }
        },
    }
}

impl Upload {
    #[verifier::type_invariant]
    closed spec fn wf(self) -> bool {
        &&& 1 <= self.commands@.len() <= max_pieces() + 1
        &&& !self.finished ==> self.answered < self.commands@.len()
    }

    /// Whether the upload is over.
    pub fn is_finished(&self) -> (r: bool)
        ensures
            r == self@.finished,
    {
        self.finished
    }

    /// Starts uploading `data` to `remote_path`, showing the progress when
    /// `emitting`: the first action empties the target.
    pub fn start(data: &[u8], remote_path: &str, emitting: bool) -> (r: (Upload, UploadAction))
        ensures
            r.0@ == (UploadState {
                commands: seq![truncate_command_spec(remote_path@)] + upload_chunks(
                    base64(data@),
                ).map_values(|c: Seq<char>| chunk_command_spec(c, remote_path@)),
                answered: 0,
                emitting,
                finished: false,
            }),
            upload_action_view(r.1) == UploadActionView::Run(truncate_command_spec(remote_path@)),
    {
        let data_len = data.len();
        let plan = upload_plan(data, remote_path);
        let first = plan.truncate_command.clone();
        let mut commands: Vec<String> = Vec::new();
        commands.push(plan.truncate_command);
        let mut chunks = plan.chunk_commands;
        let ghost cs = views(chunks@);
        proof {
            lemma_upload_chunks_count(base64(data@));
            law_base64_length(data@);
            assert(data@.len() == data_len);
            assert(cs.len() == upload_chunks(base64(data@)).len());
            assert(views(commands@) =~= seq![first@]);
        }
        commands.append(&mut chunks);
        proof {
            assert(views(commands@) =~= seq![first@] + cs);
        }
        let u = Upload { commands, answered: 0, emitting, finished: false };
        (u, UploadAction::Run(first))
    }

    fn proceed(&mut self, logs: Vec<LogLine>) -> (r: (Vec<LogLine>, UploadAction))
        requires
            !old(self)@.finished,
        ensures
            (UploadStepView {
                state: final(self)@,
                logs: log_views(r.0@),
                action: upload_action_view(r.1),
            }) == upload_proceed(old(self)@, log_views(logs@)),
    {
        proof {
            use_type_invariant(&*self);
        }
        let n = self.commands.len();
        let a = self.answered + 1;
        if a >= n {
            self.finished = true;
            self.answered = a;
            return (logs, UploadAction::Done);
        }
        let total = (n - 1) as u64;
        let i = (a - 1) as u64;
        let mut logs = logs;
        let ghost before = log_views(logs@);
        if self.emitting {
            match upload_progress(i, total) {
                Some(m) => {
                    logs.push(LogLine::new(m, LogLevel::Info));
                },
                None => {},
            }
        }
        proof {
            assert(log_views(logs@) =~= upload_proceed(old(self)@, before).logs);
        }
        let cmd = self.commands[a].clone();
        self.answered = a;
        (logs, UploadAction::Run(cmd))
    }

    /// Takes the answer to the last command and gives the log lines to show
    /// and the next action.
    pub fn step(&mut self, e: UploadEvent) -> (r: (Vec<LogLine>, UploadAction))
        requires
            !old(self)@.finished,
        ensures
            (UploadStepView {
                state: final(self)@,
                logs: log_views(r.0@),
                action: upload_action_view(r.1),
            }) == upload_next(old(self)@, e),
    {
        proof {
            use_type_invariant(&*self);
        }
        match e {
            UploadEvent::RunFailed(m) => {
                self.finished = true;
                let v: Vec<LogLine> = Vec::new();
                assert(log_views(v@) =~= seq![]);
                (v, UploadAction::Fail(m))
            },
            UploadEvent::Ran { stdout, stderr, code } => {
                if self.answered == 0 {
                    let v: Vec<LogLine> = Vec::new();
                    assert(log_views(v@) =~= seq![]);
                    return self.proceed(v);
                }
                let i = (self.answered - 1) as u64;
                let (logs, result) = if self.emitting {
                    upload_chunk_report(i, stdout.as_str(), stderr.as_str(), code)
                } else {
                    let v: Vec<LogLine> = Vec::new();
                    assert(log_views(v@) =~= seq![]);
                    (v, upload_chunk_result(stderr.as_str(), code))
                };
                match result {
                    Err(m) => {
                        self.finished = true;
                        (logs, UploadAction::Fail(m))
                    },
                    Ok(()) => self.proceed(logs),
                }
            },
        }
    }
}

} // verus!

verus! {

/// An upload sends its commands one after the other, each once, in order,
/// and stops at the first failure: a step either sends the next command or
/// ends the upload, and an ended upload sends nothing more.
pub proof fn law_upload_in_order_until_failure(s: UploadState, e: UploadEvent)
    requires
        !s.finished,
        s.answered < s.commands.len(),
    ensures
        upload_next(s, e).action matches UploadActionView::Run(c) ==> (!upload_next(s, e).state.finished
            && upload_next(s, e).state.answered == s.answered + 1 && c == s.commands[s.answered
            as int + 1]),
        !(upload_next(s, e).action is Run) ==> upload_next(s, e).state.finished,
        upload_next(s, e).action is Done ==> s.answered + 1 == s.commands.len(),
        upload_next(s, e).state.commands == s.commands,
{
}

} // verus!

verus! {

/// The value of a Base64 digit; padding and other characters count as 0.
pub open spec fn b64_value(c: char) -> int {
    if 'A' <= c && c <= 'Z' {
        c as int - 'A' as int
    } else if 'a' <= c && c <= 'z' {
        c as int - 'a' as int + 26
    } else if '0' <= c && c <= '9' {
        c as int - '0' as int + 52
    } else if c == '+' {
        62
    } else if c == '/' {
        63
    } else {
        0
    }
}

proof fn lemma_b64_value_alphabet()
    ensures
        forall|k: int| 0 <= k < 64 ==> #[trigger] b64_value(b64_alphabet()[k]) == k,
        forall|k: int| 0 <= k < 64 ==> #[trigger] b64_alphabet()[k] != '=',
{
    reveal_strlit("ABCDEFGHIJKLMNOPQRSTUVWXYZabcdefghijklmnopqrstuvwxyz0123456789+/");
    assert forall|k: int| 0 <= k < 64 implies #[trigger] b64_value(b64_alphabet()[k]) == k
        && b64_alphabet()[k] != '=' by {}
}

/// The bytes that a group of four Base64 characters stands for: the digits
/// read as one 24-bit number, split into three bytes, of which one or two
/// are dropped when the group ends in `=` padding.
pub open spec fn decode_group(g: Seq<char>) -> Seq<u8> {
    let n = b64_value(g[0]) * 262144 + b64_value(g[1]) * 4096 + b64_value(g[2]) * 64 + b64_value(
        g[3],
    );
    let bytes = seq![(n / 65536) as u8, ((n / 256) % 256) as u8, (n % 256) as u8];
    if g[2] == '=' {
        bytes.take(1)
    } else if g[3] == '=' {
        bytes.take(2)
    } else {
        bytes
    }
}

/// The bytes that a Base64 text stands for, group by group.
pub open spec fn base64_decode(s: Seq<char>) -> Seq<u8>
    decreases s.len(),
{
    if s.len() < 4 {
        seq![]
    } else {
        decode_group(s.take(4)) + base64_decode(s.skip(4))
    }
}

proof fn lemma_b64_arith(b0: u32, b1: u32, b2: u32)
    requires
        b0 < 256,
        b1 < 256,
        b2 < 256,
    ensures
        ({
            let n = b0 * 65536 + b1 * 256 + b2;
            &&& (n / 262144) * 262144 + ((n / 4096) % 64) * 4096 + ((n / 64) % 64) * 64 + n % 64
                == n
            &&& n / 65536 == b0
            &&& (n / 256) % 256 == b1
            &&& n % 256 == b2
            &&& b2 == 0 ==> n % 64 == 0
            &&& b1 == 0 && b2 == 0 ==> (n / 64) % 64 == 0
        }),
{
    assert({
        let n = b0 * 65536 + b1 * 256 + b2;
        &&& (n / 262144) * 262144 + ((n / 4096) % 64) * 4096 + ((n / 64) % 64) * 64 + n % 64 == n
        &&& n / 65536 == b0
        &&& (n / 256) % 256 == b1
        &&& n % 256 == b2
        &&& b2 == 0 ==> n % 64 == 0
        &&& b1 == 0 && b2 == 0 ==> (n / 64) % 64 == 0
    }) by (bit_vector)
        requires
            b0 < 256,
            b1 < 256,
            b2 < 256,
    ;
}

proof fn lemma_decode_group(b0: u8, b1: u8, b2: u8, k: int)
    requires
        1 <= k <= 3,
        k < 3 ==> b2 == 0,
        k < 2 ==> b1 == 0,
    ensures
        decode_group(b64_group(b0, b1, b2, k)) == seq![b0, b1, b2].take(k),
{
    lemma_b64_value_alphabet();
    lemma_b64_arith(b0 as u32, b1 as u32, b2 as u32);
    let n = b0 as int * 65536 + b1 as int * 256 + b2 as int;
    let g = b64_group(b0, b1, b2, k);
    assert(0 <= n / 262144 < 64);
    assert(g[0] == b64_alphabet()[n / 262144]);
    assert(g[1] == b64_alphabet()[(n / 4096) % 64]);
    assert(b64_value(g[0]) == n / 262144);
    assert(b64_value(g[1]) == (n / 4096) % 64);
    if k > 1 {
        assert(b64_value(g[2]) == (n / 64) % 64);
    } else {
        assert(b64_value(g[2]) == 0);
    }
    if k > 2 {
        assert(b64_value(g[3]) == n % 64);
    } else {
        assert(b64_value(g[3]) == 0);
    }
    assert(decode_group(g) =~= seq![b0, b1, b2].take(k));
}

/// Decoding the Base64 encoding of some bytes gives back those bytes.
pub proof fn law_base64_roundtrip(d: Seq<u8>)
    ensures
        base64_decode(base64(d)) == d,
    decreases d.len(),
{
    let e = base64(d);
    if d.len() == 0 {
        assert(base64_decode(e) =~= d);
    } else if d.len() < 3 {
        let b1: u8 = if d.len() > 1 { d[1] } else { 0 };
        lemma_decode_group(d[0], b1, 0, d.len() as int);
        assert(e.take(4) =~= e);
        assert(e.skip(4).len() == 0);
        assert(base64_decode(e.skip(4)) =~= seq![]);
        assert(seq![d[0], b1, 0u8].take(d.len() as int) =~= d);
        assert(base64_decode(e) =~= d);
    } else {
        let g = b64_group(d[0], d[1], d[2], 3);
        law_base64_roundtrip(d.skip(3));
        lemma_decode_group(d[0], d[1], d[2], 3);
        assert(e.take(4) =~= g);
        assert(e.skip(4) =~= base64(d.skip(3)));
        assert(seq![d[0], d[1], d[2]].take(3) + d.skip(3) =~= d);
    }
}

/// The pieces of an upload, joined and decoded, give back exactly the bytes
/// that were uploaded.
pub proof fn law_upload_gives_back_data(d: Seq<u8>)
    ensures
        base64_decode(concat_all(upload_chunks(base64(d)))) == d,
{
    law_upload_chunks(base64(d));
    law_base64_roundtrip(d);
}

} // verus!

verus! {

/// A command of an upload that exits with code 0 never fails the upload:
/// the next command is sent, or the upload is done after the last one. A
/// piece whose command exits with another code fails it, and a command that
/// cannot be run fails it with the reason.
pub proof fn law_upload_fails_only_on_error(s: UploadState, e: UploadEvent)
    requires
        !s.finished,
        s.answered < s.commands.len(),
    ensures
        e matches UploadEvent::Ran { code, .. } && code == 0 ==> (if s.answered + 1 < s.commands.len() {
            upload_next(s, e).action == UploadActionView::Run(s.commands[s.answered as int + 1])
        } else {
            upload_next(s, e).action == UploadActionView::Done
        }),
        e matches UploadEvent::Ran { code, .. } && code != 0 && s.answered > 0 ==> upload_next(
            s,
            e,
        ).action is Fail,
        e matches UploadEvent::RunFailed(m) ==> upload_next(s, e).action == UploadActionView::Fail(m@),
{
}

/// Without snapshots the listed versions are exactly the releases of the
/// manifest, in its order; with snapshots, all of its versions.
pub proof fn law_listed_is_filter(vs: Seq<McVersion>)
    ensures
        listed_versions(vs, false) == vs.filter(|v: McVersion| v.version_type@ == "release"@),
        listed_versions(vs, true) == vs,
    decreases vs.len(),
{
    law_all_listed_with_snapshots(vs);
    let p = |v: McVersion| v.version_type@ == "release"@;
    if vs.len() == 0 {
        reveal(Seq::filter);
    } else {
        let t = vs.drop_first();
        law_listed_is_filter(t);
        Seq::filter_distributes_over_add(seq![vs[0]], t, p);
        assert(seq![vs[0]] + t =~= vs);
        reveal_with_fuel(Seq::filter, 2);
        assert(seq![vs[0]].drop_last() =~= Seq::<McVersion>::empty());
        if p(vs[0]) {
            assert(seq![vs[0]].filter(p) =~= seq![vs[0]]);
        } else {
            assert(seq![vs[0]].filter(p) =~= Seq::<McVersion>::empty());
        }
    }
}

} // verus!
