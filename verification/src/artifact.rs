//! What a run leaves on disk for each task: the names and contents of the
//! log and of the record, and the time stamps in them.

use crate::scheduler::TaskReport;
use crate::text::{decimal, decimal_string, from_chars, to_chars, trim, trimmed};
use std::fmt::Write;
use vstd::prelude::*;
use vstd::string::StringExecFns;

verus! {

/// The characters that may not stand in a file name.
pub open spec fn is_illegal(c: char) -> bool {
    c == '<' || c == '>' || c == '/' || c == '\\' || c == '|' || c == '?' || c == '*' || c == ':'
        || c == '"'
}

/// `name` with an underscore in place of each character that may not stand in a file name.
pub open spec fn sanitized(name: Seq<char>) -> Seq<char> {
    Seq::new(
        name.len(),
        |k: int|
            if is_illegal(name[k]) {
                '_'
            } else {
                name[k]
            },
    )
}

/// A sanitized name is as long as the name and holds no illegal character.
pub proof fn law_sanitized_is_safe(name: Seq<char>)
    ensures
        sanitized(name).len() == name.len(),
        forall|k: int| 0 <= k < name.len() ==> !is_illegal(#[trigger] sanitized(name)[k]),
        sanitized(sanitized(name)) == sanitized(name),
{
    assert(sanitized(sanitized(name)) =~= sanitized(name));
}

/// Replaces each character that may not stand in a file name by an underscore.
pub fn sanitize_filename(name: &str) -> (r: String)
    ensures
        r@ == sanitized(name@),
{
    let chars = to_chars(name);
    let mut out: Vec<char> = Vec::new();
    let mut i: usize = 0;
    while i < chars.len()
        invariant
            i <= chars.len(),
            out@ == sanitized(chars@).take(i as int),
        decreases chars.len() - i,
    {
        let c = chars[i];
        let illegal = c == '<' || c == '>' || c == '/' || c == '\\' || c == '|' || c == '?' || c
            == '*' || c == ':' || c == '"';
        out.push(if illegal {
            '_'
        } else {
            c
        });
        assert(out@ =~= sanitized(chars@).take(i + 1));
        i += 1;
    }
    assert(out@ =~= sanitized(chars@));
    from_chars(&out)
}

/// The format of the time stamp in artifact names: `YYYY-MM-DD_HH-MM-SS`.
pub const STAMP_FORMAT: &'static str = "%Y-%m-%d_%H-%M-%S";

/// What `chrono` writes for the UTC time `secs` seconds and `nanos`
/// nanoseconds after the epoch in the format `format`; `None` where it
/// refuses the time or the format.
pub uninterp spec fn utc_formatted(secs: i64, nanos: u32, format: Seq<char>) -> Option<Seq<char>>;

/// What `chrono` writes for that time as an RFC 3339 date and time; `None`
/// where it refuses the time.
pub uninterp spec fn utc_rfc3339(secs: i64, nanos: u32) -> Option<Seq<char>>;

/// What `serde_json` writes for the object that binds the four keys to the four values.
pub uninterp spec fn json_record(
    k1: Seq<char>,
    v1: Seq<char>,
    k2: Seq<char>,
    v2: Seq<char>,
    k3: Seq<char>,
    v3: Option<i32>,
    k4: Seq<char>,
    v4: Seq<char>,
) -> Seq<char>;

/// Builds the UTC time with `chrono::DateTime::from_timestamp` and writes it
/// with `DateTime::format`. The contract names the outcome and claims no
/// more: the same three values always give the same outcome, `None` when
/// the time is out of range or the format cannot be written.
#[verifier::external_body]
fn format_utc(secs: i64, nanos: u32, format: &str) -> (r: Option<String>)
    ensures
        utc_formatted(secs, nanos, format@) == match r {
            Some(t) => Some(t@),
            None => None,
        },
{
    let time = chrono::DateTime::<chrono::Utc>::from_timestamp(secs, nanos)?;
    let mut out = String::new();
    match write!(out, "{}", time.format(format)) {
        Ok(()) => Some(out),
        Err(_) => None,
    }
}

/// Builds the UTC time with `chrono::DateTime::from_timestamp` and writes it
/// with `DateTime::to_rfc3339`. The contract names the outcome and claims
/// no more; `None` when the time is out of range.
#[verifier::external_body]
fn rfc3339_utc(secs: i64, nanos: u32) -> (r: Option<String>)
    ensures
        utc_rfc3339(secs, nanos) == match r {
            Some(t) => Some(t@),
            None => None,
        },
{
    let time = chrono::DateTime::<chrono::Utc>::from_timestamp(secs, nanos)?;
    Some(time.to_rfc3339())
}

/// Reads the clock with `chrono::Utc::now` and gives the seconds and
/// nanoseconds since the epoch. Nothing is claimed of the result.
#[verifier::external_body]
fn clock() -> (r: (i64, u32)) {
    let now = chrono::Utc::now();
    (now.timestamp(), now.timestamp_subsec_nanos())
}

/// Puts the four bindings into a `serde_json::Map` with `Map::insert`, in
/// the order given, and writes the object with `Value::to_string`. The
/// contract names the text and claims no more.
#[verifier::external_body]
fn json_object(
    k1: &str,
    v1: &str,
    k2: &str,
    v2: &str,
    k3: &str,
    v3: Option<i32>,
    k4: &str,
    v4: &str,
) -> (r: String)
    ensures
        r@ == json_record(k1@, v1@, k2@, v2@, k3@, v3, k4@, v4@),
{
    let mut map = serde_json::Map::new();
    map.insert(k1.to_string(), serde_json::Value::from(v1));
    map.insert(k2.to_string(), serde_json::Value::from(v2));
    map.insert(k3.to_string(), serde_json::Value::from(v3));
    map.insert(k4.to_string(), serde_json::Value::from(v4));
    serde_json::Value::Object(map).to_string()
}

/// The time stamp for artifact names of the time `secs` seconds after the
/// epoch, in UTC.
pub fn timestamp_at(secs: i64) -> (r: Option<String>)
    ensures
        utc_formatted(secs, 0, STAMP_FORMAT@) == match r {
            Some(t) => Some(t@),
            None => None,
        },
{
    format_utc(secs, 0, STAMP_FORMAT)
}

/// The time stamp for artifact names of the moment of the call: what
/// `timestamp_at` gives for the second that the clock shows, and so `None`
/// only where that second cannot be written.
pub fn timestamp() -> (r: Option<String>)
    ensures
        exists|secs: i64|
            (#[trigger] utc_formatted(secs, 0, STAMP_FORMAT@)) == match r {
                Some(t) => Some(t@),
                None => None,
            },
{
    let (secs, _nanos) = clock();
    let r = timestamp_at(secs);
    assert(utc_formatted(secs, 0, STAMP_FORMAT@) == match r {
        Some(t) => Some(t@),
        None => None,
    });
    r
}

/// `i` written in decimal digits, with a minus sign where it is negative.
pub open spec fn signed_decimal(i: int) -> Seq<char> {
    if i < 0 {
        "-"@ + decimal((-i) as nat)
    } else {
        decimal(i as nat)
    }
}

/// The exit code as the log shows it: `Some(3)`, or `None` where the
/// process ended without a code.
pub open spec fn exit_text(code: Option<i32>) -> Seq<char> {
    match code {
        Some(c) => "Some("@ + signed_decimal(c as int) + ")"@,
        None => "None"@,
    }
}

/// The text of the log of a task.
pub open spec fn summary_text(
    task: Seq<char>,
    command: Seq<char>,
    code: Option<i32>,
    stdout: Seq<char>,
    stderr: Seq<char>,
) -> Seq<char> {
    "Task: "@ + task + "\nCmd: "@ + command + "\nExit: "@ + exit_text(code) + "\nStdout:\n"@
        + stdout + "\nStderr:\n"@ + stderr + "\n"@
}

/// The exit code as the log shows it.
pub fn exit_code_text(code: Option<i32>) -> (r: String)
    ensures
        r@ == exit_text(code),
{
    match code {
        Some(c) => {
            let mut s = String::from_str("Some(");
            if c < 0 {
                let magnitude: i64 = -(c as i64);
                s.append("-");
                s.append(decimal_string(magnitude as u128).as_str());
            } else {
                s.append(decimal_string(c as u128).as_str());
            }
            s.append(")");
            s
        },
        None => String::from_str("None"),
    }
}

/// The text of the log of a task: its name, its command, its exit code
/// and what it wrote.
pub fn log_summary(report: &TaskReport) -> (r: String)
    ensures
        r@ == summary_text(
            report.task@,
            report.command@,
            report.exit_code,
            report.stdout@,
            report.stderr@,
        ),
{
    let mut s = String::from_str("Task: ");
    s.append(report.task.as_str());
    s.append("\nCmd: ");
    s.append(report.command.as_str());
    s.append("\nExit: ");
    s.append(exit_code_text(report.exit_code).as_str());
    s.append("\nStdout:\n");
    s.append(report.stdout.as_str());
    s.append("\nStderr:\n");
    s.append(report.stderr.as_str());
    s.append("\n");
    s
}

/// A file to write into the run directory.
#[derive(Debug, Clone)]
pub struct Artifact {
    pub name: String,
    pub content: String,
}

/// The name of an artifact of `task` written at `stamp`, with the file extension `ext`.
pub open spec fn artifact_name(task: Seq<char>, stamp: Seq<char>, ext: Seq<char>) -> Seq<char> {
    sanitized(task) + "_"@ + stamp + ext
}

/// The name of an artifact of `task` written at `stamp`.
pub fn name_artifact(task: &str, stamp: &str, ext: &str) -> (r: String)
    ensures
        r@ == artifact_name(task@, stamp@, ext@),
{
    let mut s = sanitize_filename(task);
    s.append("_");
    s.append(stamp);
    s.append(ext);
    s
}

/// The log of a task that exited.
pub fn log_artifact(report: &TaskReport, stamp: &str) -> (r: Artifact)
    ensures
        r.name@ == artifact_name(report.task@, stamp@, ".log"@),
        r.content@ == summary_text(
            report.task@,
            report.command@,
            report.exit_code,
            report.stdout@,
            report.stderr@,
        ),
{
    Artifact { name: name_artifact(report.task.as_str(), stamp, ".log"), content: log_summary(report) }
}

/// The text of the record of a task, as a JSON object.
pub open spec fn record_text(
    task: Seq<char>,
    command: Seq<char>,
    code: Option<i32>,
    time: Seq<char>,
) -> Seq<char> {
    json_record("task"@, task, "command"@, command, "exit_code"@, code, "timestamp"@, time)
}

/// The record of a task that exited: its name, its command, its exit code
/// and the time `time`, as a JSON object.
pub fn record_artifact(report: &TaskReport, stamp: &str, time: &str) -> (r: Artifact)
    ensures
        r.name@ == artifact_name(report.task@, stamp@, ".json"@),
        r.content@ == record_text(report.task@, report.command@, report.exit_code, time@),
{
    let content = json_object(
        "task",
        report.task.as_str(),
        "command",
        report.command.as_str(),
        "exit_code",
        report.exit_code,
        "timestamp",
        time,
    );
    Artifact { name: name_artifact(report.task.as_str(), stamp, ".json"), content }
}

/// The two artifacts of a task that exited, written at the time `secs`
/// seconds and `nanos` nanoseconds after the epoch: first the log, then
/// the record. `None` where the time cannot be written.
pub fn artifacts(report: &TaskReport, secs: i64, nanos: u32) -> (r: Option<(Artifact, Artifact)>)
    ensures
        r is Some <==> utc_formatted(secs, 0, STAMP_FORMAT@) is Some && utc_rfc3339(secs, nanos)
            is Some,
        r matches Some((log, record)) ==> {
            let stamp = utc_formatted(secs, 0, STAMP_FORMAT@)->0;
            let time = utc_rfc3339(secs, nanos)->0;
            &&& log.name@ == artifact_name(report.task@, stamp, ".log"@)
            &&& log.content@ == summary_text(
                report.task@,
                report.command@,
                report.exit_code,
                report.stdout@,
                report.stderr@,
            )
            &&& record.name@ == artifact_name(report.task@, stamp, ".json"@)
            &&& record.content@ == record_text(
                report.task@,
                report.command@,
                report.exit_code,
                time,
            )
        },
{
    let stamp = match timestamp_at(secs) {
        Some(s) => s,
        None => {
            return None;
        },
    };
    let time = match rfc3339_utc(secs, nanos) {
        Some(t) => t,
        None => {
            return None;
        },
    };
    Some(
        (
            log_artifact(report, stamp.as_str()),
            record_artifact(report, stamp.as_str(), time.as_str()),
        ),
    )
}

/// The message of a run that a failed task has aborted.
pub open spec fn abort_text(task: Seq<char>, code: Option<i32>) -> Seq<char> {
    "Task '"@ + task + "' failed (code "@ + exit_text(code) + "); aborting (stop_on_fail=true)"@
}

/// The message of a run that ends because the task of `report` failed.
pub fn abort_message(report: &TaskReport) -> (r: String)
    ensures
        r@ == abort_text(report.task@, report.exit_code),
{
    let mut s = String::from_str("Task '");
    s.append(report.task.as_str());
    s.append("' failed (code ");
    s.append(exit_code_text(report.exit_code).as_str());
    s.append("); aborting (stop_on_fail=true)");
    s
}

/// What the final report shows of one task.
#[derive(Debug, Clone)]
pub struct ReportBlock {
    /// The lines for standard output: task, command and trimmed output.
    pub lines: String,
    /// The line for standard error, where the task wrote more than whitespace there.
    pub error: Option<String>,
}

/// The lines of the final report for a task.
pub open spec fn block_lines(task: Seq<char>, command: Seq<char>, stdout: Seq<char>) -> Seq<char> {
    "Task: "@ + task + "\nCommand: "@ + command + "\nOutput: "@ + trimmed(stdout) + "\n"@
}

/// What the final report shows of the task of `report`: its name, its
/// command and its trimmed output, and its trimmed error output where
/// that is not empty.
pub fn report_block(report: &TaskReport) -> (r: ReportBlock)
    ensures
        r.lines@ == block_lines(report.task@, report.command@, report.stdout@),
        r.error is Some <==> trimmed(report.stderr@).len() > 0,
        r.error matches Some(e) ==> e@ == "Error: "@ + trimmed(report.stderr@),
{
    let out = from_chars(&trim(&to_chars(report.stdout.as_str())));
    let err = trim(&to_chars(report.stderr.as_str()));
    let mut lines = String::from_str("Task: ");
    lines.append(report.task.as_str());
    lines.append("\nCommand: ");
    lines.append(report.command.as_str());
    lines.append("\nOutput: ");
    lines.append(out.as_str());
    lines.append("\n");
    let error = if err.len() > 0 {
        let mut e = String::from_str("Error: ");
        e.append(from_chars(&err).as_str());
        Some(e)
    } else {
        None
    };
    ReportBlock { lines, error }
}

} // verus!
