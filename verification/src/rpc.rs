//! The plugins' JSON-RPC surface: which handler a method goes to, how a job
//! submission is read, what a job reports when it ends, and the script of the
//! demonstration plugin's ping job.
use vstd::prelude::*;

use crate::text::{chars_of, debug_str, debug_text, fmt_dec, push_all, push_dec, str_eq_lit, string_of};
use crate::video_inspect::{opt_text, VideoInspectResult};

verus! {

/// Handler of an RPC method.
#[derive(Debug, Clone, Copy, PartialEq, Eq, Structural)]
pub enum RpcMethod {
    Initialize,
    Describe,
    Doctor,
    ConfigSchema,
    ConfigValidate,
    ConfigApply,
    JobSubmit,
    JobCancel,
    Shutdown,
    Unknown,
}

pub open spec fn method_of(m: Seq<char>) -> RpcMethod {
    if m == "initialize"@ {
        RpcMethod::Initialize
    } else if m == "describe"@ {
        RpcMethod::Describe
    } else if m == "doctor"@ {
        RpcMethod::Doctor
    } else if m == "config.schema"@ {
        RpcMethod::ConfigSchema
    } else if m == "config.validate"@ {
        RpcMethod::ConfigValidate
    } else if m == "config.apply"@ {
        RpcMethod::ConfigApply
    } else if m == "job.submit"@ {
        RpcMethod::JobSubmit
    } else if m == "job.cancel"@ {
        RpcMethod::JobCancel
    } else if m == "shutdown"@ {
        RpcMethod::Shutdown
    } else {
        RpcMethod::Unknown
    }
}

pub fn route_method(m: &str) -> (r: RpcMethod)
    ensures
        r == method_of(m@),
{
    if str_eq_lit(m, "initialize") {
        RpcMethod::Initialize
    } else if str_eq_lit(m, "describe") {
        RpcMethod::Describe
    } else if str_eq_lit(m, "doctor") {
        RpcMethod::Doctor
    } else if str_eq_lit(m, "config.schema") {
        RpcMethod::ConfigSchema
    } else if str_eq_lit(m, "config.validate") {
        RpcMethod::ConfigValidate
    } else if str_eq_lit(m, "config.apply") {
        RpcMethod::ConfigApply
    } else if str_eq_lit(m, "job.submit") {
        RpcMethod::JobSubmit
    } else if str_eq_lit(m, "job.cancel") {
        RpcMethod::JobCancel
    } else if str_eq_lit(m, "shutdown") {
        RpcMethod::Shutdown
    } else {
        RpcMethod::Unknown
    }
}

fn quoted_message(prefix: &str, x: &str, suffix: &str) -> (r: String)
    ensures
        r@ == prefix@ + x@ + suffix@,
{
    let mut v = chars_of(prefix);
    push_all(&mut v, &chars_of(x));
    push_all(&mut v, &chars_of(suffix));
    string_of(&v)
}

fn joined(prefix: &str, x: &str) -> (r: String)
    ensures
        r@ == prefix@ + x@,
{
    let mut v = chars_of(prefix);
    push_all(&mut v, &chars_of(x));
    string_of(&v)
}

/// `Unknown method '<m>'`.
pub fn unknown_method_message(m: &str) -> (r: String)
    ensures
        r@ == "Unknown method '"@ + m@ + "'"@,
{
    quoted_message("Unknown method '", m, "'")
}

/// `No running job with id '<id>'`.
pub fn no_job_message(id: &str) -> (r: String)
    ensures
        r@ == "No running job with id '"@ + id@ + "'"@,
{
    quoted_message("No running job with id '", id, "'")
}

// ---------------------------------------------------------------------------
// Video jobs
// ---------------------------------------------------------------------------
/// Kind of a video job.
#[derive(Debug, Clone, Copy, PartialEq, Eq, Structural)]
pub enum VideoJob {
    Convert,
    Batch,
    Inspect,
    Unknown,
}

pub open spec fn video_job_of(t: Seq<char>) -> VideoJob {
    if t == "video.convert"@ {
        VideoJob::Convert
    } else if t == "video.batch"@ {
        VideoJob::Batch
    } else if t == "video.inspect"@ {
        VideoJob::Inspect
    } else {
        VideoJob::Unknown
    }
}

pub fn video_job_kind(t: &str) -> (r: VideoJob)
    ensures
        r == video_job_of(t@),
{
    if str_eq_lit(t, "video.convert") {
        VideoJob::Convert
    } else if str_eq_lit(t, "video.batch") {
        VideoJob::Batch
    } else if str_eq_lit(t, "video.inspect") {
        VideoJob::Inspect
    } else {
        VideoJob::Unknown
    }
}

/// `Unknown job_type: <t>`.
pub fn unknown_job_message(t: &str) -> (r: String)
    ensures
        r@ == "Unknown job_type: "@ + t@,
{
    joined("Unknown job_type: ", t)
}

/// Reads a video job submission: the job id (`unknown` when absent or not a
/// string) and the job type, from `job_type` when that field is present
/// (`Some(None)` when it is not a string) and from `kind` otherwise; an
/// empty or missing type is refused.
pub open spec fn video_submission(
    job_id: Option<Seq<char>>,
    job_type: Option<Option<Seq<char>>>,
    kind: Option<Seq<char>>,
) -> Result<(Seq<char>, Seq<char>), Seq<char>> {
    let id = match job_id {
        Some(i) => i,
        None => "unknown"@,
    };
    let t = match job_type {
        Some(v) => match v {
            Some(s) => s,
            None => Seq::empty(),
        },
        None => match kind {
            Some(s) => s,
            None => Seq::empty(),
        },
    };
    if t.len() == 0 {
        Err("Missing 'job_type' or 'kind'"@)
    } else {
        Ok((id, t))
    }
}

pub fn read_video_submission(
    job_id: Option<&str>,
    job_type: Option<Option<&str>>,
    kind: Option<&str>,
) -> (r: Result<(String, String), String>)
    ensures
        match r {
            Ok((i, t)) => video_submission(
                match job_id {
                    Some(x) => Some(x@),
                    None => None,
                },
                match job_type {
                    Some(v) => Some(
                        match v {
                            Some(x) => Some(x@),
                            None => None,
                        },
                    ),
                    None => None,
                },
                match kind {
                    Some(x) => Some(x@),
                    None => None,
                },
            ) == Ok::<_, Seq<char>>((i@, t@)),
            Err(m) => video_submission(
                match job_id {
                    Some(x) => Some(x@),
                    None => None,
                },
                match job_type {
                    Some(v) => Some(
                        match v {
                            Some(x) => Some(x@),
                            None => None,
                        },
                    ),
                    None => None,
                },
                match kind {
                    Some(x) => Some(x@),
                    None => None,
                },
            ) == Err::<(Seq<char>, Seq<char>), _>(m@),
        },
{
    let id = match job_id {
        Some(i) => i.to_owned(),
        None => "unknown".to_owned(),
    };
    let t: String = match job_type {
        Some(v) => match v {
            Some(s) => s.to_owned(),
            None => String::new(),
        },
        None => match kind {
            Some(s) => s.to_owned(),
            None => String::new(),
        },
    };
    if t.as_str().is_empty() {
        return Err("Missing 'job_type' or 'kind'".to_owned());
    }
    Ok((id, t))
}

/// How a conversion job ends for a result status: the last progress
/// message, the finished status, and whether the job's error is reported.
pub open spec fn convert_job_end(status: Seq<char>) -> (Seq<char>, Seq<char>, bool) {
    if status == "success"@ {
        ("Transcode finished"@, "completed"@, false)
    } else if status == "skipped"@ {
        ("File skipped"@, "completed"@, false)
    } else {
        ("Transcode failed"@, "failed"@, true)
    }
}

/// Ends a conversion job: progress message, finished status, and the error
/// to report (the job's error, else `Conversion failed`) when it failed.
pub fn convert_job_finish(status: &str, error: Option<String>) -> (r: (&'static str, &'static str, Option<String>))
    ensures
        convert_job_end(status@) == (r.0@, r.1@, r.2 is Some),
        r.2 matches Some(e) ==> e@ == match error {
            Some(x) => x@,
            None => "Conversion failed"@,
        },
{
    if str_eq_lit(status, "success") {
        ("Transcode finished", "completed", None)
    } else if str_eq_lit(status, "skipped") {
        ("File skipped", "completed", None)
    } else {
        let e = match error {
            Some(x) => x,
            None => "Conversion failed".to_owned(),
        };
        ("Transcode failed", "failed", Some(e))
    }
}

/// Log level of a job's result line.
pub fn log_level(status: &str) -> (r: &'static str)
    ensures
        r@ == if status@ == "failed"@ {
            "error"@
        } else {
            "info"@
        },
{
    if str_eq_lit(status, "failed") {
        "error"
    } else {
        "info"
    }
}

// ---------------------------------------------------------------------------
// Batch jobs
// ---------------------------------------------------------------------------
/// Progress of a batch job: files found and files processed so far.
pub struct BatchState {
    pub total: usize,
    pub processed: usize,
}

/// What a batch job does next.
#[derive(Debug, Clone, Copy, PartialEq, Eq, Structural)]
pub enum BatchAction {
    /// Process the file at this index.
    Process(usize),
    /// Stop: the job was canceled.
    Cancel,
    /// All files are processed: the job is complete.
    Finish,
}

/// Before each file the job checks for cancellation; after the last file
/// it finishes.
pub fn batch_next(st: &BatchState, canceled: bool) -> (r: BatchAction)
    ensures
        r == if st.processed >= st.total {
            BatchAction::Finish
        } else if canceled {
            BatchAction::Cancel
        } else {
            BatchAction::Process(st.processed)
        },
{
    if st.processed >= st.total {
        BatchAction::Finish
    } else if canceled {
        BatchAction::Cancel
    } else {
        BatchAction::Process(st.processed)
    }
}

/// `Found <total> files to process`.
pub fn found_message(total: usize) -> (r: String)
    ensures
        r@ == "Found "@ + fmt_dec(total as nat) + " files to process"@,
{
    let mut v = chars_of("Found ");
    push_dec(&mut v, total as u64);
    push_all(&mut v, &chars_of(" files to process"));
    string_of(&v)
}

/// `Processed <processed>/<total>`.
pub fn processed_message(processed: usize, total: usize) -> (r: String)
    ensures
        r@ == "Processed "@ + fmt_dec(processed as nat) + "/"@ + fmt_dec(total as nat),
{
    let mut v = chars_of("Processed ");
    push_dec(&mut v, processed as u64);
    push_all(&mut v, &chars_of("/"));
    push_dec(&mut v, total as u64);
    string_of(&v)
}

/// `Target path is not a directory: <dir>`.
pub fn not_a_directory_message(dir: &str) -> (r: String)
    ensures
        r@ == "Target path is not a directory: "@ + dir@,
{
    joined("Target path is not a directory: ", dir)
}

/// `Starting conversion of <input>`.
pub fn starting_message(input: &str) -> (r: String)
    ensures
        r@ == "Starting conversion of "@ + input@,
{
    joined("Starting conversion of ", input)
}

/// `Inspecting <input>`.
pub fn inspecting_message(input: &str) -> (r: String)
    ensures
        r@ == "Inspecting "@ + input@,
{
    joined("Inspecting ", input)
}

/// An optional text as `Debug` prints it: `Some("...")` or `None`.
pub open spec fn debug_opt(o: Option<Seq<char>>) -> Seq<char> {
    match o {
        Some(s) => "Some("@ + debug_text(s) + ")"@,
        None => "None"@,
    }
}

fn push_debug_opt(v: &mut Vec<char>, o: &Option<String>)
    ensures
        final(v)@ == old(v)@ + debug_opt(opt_text(*o)),
{
    match o {
        Some(s) => {
            push_all(v, &chars_of("Some("));
            push_all(v, &chars_of(debug_str(s.as_str()).as_str()));
            push_all(v, &chars_of(")"));
        },
        None => push_all(v, &chars_of("None")),
    }
}

/// The line an inspection job logs about a video or archive.
pub open spec fn inspect_line(info: VideoInspectResult) -> Seq<char> {
    "Format: "@ + info.format@ + ", video_codec: "@ + debug_opt(opt_text(info.video_codec))
        + ", audio_codec: "@ + debug_opt(opt_text(info.audio_codec)) + ", resolution: "@
        + debug_opt(opt_text(info.resolution)) + ", size: "@ + fmt_dec(info.size_bytes as nat)
        + " bytes"@
}

pub fn inspect_summary(info: &VideoInspectResult) -> (r: String)
    ensures
        r@ == inspect_line(*info),
{
    let mut v = chars_of("Format: ");
    push_all(&mut v, &chars_of(info.format.as_str()));
    push_all(&mut v, &chars_of(", video_codec: "));
    push_debug_opt(&mut v, &info.video_codec);
    push_all(&mut v, &chars_of(", audio_codec: "));
    push_debug_opt(&mut v, &info.audio_codec);
    push_all(&mut v, &chars_of(", resolution: "));
    push_debug_opt(&mut v, &info.resolution);
    push_all(&mut v, &chars_of(", size: "));
    push_dec(&mut v, info.size_bytes);
    push_all(&mut v, &chars_of(" bytes"));
    proof {
        assert(v@ =~= inspect_line(*info));
    }
    string_of(&v)
}

/// ` - <detail>`, one logged line per detail of an inspection.
pub fn detail_line(detail: &str) -> (r: String)
    ensures
        r@ == " - "@ + detail@,
{
    joined(" - ", detail)
}

// ---------------------------------------------------------------------------
// Demonstration plugin
// ---------------------------------------------------------------------------
/// Greeting the demonstration plugin starts with.
pub open spec fn default_greeting() -> Seq<char> {
    "Hello from mop plugin!"@
}

/// Settings of the demonstration plugin.
pub struct HelloSettings {
    pub greeting: String,
}

impl HelloSettings {
    pub fn new() -> (r: Self)
        ensures
            r.greeting@ == default_greeting(),
    {
        HelloSettings { greeting: "Hello from mop plugin!".to_owned() }
    }

    /// Takes the greeting given in settings, if one is given as a string.
    pub fn apply_greeting(&mut self, greeting: Option<&str>)
        ensures
            final(self).greeting@ == match greeting {
                Some(g) => g@,
                None => old(self).greeting@,
            },
    {
        if let Some(g) = greeting {
            self.greeting = g.to_owned();
        }
    }
}

/// Reads a ping job submission: job id (`unknown` by default) and type
/// (`hello.ping` by default).
pub fn read_hello_submission(job_id: Option<&str>, job_type: Option<&str>) -> (r: (String, String))
    ensures
        r.0@ == match job_id {
            Some(i) => i@,
            None => "unknown"@,
        },
        r.1@ == match job_type {
            Some(t) => t@,
            None => "hello.ping"@,
        },
{
    let id = match job_id {
        Some(i) => i.to_owned(),
        None => "unknown".to_owned(),
    };
    let t = match job_type {
        Some(x) => x.to_owned(),
        None => "hello.ping".to_owned(),
    };
    (id, t)
}

/// One notification the ping job sends.
#[derive(Debug, Clone)]
pub enum HelloStep {
    Progress(u8, String),
    Log(String, String),
    Finished(String),
}

/// The ping job: progress 25, a log line with the greeting, progress 75,
/// then finished.
pub fn hello_job_steps(greeting: &str) -> (r: Vec<HelloStep>)
    ensures
        r@.len() == 4,
        r@[0] matches HelloStep::Progress(p, m) && p == 25 && m@ == "Starting hello ping..."@,
        r@[1] matches HelloStep::Log(l, m) && l@ == "info"@ && m@ == "Greeting configured: "@
            + greeting@,
        r@[2] matches HelloStep::Progress(p, m) && p == 75 && m@ == "Processing response..."@,
        r@[3] matches HelloStep::Finished(s) && s@ == "completed"@,
{
    vec![
        HelloStep::Progress(25, "Starting hello ping...".to_owned()),
        HelloStep::Log("info".to_owned(), joined("Greeting configured: ", greeting)),
        HelloStep::Progress(75, "Processing response...".to_owned()),
        HelloStep::Finished("completed".to_owned()),
    ]
}

} // verus!
