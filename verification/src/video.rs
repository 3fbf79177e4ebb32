//! Video plugin rules: which files the watcher picks up, the transcoder's
//! command line and failure summary, output names, how results are
//! reported, and the set of inputs in flight.
use vstd::prelude::*;

use crate::classify::Kind;
use crate::convert::{error_part, output_part, reason_part};
use crate::error::Reason;
use crate::paths::{comps_prefix, components, extension_of, file_name, file_name_of, join_path, path_comps};
use crate::text::{
    chars_of, ends_with, fmt_dec, push_all, push_dec, slice_of, split_exec, split_on, starts_with,
    str_views, string_of,
};

verus! {

broadcast use vstd::seq_lib::lemma_seq_contains_after_push;

/// Per-invocation options for one video job.
#[derive(Debug, Clone)]
pub struct VideoConvertOptions {
    pub password: Option<String>,
    pub dry_run: bool,
    pub keep_work_dir_on_error: bool,
}

/// Outcome of one video job.
#[derive(Debug, Clone)]
pub struct VideoResult {
    pub status: &'static str,
    pub reason: Option<Reason>,
    pub output: Option<String>,
    pub outputs: Vec<String>,
    pub error: Option<String>,
}

// ---------------------------------------------------------------------------
// Watching
// ---------------------------------------------------------------------------
/// Path `a` lies at or below `b`, compared component-wise as written.
pub open spec fn below(a: Seq<char>, b: Seq<char>) -> bool {
    comps_prefix(path_comps(a), path_comps(b))
}

/// A file the watcher submits: a regular file with a name that is not
/// hidden or a partial download, outside the video and work directories.
pub open spec fn candidate(path: Seq<char>, is_file: bool, video_dir: Seq<char>, work_dir: Seq<char>) -> bool {
    &&& is_file
    &&& file_name_of(path) is Some
    &&& {
        let f = file_name_of(path)->0;
        &&& !starts_with(f, "."@)
        &&& !ends_with(f, ".tmp"@)
        &&& !ends_with(f, ".part"@)
        &&& !ends_with(f, ".crdownload"@)
    }
    &&& !below(path, video_dir)
    &&& !below(path, work_dir)
}

fn below_exec(a: &str, b: &str) -> (r: bool)
    ensures
        r == below(a@, b@),
{
    let ac = components(&chars_of(a));
    let bc = components(&chars_of(b));
    crate::paths::comps_prefix_exec(&ac, &bc)
}

pub fn is_candidate_file(path: &str, is_file: bool, video_dir: &str, work_dir: &str) -> (r: bool)
    ensures
        r == candidate(path@, is_file, video_dir@, work_dir@),
{
    if !is_file {
        return false;
    }
    let f = match file_name(&chars_of(path)) {
        Some(f) => f,
        None => {
            return false;
        },
    };
    if crate::text::starts_with_exec(&f, &chars_of(".")) || crate::text::ends_with_exec(&f, &chars_of(".tmp"))
        || crate::text::ends_with_exec(&f, &chars_of(".part")) || crate::text::ends_with_exec(
        &f,
        &chars_of(".crdownload"),
    ) {
        return false;
    }
    if below_exec(path, video_dir) || below_exec(path, work_dir) {
        return false;
    }
    true
}

// ---------------------------------------------------------------------------
// Transcoding
// ---------------------------------------------------------------------------
/// Arguments of the HEVC transcode of `input` into `tmp`.
pub open spec fn ffmpeg_args_of(input: Seq<char>, tmp: Seq<char>, preset: Seq<char>, crf: u32) -> Seq<
    Seq<char>,
> {
    seq![
        "-y"@,
        "-i"@,
        input,
        "-c:v"@,
        "libx265"@,
        "-profile:v"@,
        "main10"@,
        "-pix_fmt"@,
        "yuv420p10le"@,
        "-preset"@,
        preset,
        "-crf"@,
        fmt_dec(crf as nat),
        "-c:a"@,
        "aac"@,
        "-b:a"@,
        "192k"@,
        "-movflags"@,
        "+faststart"@,
        tmp,
    ]
}

pub fn ffmpeg_args(input: &str, tmp: &str, preset: &str, crf: u32) -> (r: Vec<String>)
    ensures
        str_views(r@) == ffmpeg_args_of(input@, tmp@, preset@, crf),
{
    let mut c: Vec<char> = Vec::new();
    push_dec(&mut c, crf as u64);
    let r = vec![
        "-y".to_owned(),
        "-i".to_owned(),
        input.to_owned(),
        "-c:v".to_owned(),
        "libx265".to_owned(),
        "-profile:v".to_owned(),
        "main10".to_owned(),
        "-pix_fmt".to_owned(),
        "yuv420p10le".to_owned(),
        "-preset".to_owned(),
        preset.to_owned(),
        "-crf".to_owned(),
        string_of(&c),
        "-c:a".to_owned(),
        "aac".to_owned(),
        "-b:a".to_owned(),
        "192k".to_owned(),
        "-movflags".to_owned(),
        "+faststart".to_owned(),
        tmp.to_owned(),
    ];
    proof {
        assert(c@ =~= fmt_dec(crf as nat));
        assert(str_views(r@) =~= ffmpeg_args_of(input@, tmp@, preset@, crf));
    }
    r
}

/// `s` without one trailing carriage return.
pub open spec fn strip_cr(s: Seq<char>) -> Seq<char> {
    if s.len() > 0 && s.last() == '\r' {
        s.drop_last()
    } else {
        s
    }
}

/// Lines of a text (`str::lines`): cut at line feeds, a final line feed
/// ending the last line, a carriage return before a line feed dropped.
pub open spec fn lines_of(s: Seq<char>) -> Seq<Seq<char>> {
    let pieces = split_on(s, '\n');
    let ls = if s.len() == 0 {
        Seq::empty()
    } else if s.last() == '\n' {
        pieces.drop_last()
    } else {
        pieces
    };
    Seq::new(ls.len(), |i: int| strip_cr(ls[i]))
}

/// Texts joined by ` | `.
pub open spec fn join_bar(s: Seq<Seq<char>>) -> Seq<char>
    decreases s.len(),
{
    if s.len() == 0 {
        Seq::empty()
    } else if s.len() == 1 {
        s[0]
    } else {
        join_bar(s.drop_last()) + " | "@ + s.last()
    }
}

/// Error text for a failed transcode: its last ten lines of diagnostics.
pub open spec fn ffmpeg_failure_text(stderr: Seq<char>) -> Seq<char> {
    "ffmpeg failed: "@ + join_bar(crate::logs::last_n(lines_of(stderr), 10))
}

pub fn ffmpeg_failure(stderr: &str) -> (r: String)
    ensures
        r@ == ffmpeg_failure_text(stderr@),
{
    let s = chars_of(stderr);
    let len = s.len();
    let pieces = split_exec(&s, '\n');
    let n: usize = if len == 0 {
        0
    } else if s[len - 1] == '\n' {
        proof {
            crate::paths::lemma_split_nonempty(s@, '\n');
        }
        pieces.len() - 1
    } else {
        pieces.len()
    };
    let ghost ls = if s@.len() == 0 {
        Seq::<Seq<char>>::empty()
    } else if s@.last() == '\n' {
        split_on(s@, '\n').drop_last()
    } else {
        split_on(s@, '\n')
    };
    proof {
        assert(ls.len() == n);
        assert(forall|i: int| 0 <= i < n ==> ls[i] == (#[trigger] pieces@[i])@);
    }
    let start: usize = if n > 10 {
        n - 10
    } else {
        0
    };
    let ghost all = lines_of(s@);
    let ghost kept = crate::logs::last_n(all, 10);
    proof {
        assert(kept =~= all.subrange(start as int, n as int));
    }
    let mut out = chars_of("ffmpeg failed: ");
    let ghost prefix = out@;
    let mut i: usize = start;
    while i < n
        invariant
            start <= i <= n,
            n <= pieces@.len(),
            all.len() == n,
            forall|j: int| 0 <= j < n ==> all[j] == strip_cr((#[trigger] pieces@[j])@),
            out@ == prefix + join_bar(all.subrange(start as int, i as int)),
        decreases n - i,
    {
        if i > start {
            push_all(&mut out, &chars_of(" | "));
        }
        let p = &pieces[i];
        let plen = p.len();
        let line = if plen > 0 && p[plen - 1] == '\r' {
            slice_of(p, 0, plen - 1)
        } else {
            slice_of(p, 0, plen)
        };
        proof {
            assert(p@.subrange(0, plen as int) =~= p@);
            assert(p@.subrange(0, plen - 1) =~= p@.drop_last());
        }
        push_all(&mut out, &line);
        proof {
            let t = all.subrange(start as int, i + 1);
            assert(t.drop_last() =~= all.subrange(start as int, i as int));
            if i > start {
                assert(out@ =~= prefix + (join_bar(t.drop_last()) + " | "@ + t.last()));
            } else {
                assert(out@ =~= prefix + t[0]);
            }
        }
        i += 1;
    }
    string_of(&out)
}

/// The lines of a text (see `lines_of`).
pub fn text_lines(text: &str) -> (r: Vec<Vec<char>>)
    ensures
        crate::text::char_views(r@) == lines_of(text@),
{
    let s = chars_of(text);
    let len = s.len();
    let pieces = split_exec(&s, '\n');
    let n: usize = if len == 0 {
        0
    } else if s[len - 1] == '\n' {
        proof {
            crate::paths::lemma_split_nonempty(s@, '\n');
        }
        pieces.len() - 1
    } else {
        pieces.len()
    };
    let ghost ls = if s@.len() == 0 {
        Seq::<Seq<char>>::empty()
    } else if s@.last() == '\n' {
        split_on(s@, '\n').drop_last()
    } else {
        split_on(s@, '\n')
    };
    proof {
        assert(ls.len() == n);
        assert(forall|i: int| 0 <= i < n ==> ls[i] == (#[trigger] pieces@[i])@);
    }
    let ghost all = lines_of(s@);
    let mut out: Vec<Vec<char>> = Vec::new();
    let mut i: usize = 0;
    while i < n
        invariant
            i <= n,
            n <= pieces@.len(),
            all.len() == n,
            forall|j: int| 0 <= j < n ==> all[j] == strip_cr((#[trigger] pieces@[j])@),
            crate::text::char_views(out@) == all.take(i as int),
        decreases n - i,
    {
        let p = &pieces[i];
        let plen = p.len();
        let line = if plen > 0 && p[plen - 1] == '\r' {
            slice_of(p, 0, plen - 1)
        } else {
            slice_of(p, 0, plen)
        };
        proof {
            assert(p@.subrange(0, plen as int) =~= p@);
            assert(p@.subrange(0, plen - 1) =~= p@.drop_last());
        }
        proof {
            assert(line@ == strip_cr(pieces@[i as int]@));
            assert(line@ == all[i as int]);
        }
        let ghost before = out@;
        out.push(line);
        proof {
            assert(out@ == before.push(line));
            assert(crate::text::char_views(out@) =~= crate::text::char_views(before).push(line@));
            assert(all.take(i + 1) =~= all.take(i as int).push(all[i as int]));
        }
        i += 1;
    }
    proof {
        assert(all.take(n as int) =~= all);
    }
    out
}

/// `Path::file_stem` of a file name: the name without its extension.
pub open spec fn stem_of(name: Seq<char>) -> Seq<char> {
    match extension_of(name) {
        Some(x) => name.take(name.len() - x.len() - 1),
        None => name,
    }
}

fn stem_exec(name: &[char]) -> (r: Vec<char>)
    ensures
        r@ == stem_of(name@),
{
    let len = name.len();
    match crate::paths::extension(name) {
        Some(x) => {
            proof {
                lemma_extension_suffix(name@);
            }
            slice_of(name, 0, len - x.len() - 1)
        },
        None => slice_of(name, 0, len),
    }
}

proof fn lemma_extension_suffix(name: Seq<char>)
    ensures
        extension_of(name) matches Some(x) ==> x.len() + 1 <= name.len(),
{
    if name != crate::paths::parent_comp() {
        crate::text::lemma_rfind_below(name, seq!['.'], name.len() as int + 1);
    }
}

/// File stem of the file name of `p`, or `fallback` when there is none.
pub open spec fn path_stem(p: Seq<char>, fallback: Seq<char>) -> Seq<char> {
    match file_name_of(p) {
        Some(f) => stem_of(f),
        None => fallback,
    }
}

fn path_stem_exec(p: &str, fallback: &str) -> (r: Vec<char>)
    ensures
        r@ == path_stem(p@, fallback@),
{
    match file_name(&chars_of(p)) {
        Some(f) => stem_exec(&f),
        None => chars_of(fallback),
    }
}

/// Output name for a single video: its stem with `.mp4`.
pub open spec fn single_dest_name_of(input: Seq<char>) -> Seq<char> {
    path_stem(input, "video"@) + ".mp4"@
}

pub fn single_dest_name(input: &str) -> (r: String)
    ensures
        r@ == single_dest_name_of(input@),
{
    let mut s = path_stem_exec(input, "video");
    push_all(&mut s, &chars_of(".mp4"));
    string_of(&s)
}

/// Output name for a video found in an archive: the archive's base name, and
/// the video's own stem when the archive held several.
pub open spec fn extracted_dest_name_of(archive_base: Seq<char>, count: nat, video: Seq<char>) -> Seq<
    char,
> {
    if count == 1 {
        archive_base + ".mp4"@
    } else {
        archive_base + "_"@ + path_stem(video, "part"@) + ".mp4"@
    }
}

pub fn extracted_dest_name(archive_base: &str, count: usize, video: &str) -> (r: String)
    ensures
        r@ == extracted_dest_name_of(archive_base@, count as nat, video@),
{
    let mut s = chars_of(archive_base);
    if count != 1 {
        push_all(&mut s, &chars_of("_"));
        push_all(&mut s, &path_stem_exec(video, "part"));
    }
    push_all(&mut s, &chars_of(".mp4"));
    string_of(&s)
}

// ---------------------------------------------------------------------------
// Results
// ---------------------------------------------------------------------------
/// A result as `(status, reason, output, outputs, error)`.
pub open spec fn video_view(r: VideoResult) -> (
    Seq<char>,
    Option<Reason>,
    Option<Seq<char>>,
    Seq<Seq<char>>,
    Option<Seq<char>>,
) {
    (
        r.status@,
        r.reason,
        match r.output {
            Some(o) => Some(o@),
            None => None,
        },
        str_views(r.outputs@),
        match r.error {
            Some(e) => Some(e@),
            None => None,
        },
    )
}

fn text_with(prefix: &str, m: &str) -> (r: String)
    ensures
        r@ == prefix@ + m@,
{
    let mut v = chars_of(prefix);
    push_all(&mut v, &chars_of(m));
    string_of(&v)
}

/// The input is gone.
pub fn missing_input(display: &str) -> (r: VideoResult)
    ensures
        video_view(r) == ("failed"@, Some(Reason::OpenFailed), None::<Seq<char>>, Seq::<
            Seq<char>,
        >::empty(), Some("input does not exist: "@ + display@)),
{
    let r = VideoResult {
        status: "failed",
        reason: Some(Reason::OpenFailed),
        output: None,
        outputs: Vec::new(),
        error: Some(text_with("input does not exist: ", display)),
    };
    proof {
        assert(str_views(r.outputs@) =~= Seq::<Seq<char>>::empty());
    }
    r
}

/// Outcome of transcoding a single video file.
pub fn single_result(transcoded: Result<String, String>) -> (r: VideoResult)
    ensures
        video_view(r) == match transcoded {
            Ok(out) => ("success"@, None, Some(out@), seq![out@], None),
            Err(e) => ("failed"@, Some(Reason::UnsupportedFileType), None, Seq::<Seq<char>>::empty(), Some(e@)),
        },
{
    match transcoded {
        Ok(out) => {
            let o2 = out.clone();
            let outputs = vec![o2];
            proof {
                assert(str_views(outputs@) =~= seq![out@]);
            }
            VideoResult { status: "success", reason: None, output: Some(out), outputs, error: None }
        },
        Err(e) => {
            let r = VideoResult {
                status: "failed",
                reason: Some(Reason::UnsupportedFileType),
                output: None,
                outputs: Vec::new(),
                error: Some(e),
            };
            proof {
                assert(str_views(r.outputs@) =~= Seq::<Seq<char>>::empty());
            }
            r
        },
    }
}

/// Outcome of transcoding the videos found in an archive: a failure stops at
/// that video (keeping the outputs written so far); no video found is a skip.
pub open spec fn archive_outcome(
    work_error: Option<Seq<char>>,
    extract_error: Option<Seq<char>>,
    found: nat,
    outputs: Seq<Seq<char>>,
    failure: Option<Seq<char>>,
) -> (Seq<char>, Option<Reason>, Option<Seq<char>>, Seq<Seq<char>>, Option<Seq<char>>) {
    if let Some(e) = work_error {
        ("failed"@, None, None, Seq::empty(), Some("create work subdir: "@ + e))
    } else if let Some(e) = extract_error {
        ("failed"@, Some(Reason::ConvertError), None, Seq::empty(), Some("archive extract: "@ + e))
    } else if found == 0 {
        ("skipped"@, Some(Reason::UnsupportedFileType), None, Seq::empty(), Some(
            "no video files found inside archive"@,
        ))
    } else if let Some(e) = failure {
        ("failed"@, Some(Reason::UnsupportedFileType), None, outputs, Some(e))
    } else {
        (
            "success"@,
            None,
            if outputs.len() > 0 {
                Some(outputs[0])
            } else {
                None
            },
            outputs,
            None,
        )
    }
}

pub fn archive_result(
    work_error: Option<String>,
    extract_error: Option<String>,
    found: usize,
    outputs: Vec<String>,
    failure: Option<String>,
) -> (r: VideoResult)
    ensures
        video_view(r) == archive_outcome(
            match work_error {
                Some(e) => Some(e@),
                None => None,
            },
            match extract_error {
                Some(e) => Some(e@),
                None => None,
            },
            found as nat,
            str_views(outputs@),
            match failure {
                Some(e) => Some(e@),
                None => None,
            },
        ),
{
    let empty: Vec<String> = Vec::new();
    proof {
        assert(str_views(empty@) =~= Seq::<Seq<char>>::empty());
    }
    if let Some(e) = work_error {
        return VideoResult {
            status: "failed",
            reason: None,
            output: None,
            outputs: empty,
            error: Some(text_with("create work subdir: ", e.as_str())),
        };
    }
    if let Some(e) = extract_error {
        return VideoResult {
            status: "failed",
            reason: Some(Reason::ConvertError),
            output: None,
            outputs: empty,
            error: Some(text_with("archive extract: ", e.as_str())),
        };
    }
    if found == 0 {
        return VideoResult {
            status: "skipped",
            reason: Some(Reason::UnsupportedFileType),
            output: None,
            outputs: empty,
            error: Some("no video files found inside archive".to_owned()),
        };
    }
    if let Some(e) = failure {
        return VideoResult {
            status: "failed",
            reason: Some(Reason::UnsupportedFileType),
            output: None,
            outputs,
            error: Some(e),
        };
    }
    let first = if outputs.len() > 0 {
        Some(outputs[0].clone())
    } else {
        None
    };
    VideoResult { status: "success", reason: None, output: first, outputs, error: None }
}

/// The original is deleted after a successful transcode only when deletion
/// is enabled and the job is not a dry run.
pub open spec fn video_deletes_original(delete_original: bool, dry_run: bool, r: VideoResult) -> bool {
    delete_original && !dry_run && r.status@ == "success"@
}

pub fn should_delete_video_original(delete_original: bool, dry_run: bool, r: &VideoResult) -> (b: bool)
    ensures
        b == video_deletes_original(delete_original, dry_run, *r),
{
    delete_original && !dry_run && crate::text::str_eq_lit(r.status, "success")
}

// ---------------------------------------------------------------------------
// Dispatch
// ---------------------------------------------------------------------------
/// Next step of the video plugin for a classified input.
#[derive(Debug, Clone)]
pub enum VideoStep {
    /// Transcode it.
    Convert,
    /// Leave it where it is: report this result.
    Report(VideoResult),
}

/// The video plugin's step for an input of kind `kind`: videos are
/// transcoded; manga archives and unknown files are skipped and left alone.
pub fn process(kind: Kind) -> (r: VideoStep)
    ensures
        match kind {
            Kind::Video => r is Convert,
            Kind::Manga => r matches VideoStep::Report(res) && video_view(res) == (
                "skipped"@,
                Some(Reason::UnsupportedFileType),
                None::<Seq<char>>,
                Seq::<Seq<char>>::empty(),
                Some("manga archive skipped by video plugin"@),
            ),
            Kind::Unknown => r matches VideoStep::Report(res) && video_view(res) == (
                "skipped"@,
                Some(Reason::UnsupportedFileType),
                None::<Seq<char>>,
                Seq::<Seq<char>>::empty(),
                Some("unrecognized file type ignored by video plugin"@),
            ),
        },
{
    let empty: Vec<String> = Vec::new();
    proof {
        assert(str_views(empty@) =~= Seq::<Seq<char>>::empty());
    }
    match kind {
        Kind::Video => VideoStep::Convert,
        Kind::Manga => VideoStep::Report(
            VideoResult {
                status: "skipped",
                reason: Some(Reason::UnsupportedFileType),
                output: None,
                outputs: empty,
                error: Some("manga archive skipped by video plugin".to_owned()),
            },
        ),
        Kind::Unknown => VideoStep::Report(
            VideoResult {
                status: "skipped",
                reason: Some(Reason::UnsupportedFileType),
                output: None,
                outputs: empty,
                error: Some("unrecognized file type ignored by video plugin".to_owned()),
            },
        ),
    }
}

/// The video plugin never deletes a manga archive or an unknown file: it
/// only reports a skip for them, which never leads to deletion.
pub proof fn lemma_video_plugin_keeps_others(kind: Kind, res: VideoResult, del: bool, dry: bool)
    requires
        kind != Kind::Video,
        res.status@ == "skipped"@,
    ensures
        !video_deletes_original(del, dry, res),
{
    reveal_strlit("skipped");
    reveal_strlit("success");
    assert(res.status@[1] != "success"@[1]);
}

// ---------------------------------------------------------------------------
// Log lines
// ---------------------------------------------------------------------------
/// The log line of a video job: `status=... input=...` with reason, output
/// and error when present, joined by spaces.
pub open spec fn video_log_line(r: VideoResult, input: Seq<char>) -> Seq<char> {
    "status="@ + r.status@ + " input="@ + input + reason_part(r.reason) + output_part(r.output)
        + error_part(r.error)
}

pub fn format_video_log(res: &VideoResult, input: &str) -> (r: String)
    ensures
        r@ == video_log_line(*res, input@),
{
    let mut v = chars_of("status=");
    push_all(&mut v, &chars_of(res.status));
    push_all(&mut v, &chars_of(" input="));
    push_all(&mut v, &chars_of(input));
    let ghost a = v@;
    if let Some(x) = res.reason {
        push_all(&mut v, &chars_of(" reason="));
        push_all(&mut v, &chars_of(x.as_str()));
    }
    let ghost b = v@;
    if let Some(o) = &res.output {
        push_all(&mut v, &chars_of(" output="));
        push_all(&mut v, &chars_of(o.as_str()));
    }
    let ghost c = v@;
    if let Some(e) = &res.error {
        push_all(&mut v, &chars_of(" error=\""));
        push_all(&mut v, &chars_of(e.as_str()));
        push_all(&mut v, &chars_of("\""));
    }
    proof {
        assert(b =~= a + reason_part(res.reason));
        assert(c =~= b + output_part(res.output));
        assert(v@ =~= c + error_part(res.error));
        assert(v@ =~= video_log_line(*res, input@));
    }
    string_of(&v)
}

// ---------------------------------------------------------------------------
// Inputs in flight
// ---------------------------------------------------------------------------
/// Inputs submitted to the workers and not finished yet, each once.
pub struct InflightSet {
    items: Vec<String>,
}

impl InflightSet {
    pub closed spec fn contents(&self) -> Set<Seq<char>> {
        str_views(self.items@).to_set()
    }

    pub closed spec fn wf(&self) -> bool {
        str_views(self.items@).no_duplicates()
    }

    pub fn new() -> (r: Self)
        ensures
            r.wf(),
            r.contents() == Set::<Seq<char>>::empty(),
    {
        let r = InflightSet { items: Vec::new() };
        proof {
            assert(str_views(r.items@) =~= Seq::<Seq<char>>::empty());
            assert(str_views(r.items@).to_set() =~= Set::<Seq<char>>::empty());
        }
        r
    }

    fn position(&self, p: &str) -> (r: Option<usize>)
        ensures
            match r {
                Some(i) => i < self.items@.len() && self.items@[i as int]@ == p@,
                None => !str_views(self.items@).contains(p@),
            },
    {
        let mut i: usize = 0;
        while i < self.items.len()
            invariant
                i <= self.items@.len(),
                forall|j: int| 0 <= j < i ==> self.items@[j]@ != p@,
            decreases self.items.len() - i,
        {
            if crate::text::str_eq_lit(p, self.items[i].as_str()) {
                return Some(i);
            }
            i += 1;
        }
        proof {
            if str_views(self.items@).contains(p@) {
                let j = choose|j: int| 0 <= j < str_views(self.items@).len() && str_views(self.items@)[j] == p@;
                assert(self.items@[j]@ == p@);
            }
        }
        None
    }

    /// Marks `p` in flight; `false` (and no change) when it already is.
    pub fn insert(&mut self, p: &str) -> (r: bool)
        requires
            old(self).wf(),
        ensures
            final(self).wf(),
            r == !old(self).contents().contains(p@),
            final(self).contents() == old(self).contents().insert(p@),
    {
        match self.position(p) {
            Some(i) => {
                proof {
                    assert(str_views(self.items@)[i as int] == p@);
                    assert(str_views(self.items@).contains(p@));
                    assert(self.contents().contains(p@));
                    assert(self.contents().insert(p@) =~= self.contents());
                }
                false
            },
            None => {
                let ghost before = str_views(self.items@);
                let s = p.to_owned();
                proof {
                    crate::text::lemma_str_views_push(self.items@, s);
                }
                self.items.push(s);
                proof {
                    let after = str_views(self.items@);
                    assert(after == before.push(p@));
                    assert(after.to_set() =~= before.to_set().insert(p@));
                    assert forall|a: int, b: int| 0 <= a < after.len() && 0 <= b < after.len() && a != b implies after[a] != after[b] by {
                        if a == before.len() && b < before.len() {
                            assert(before.contains(before[b]));
                        }
                        if b == before.len() && a < before.len() {
                            assert(before.contains(before[a]));
                        }
                    }
                }
                true
            },
        }
    }

    /// Marks `p` finished.
    pub fn remove(&mut self, p: &str)
        requires
            old(self).wf(),
        ensures
            final(self).wf(),
            final(self).contents() == old(self).contents().remove(p@),
    {
        match self.position(p) {
            Some(i) => {
                let ghost before = str_views(self.items@);
                self.items.remove(i);
                proof {
                    let after = str_views(self.items@);
                    assert(after =~= before.remove(i as int));
                    assert forall|x: Seq<char>| after.to_set().contains(x) <==> before.to_set().remove(p@).contains(x) by {
                        if after.contains(x) {
                            let k = choose|k: int| 0 <= k < after.len() && after[k] == x;
                            if k < i {
                                assert(before[k] == x);
                                assert(before[k] != before[i as int]);
                                assert(before.contains(x));
                            } else {
                                assert(before[k + 1] == x);
                                assert(before[k + 1] != before[i as int]);
                                assert(before.contains(x));
                            }
                        }
                        if before.contains(x) && x != p@ {
                            let k = choose|k: int| 0 <= k < before.len() && before[k] == x;
                            assert(k != i as int);
                            if k < i {
                                assert(after[k] == x);
                            } else {
                                assert(after[k - 1] == x);
                            }
                        }
                    }
                    assert(after.to_set() =~= before.to_set().remove(p@));
                }
            },
            None => {
                proof {
                    assert(self.contents().remove(p@) =~= self.contents());
                }
            },
        }
    }
}

} // verus!
