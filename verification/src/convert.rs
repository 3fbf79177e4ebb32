//! Decisions of a manga conversion job: checking the input, naming series and
//! volumes, where each volume goes, which files are staged, how a job's
//! outcome is reported, and what happens to the original afterwards.
use vstd::prelude::*;

use crate::classify::{image_ext, path_ext, Kind};
use crate::config::MangaConfig;
use crate::error::{reason_code, reason_of, message_of, ConvertError, Reason};
use crate::paths::{join_path, output_stem, output_stem_of, sanitize_filename, sanitized};
use crate::text::{chars_of, fmt_dec, push_all, push_dec, str_views, string_of, trim, trim_chars};
use crate::title::{strip_volume_token, Confidence, VolumeKey};

verus! {

/// Per-invocation options for a single conversion job.
#[derive(Debug, Clone)]
pub struct ConvertOptions {
    pub password: Option<String>,
    pub keep_work_dir_on_error: bool,
    pub dry_run: bool,
}

/// Per-volume result inside one job.
#[derive(Debug, Clone)]
pub enum VolumeOutcome {
    Built(String, u32),
    Skipped(String),
}

/// Outcome of a single conversion job, ready for status logging.
#[derive(Debug, Clone)]
pub struct ConvertResult {
    pub status: &'static str,
    pub reason: Option<Reason>,
    pub output: Option<String>,
    pub outputs: Vec<String>,
    pub pages: Option<u32>,
    pub videos: Option<u32>,
    pub error: Option<String>,
}

// ---------------------------------------------------------------------------
// Status lines
// ---------------------------------------------------------------------------
/// Texts joined by `,`.
pub open spec fn join_comma(s: Seq<Seq<char>>) -> Seq<char>
    decreases s.len(),
{
    if s.len() == 0 {
        Seq::empty()
    } else if s.len() == 1 {
        s[0]
    } else {
        join_comma(s.drop_last()) + seq![','] + s.last()
    }
}

/// The greppable status line of a job's result for `input`.
pub open spec fn status_line(r: ConvertResult, input: Seq<char>) -> Seq<char> {
    "status="@ + r.status@ + " input="@ + input + reason_part(r.reason) + output_part(r.output)
        + outputs_part(r.outputs@) + number_part(" pages="@, r.pages) + number_part(
        " videos="@,
        r.videos,
    ) + error_part(r.error)
}

fn push_str(out: &mut Vec<char>, s: &str)
    ensures
        final(out)@ == old(out)@ + s@,
{
    push_all(out, &chars_of(s));
}

pub open spec fn reason_part(r: Option<Reason>) -> Seq<char> {
    match r {
        Some(x) => " reason="@ + reason_code(x),
        None => Seq::empty(),
    }
}

pub open spec fn output_part(o: Option<String>) -> Seq<char> {
    match o {
        Some(o) => " output="@ + o@,
        None => Seq::empty(),
    }
}

pub open spec fn outputs_part(os: Seq<String>) -> Seq<char> {
    if os.len() > 0 {
        " outputs=["@ + join_comma(str_views(os)) + "]"@
    } else {
        Seq::empty()
    }
}

pub open spec fn number_part(label: Seq<char>, n: Option<u32>) -> Seq<char> {
    match n {
        Some(p) => label + fmt_dec(p as nat),
        None => Seq::empty(),
    }
}

pub open spec fn error_part(e: Option<String>) -> Seq<char> {
    match e {
        Some(e) => " error=\""@ + e@ + "\""@,
        None => Seq::empty(),
    }
}

fn push_reason(line: &mut Vec<char>, r: Option<Reason>)
    ensures
        final(line)@ == old(line)@ + reason_part(r),
{
    if let Some(x) = r {
        push_str(line, " reason=");
        push_str(line, x.as_str());
    } else {
        proof {
            assert(old(line)@ + reason_part(r) =~= old(line)@);
        }
    }
}

fn push_output(line: &mut Vec<char>, o: &Option<String>)
    ensures
        final(line)@ == old(line)@ + output_part(*o),
{
    if let Some(x) = o {
        push_str(line, " output=");
        push_str(line, x.as_str());
    } else {
        proof {
            assert(old(line)@ + output_part(*o) =~= old(line)@);
        }
    }
}

fn push_outputs(line: &mut Vec<char>, outputs: &Vec<String>)
    ensures
        final(line)@ == old(line)@ + outputs_part(outputs@),
{
    if outputs.len() == 0 {
        proof {
            assert(old(line)@ + outputs_part(outputs@) =~= old(line)@);
        }
        return;
    }
    push_str(line, " outputs=[");
    let ghost start = line@;
    let mut i: usize = 0;
    while i < outputs.len()
        invariant
            0 < outputs@.len(),
            i <= outputs@.len(),
            line@ == start + join_comma(str_views(outputs@).take(i as int)),
        decreases outputs.len() - i,
    {
        if i > 0 {
            line.push(',');
        }
        push_str(line, outputs[i].as_str());
        proof {
            let t = str_views(outputs@).take(i + 1);
            assert(t.drop_last() =~= str_views(outputs@).take(i as int));
            if i > 0 {
                assert(line@ =~= start + (join_comma(t.drop_last()) + seq![','] + t.last()));
            } else {
                assert(line@ =~= start + t[0]);
            }
        }
        i += 1;
    }
    proof {
        assert(str_views(outputs@).take(outputs@.len() as int) =~= str_views(outputs@));
    }
    push_str(line, "]");
}

fn push_number(line: &mut Vec<char>, label: &str, n: Option<u32>)
    ensures
        final(line)@ == old(line)@ + number_part(label@, n),
{
    if let Some(p) = n {
        push_str(line, label);
        push_dec(line, p as u64);
    } else {
        proof {
            assert(old(line)@ + number_part(label@, n) =~= old(line)@);
        }
    }
}

fn push_error(line: &mut Vec<char>, e: &Option<String>)
    ensures
        final(line)@ == old(line)@ + error_part(*e),
{
    if let Some(x) = e {
        push_str(line, " error=\"");
        push_str(line, x.as_str());
        push_str(line, "\"");
    } else {
        proof {
            assert(old(line)@ + error_part(*e) =~= old(line)@);
        }
    }
}

/// The greppable status line of a job's result (`status=... input=...`).
pub fn log_status(result: &ConvertResult, input: &str) -> (r: String)
    ensures
        r@ == status_line(*result, input@),
{
    let mut line: Vec<char> = Vec::new();
    push_str(&mut line, "status=");
    push_str(&mut line, result.status);
    push_str(&mut line, " input=");
    push_str(&mut line, input);
    push_reason(&mut line, result.reason);
    push_output(&mut line, &result.output);
    push_outputs(&mut line, &result.outputs);
    push_number(&mut line, " pages=", result.pages);
    push_number(&mut line, " videos=", result.videos);
    push_error(&mut line, &result.error);
    proof {
        assert(line@ =~= "status="@ + result.status@ + " input="@ + input@ + reason_part(result.reason)
            + output_part(result.output) + outputs_part(result.outputs@) + number_part(
            " pages="@,
            result.pages,
        ) + number_part(" videos="@, result.videos) + error_part(result.error));
    }
    string_of(&line)
}

// ---------------------------------------------------------------------------
// Job outcome
// ---------------------------------------------------------------------------
/// Where the single output of a flat conversion of `input` goes.
pub open spec fn output_path_of(input: Seq<char>, output_dir: Seq<char>) -> Seq<char> {
    join_path(output_dir, output_stem_of(input))
}

pub fn output_path(input: &str, cfg: &MangaConfig) -> (r: String)
    ensures
        r@ == output_path_of(input@, cfg.output_dir@),
{
    let o = chars_of(cfg.output_dir.as_str());
    let stem = output_stem(input);
    let s = chars_of(stem.as_str());
    let mut v = crate::text::slice_of(&o, 0, o.len());
    if o.len() > 0 && o[o.len() - 1] != '/' {
        v.push('/');
    }
    push_all(&mut v, &s);
    proof {
        assert(o@.subrange(0, o@.len() as int) =~= o@);
        assert(v@ =~= output_path_of(input@, cfg.output_dir@));
    }
    string_of(&v)
}

/// Paths of the built volumes, in order.
pub open spec fn built_paths(os: Seq<VolumeOutcome>) -> Seq<Seq<char>>
    decreases os.len(),
{
    if os.len() == 0 {
        Seq::empty()
    } else {
        built_paths(os.drop_last()) + match os.last() {
            VolumeOutcome::Built(p, _) => seq![p@],
            VolumeOutcome::Skipped(_) => Seq::empty(),
        }
    }
}

/// Paths of the volumes skipped because they existed, in order.
pub open spec fn skipped_paths(os: Seq<VolumeOutcome>) -> Seq<Seq<char>>
    decreases os.len(),
{
    if os.len() == 0 {
        Seq::empty()
    } else {
        skipped_paths(os.drop_last()) + match os.last() {
            VolumeOutcome::Skipped(p) => seq![p@],
            VolumeOutcome::Built(_, _) => Seq::empty(),
        }
    }
}

/// Pages of the built volumes in total.
pub open spec fn built_pages(os: Seq<VolumeOutcome>) -> nat
    decreases os.len(),
{
    if os.len() == 0 {
        0
    } else {
        built_pages(os.drop_last()) + match os.last() {
            VolumeOutcome::Built(_, n) => n as nat,
            VolumeOutcome::Skipped(_) => 0,
        }
    }
}

/// The result of a job, as `(status, reason, output, outputs, pages, error)`.
pub open spec fn job_result(
    outcome: Result<Seq<VolumeOutcome>, ConvertError>,
    planned_output: Seq<char>,
) -> (Seq<char>, Option<Reason>, Option<Seq<char>>, Seq<Seq<char>>, Option<nat>, Option<Seq<char>>) {
    match outcome {
        Err(ConvertError::OutputExists) => (
            "skipped"@,
            Some(Reason::OutputExists),
            Some(planned_output),
            Seq::empty(),
            None,
            None,
        ),
        Err(ConvertError::PasswordRequired) => (
            "skipped"@,
            Some(Reason::PasswordRequired),
            None,
            Seq::empty(),
            None,
            None,
        ),
        Err(e) => ("failed"@, Some(reason_of(e)), None, Seq::empty(), None, Some(message_of(e))),
        Ok(os) => if built_paths(os).len() == 0 {
            ("skipped"@, Some(Reason::OutputExists), None, skipped_paths(os), None, None)
        } else {
            (
                "success"@,
                None,
                Some(built_paths(os)[0]),
                built_paths(os),
                Some(built_pages(os)),
                None,
            )
        },
    }
}

pub open spec fn result_view(r: ConvertResult) -> (
    Seq<char>,
    Option<Reason>,
    Option<Seq<char>>,
    Seq<Seq<char>>,
    Option<nat>,
    Option<Seq<char>>,
) {
    (
        r.status@,
        r.reason,
        match r.output {
            Some(o) => Some(o@),
            None => None,
        },
        str_views(r.outputs@),
        match r.pages {
            Some(p) => Some(p as nat),
            None => None,
        },
        match r.error {
            Some(e) => Some(e@),
            None => None,
        },
    )
}

/// Reports the outcome of converting `input` (the volumes built or skipped,
/// or the error the job ended with): status, reason, outputs, page count.
/// The page total must fit in `u32`.
pub fn convert_one(input: &str, cfg: &MangaConfig, outcome: Result<Vec<VolumeOutcome>, ConvertError>) -> (r:
    ConvertResult)
    requires
        outcome matches Ok(os) ==> built_pages(os@) <= u32::MAX,
    ensures
        result_view(r) == job_result(
            match outcome {
                Ok(os) => Ok(os@),
                Err(e) => Err(e),
            },
            output_path_of(input@, cfg.output_dir@),
        ),
        r.videos is None,
{
    match outcome {
        Err(ConvertError::OutputExists) => ConvertResult {
            status: "skipped",
            reason: Some(Reason::OutputExists),
            output: Some(output_path(input, cfg)),
            outputs: Vec::new(),
            pages: None,
            videos: None,
            error: None,
        },
        Err(ConvertError::PasswordRequired) => ConvertResult {
            status: "skipped",
            reason: Some(Reason::PasswordRequired),
            output: None,
            outputs: Vec::new(),
            pages: None,
            videos: None,
            error: None,
        },
        Err(e) => ConvertResult {
            status: "failed",
            reason: Some(e.reason()),
            output: None,
            outputs: Vec::new(),
            pages: None,
            videos: None,
            error: Some(e.message()),
        },
        Ok(outcomes) => {
            let mut built: Vec<String> = Vec::new();
            let mut skipped: Vec<String> = Vec::new();
            let mut pages: u32 = 0;
            let mut i: usize = 0;
            proof {
                lemma_built_pages_prefix(outcomes@, 0);
            }
            while i < outcomes.len()
                invariant
                    i <= outcomes@.len(),
                    built_pages(outcomes@) <= u32::MAX,
                    str_views(built@) == built_paths(outcomes@.take(i as int)),
                    str_views(skipped@) == skipped_paths(outcomes@.take(i as int)),
                    pages == built_pages(outcomes@.take(i as int)),
                decreases outcomes.len() - i,
            {
                proof {
                    assert(outcomes@.take(i + 1).drop_last() =~= outcomes@.take(i as int));
                    lemma_built_pages_prefix(outcomes@, i + 1);
                }
                match &outcomes[i] {
                    VolumeOutcome::Built(p, n) => {
                        let c = p.clone();
                        proof {
                            crate::text::lemma_str_views_push(built@, c);
                            assert(built_paths(outcomes@.take(i as int)).push(c@) =~= built_paths(
                                outcomes@.take(i as int),
                            ) + seq![c@]);
                            assert(skipped_paths(outcomes@.take(i as int)) + Seq::<Seq<char>>::empty()
                                =~= skipped_paths(outcomes@.take(i as int)));
                        }
                        built.push(c);
                        pages = pages + *n;
                    },
                    VolumeOutcome::Skipped(p) => {
                        let c = p.clone();
                        proof {
                            crate::text::lemma_str_views_push(skipped@, c);
                            assert(skipped_paths(outcomes@.take(i as int)).push(c@)
                                =~= skipped_paths(outcomes@.take(i as int)) + seq![c@]);
                            assert(built_paths(outcomes@.take(i as int)) + Seq::<Seq<char>>::empty()
                                =~= built_paths(outcomes@.take(i as int)));
                        }
                        skipped.push(c);
                    },
                }
                i += 1;
            }
            proof {
                assert(outcomes@.take(outcomes@.len() as int) =~= outcomes@);
            }
            if built.len() == 0 {
                ConvertResult {
                    status: "skipped",
                    reason: Some(Reason::OutputExists),
                    output: None,
                    outputs: skipped,
                    pages: None,
                    videos: None,
                    error: None,
                }
            } else {
                let first = built[0].clone();
                ConvertResult {
                    status: "success",
                    reason: None,
                    output: Some(first),
                    outputs: built,
                    pages: Some(pages),
                    videos: None,
                    error: None,
                }
            }
        },
    }
}

proof fn lemma_built_pages_prefix(os: Seq<VolumeOutcome>, i: int)
    requires
        0 <= i <= os.len(),
    ensures
        built_pages(os.take(i)) <= built_pages(os),
    decreases os.len() - i,
{
    if i < os.len() {
        lemma_built_pages_prefix(os, i + 1);
        assert(os.take(i + 1).drop_last() =~= os.take(i));
    } else {
        assert(os.take(i) =~= os);
    }
}

// ---------------------------------------------------------------------------
// Checking the input
// ---------------------------------------------------------------------------
/// Refuses an input that is not a regular file or is larger than the limit.
pub open spec fn input_check(is_file: bool, len: u64, max_gib: u64, display: Seq<char>) -> Option<
    (int, Seq<char>),
> {
    if !is_file {
        Some((3, display + " is not a regular file"@))
    } else if len > max_gib * 1073741824 {
        Some((5, "input exceeds "@ + fmt_dec(max_gib as nat) + " GiB"@))
    } else {
        None
    }
}

pub fn check_input(is_file: bool, len: u64, max_input_size_gib: u64, display: &str) -> (r: Result<
    (),
    ConvertError,
>)
    requires
        max_input_size_gib * 1073741824 <= u64::MAX,
    ensures
        match r {
            Ok(()) => input_check(is_file, len, max_input_size_gib, display@) is None,
            Err(e) => input_check(is_file, len, max_input_size_gib, display@) == Some(
                crate::archive::error_view(e),
            ),
        },
{
    if !is_file {
        let mut m = chars_of(display);
        push_str(&mut m, " is not a regular file");
        return Err(ConvertError::UnsupportedFileType(string_of(&m)));
    }
    if len > max_input_size_gib * 1073741824 {
        let mut m = chars_of("input exceeds ");
        push_dec(&mut m, max_input_size_gib);
        push_str(&mut m, " GiB");
        return Err(ConvertError::LimitExceeded(string_of(&m)));
    }
    Ok(())
}

// ---------------------------------------------------------------------------
// Series and volumes
// ---------------------------------------------------------------------------
/// Whether a text has something besides whitespace.
pub open spec fn not_blank(s: Seq<char>) -> bool {
    trim(s).len() > 0
}

fn not_blank_exec(s: &str) -> (r: bool)
    ensures
        r == not_blank(s@),
{
    trim_chars(&chars_of(s)).len() > 0
}

/// Series name: the outer name without its volume token; else the longest
/// common prefix of the volume names without its volume token; else the
/// outer name (made safe as a file name in each case).
pub open spec fn series_of(outer: Seq<char>, common: Seq<char>) -> Seq<char> {
    let c1 = crate::title::stripped_name(outer);
    let c2 = crate::title::stripped_name(common);
    if not_blank(c1) {
        sanitized(c1)
    } else if not_blank(c2) {
        sanitized(c2)
    } else {
        sanitized(outer)
    }
}

/// Names the series of a job from its outer name and its volumes' names.
pub fn resolve_series(outer_stem: &str, raw_names: &[&str]) -> (r: String)
    ensures
        r@ == series_of(outer_stem@, crate::title::common_prefix(crate::title::views_of(raw_names@))),
{
    let candidate = strip_volume_token(outer_stem);
    if not_blank_exec(candidate.as_str()) {
        return sanitize_filename(candidate.as_str());
    }
    let common = crate::title::longest_common_prefix(raw_names);
    let candidate2 = strip_volume_token(common.as_str());
    if not_blank_exec(candidate2.as_str()) {
        return sanitize_filename(candidate2.as_str());
    }
    sanitize_filename(outer_stem)
}

/// Series name for a dry run: the outer name without its volume token, else
/// the outer name.
pub open spec fn dry_run_series_of(outer: Seq<char>) -> Seq<char> {
    let c1 = crate::title::stripped_name(outer);
    if not_blank(c1) {
        sanitized(c1)
    } else {
        sanitized(outer)
    }
}

pub fn resolve_series_for_dry_run(outer_stem: &str) -> (r: String)
    ensures
        r@ == dry_run_series_of(outer_stem@),
{
    let candidate = strip_volume_token(outer_stem);
    if not_blank_exec(candidate.as_str()) {
        return sanitize_filename(candidate.as_str());
    }
    sanitize_filename(outer_stem)
}

/// When the outer name without its volume token is not blank, the series
/// is that name made safe as a file name, whatever the volumes are called:
/// it never keeps the outer name's volume token (`アオのハコ 第1巻` gives
/// `アオのハコ`), and a dry run names the same series.
pub proof fn lemma_series_from_stripped_outer(outer: Seq<char>, common: Seq<char>, other: Seq<char>)
    requires
        not_blank(crate::title::stripped_name(outer)),
    ensures
        series_of(outer, common) == sanitized(crate::title::stripped_name(outer)),
        series_of(outer, common) == series_of(outer, other),
        series_of(outer, common) == dry_run_series_of(outer),
{
}

/// One entry read from an archive in a dry run.
pub struct DryEntry {
    pub name: String,
    pub encrypted: bool,
}

/// Entries a dry run leaves out: the `__MACOSX` folder itself when macOS
/// metadata is removed, and anything under `__MACOSX/` in any case.
pub open spec fn dry_skipped(remove_macos: bool, name: Seq<char>) -> bool {
    (remove_macos && name == "__MACOSX"@) || crate::text::starts_with(name, "__MACOSX/"@)
}

/// Some entry that counts is encrypted.
pub open spec fn dry_encrypted(es: Seq<DryEntry>, remove_macos: bool) -> bool
    decreases es.len(),
{
    es.len() > 0 && (dry_encrypted(es.drop_last(), remove_macos) || (!dry_skipped(
        remove_macos,
        es.last().name@,
    ) && es.last().encrypted))
}

/// Entries that count and have an image extension.
pub open spec fn dry_images(es: Seq<DryEntry>, remove_macos: bool) -> nat
    decreases es.len(),
{
    if es.len() == 0 {
        0
    } else {
        dry_images(es.drop_last(), remove_macos) + if !dry_skipped(remove_macos, es.last().name@)
            && image_ext(path_ext(es.last().name@)) {
            1nat
        } else {
            0nat
        }
    }
}

/// Where a dry run says the output would go.
pub open spec fn dry_output(input: Seq<char>, cfg: MangaConfig, outer: Seq<char>) -> Seq<char> {
    if cfg.split_volumes && cfg.series_subdir {
        let series = dry_run_series_of(outer);
        join_path(join_path(cfg.output_dir@, series), series + ".cbz"@)
    } else {
        output_path_of(input, cfg.output_dir@)
    }
}

proof fn lemma_dry_images_le(es: Seq<DryEntry>, remove_macos: bool)
    ensures
        dry_images(es, remove_macos) <= es.len(),
    decreases es.len(),
{
    if es.len() > 0 {
        lemma_dry_images_le(es.drop_last(), remove_macos);
    }
}

/// Validates an archive from the entries read from it and reports what
/// would be written, writing nothing: an error reading an entry fails the
/// run; encrypted entries need a password; otherwise one volume with the
/// archive's image count at the planned output path.
pub fn dry_run(
    input: &str,
    cfg: &MangaConfig,
    has_password: bool,
    outer_stem: &str,
    entries: &[DryEntry],
    read_error: Option<String>,
) -> (r: Result<Vec<VolumeOutcome>, ConvertError>)
    ensures
        match read_error {
            Some(e) => r matches Err(ConvertError::Convert(m)) && m@ == "reading entry: "@ + e@,
            None => if dry_encrypted(entries@, cfg.remove_macos_metadata) && !has_password {
                r matches Err(ConvertError::PasswordRequired)
            } else {
                r matches Ok(v) && v@.len() == 1 && (v@[0] matches VolumeOutcome::Built(p, n) && p@
                    == dry_output(input@, *cfg, outer_stem@) && n == dry_images(
                    entries@,
                    cfg.remove_macos_metadata,
                ) as u32)
            },
        },
{
    if let Some(e) = read_error {
        let mut m = chars_of("reading entry: ");
        push_all(&mut m, &chars_of(e.as_str()));
        return Err(ConvertError::Convert(string_of(&m)));
    }
    let remove = cfg.remove_macos_metadata;
    let mut encrypted = false;
    let mut images: usize = 0;
    let mut i: usize = 0;
    while i < entries.len()
        invariant
            i <= entries@.len(),
            remove == cfg.remove_macos_metadata,
            encrypted == dry_encrypted(entries@.take(i as int), remove),
            images == dry_images(entries@.take(i as int), remove),
        decreases entries.len() - i,
    {
        let e = &entries[i];
        proof {
            assert(entries@.take(i + 1).drop_last() =~= entries@.take(i as int));
            assert(entries@.take(i + 1).last() == entries@[i as int]);
            lemma_dry_images_le(entries@.take(i as int), remove);
        }
        let name = chars_of(e.name.as_str());
        let skipped = (remove && crate::text::eq_lit(&name, "__MACOSX")) || crate::text::starts_with_exec(
            &name,
            &chars_of("__MACOSX/"),
        );
        if !skipped {
            if e.encrypted {
                encrypted = true;
            }
            let img = match crate::classify::entry_ext(&e.name) {
                Some(x) => crate::classify::is_image_ext(Some(string_of(&x).as_str())),
                None => crate::classify::is_image_ext(None),
            };
            if img {
                images += 1;
            }
        }
        i += 1;
    }
    proof {
        assert(entries@.take(entries@.len() as int) =~= entries@);
    }
    if encrypted && !has_password {
        return Err(ConvertError::PasswordRequired);
    }
    let out = if cfg.split_volumes && cfg.series_subdir {
        let series = resolve_series_for_dry_run(outer_stem);
        let sc = chars_of(series.as_str());
        let dir = crate::paths::join_path_exec(&chars_of(cfg.output_dir.as_str()), &sc);
        let mut name = sc;
        push_all(&mut name, &chars_of(".cbz"));
        string_of(&crate::paths::join_path_exec(&dir, &name))
    } else {
        output_path(input, cfg)
    };
    Ok(vec![VolumeOutcome::Built(out, images as u32)])
}

/// Volume number written into ComicInfo.xml for a key.
pub open spec fn comic_volume(k: crate::title::KeyView) -> Option<u32> {
    match k {
        crate::title::KeyView::Number(n) => Some(n),
        crate::title::KeyView::Part(p) => Some(p.number() as u32),
        _ => None,
    }
}

pub fn volume_number_of(key: &VolumeKey) -> (r: Option<u32>)
    ensures
        r == comic_volume(key@),
{
    match key {
        VolumeKey::Number(n) => Some(*n),
        VolumeKey::Part(p) => Some(p.number()),
        _ => None,
    }
}

/// How building one volume came out.
#[derive(Debug, Clone)]
pub enum VolumeEvent {
    /// The volume was written to this path, with this many pages.
    Built(String, u32),
    /// A volume already stood at this path and was left alone.
    Exists(String),
    /// Building the volume failed.
    Failed(ConvertError),
}

/// Records how one volume of a job came out.  A volume written or found
/// already there is added to `outcomes`; a failure stops the job and gives
/// back the volumes written so far, which are to be removed, with the error.
pub fn record_volume(outcomes: &mut Vec<VolumeOutcome>, ev: VolumeEvent) -> (r: Option<
    (Vec<String>, ConvertError),
>)
    ensures
        match ev {
            VolumeEvent::Built(p, n) => r is None && final(outcomes)@ == old(outcomes)@.push(
                VolumeOutcome::Built(p, n),
            ),
            VolumeEvent::Exists(p) => r is None && final(outcomes)@ == old(outcomes)@.push(
                VolumeOutcome::Skipped(p),
            ),
            VolumeEvent::Failed(e) => final(outcomes)@ == old(outcomes)@ && match r {
                Some((paths, e2)) => str_views(paths@) == built_paths(old(outcomes)@) && e2 == e,
                None => false,
            },
        },
{
    match ev {
        VolumeEvent::Built(p, n) => {
            outcomes.push(VolumeOutcome::Built(p, n));
            None
        },
        VolumeEvent::Exists(p) => {
            outcomes.push(VolumeOutcome::Skipped(p));
            None
        },
        VolumeEvent::Failed(e) => {
            let mut paths: Vec<String> = Vec::new();
            let mut i: usize = 0;
            while i < outcomes.len()
                invariant
                    i <= outcomes@.len(),
                    str_views(paths@) == built_paths(outcomes@.take(i as int)),
                decreases outcomes.len() - i,
            {
                proof {
                    assert(outcomes@.take(i + 1).drop_last() =~= outcomes@.take(i as int));
                }
                match &outcomes[i] {
                    VolumeOutcome::Built(p, _) => {
                        let c = p.clone();
                        proof {
                            crate::text::lemma_str_views_push(paths@, c);
                        }
                        paths.push(c);
                    },
                    VolumeOutcome::Skipped(_) => {},
                }
                i += 1;
            }
            proof {
                assert(outcomes@.take(outcomes@.len() as int) =~= outcomes@);
            }
            Some((paths, e))
        },
    }
}

/// A volume goes to review when it is low confidence and the job has more
/// than one volume.
pub open spec fn to_review(confidence: Confidence, units: nat) -> bool {
    units > 1 && confidence == Confidence::Low
}

pub fn low_confidence_unit(confidence: Confidence, units: usize) -> (r: bool)
    ensures
        r == to_review(confidence, units as nat),
{
    units > 1 && match confidence {
        Confidence::Low => true,
        Confidence::High => false,
    }
}

/// Where a job's volumes go: the series folder (or the output folder
/// itself), and the review folder for uncertain volumes.
pub open spec fn output_roots(output_dir: Seq<char>, series_subdir: bool, series: Seq<char>, outer: Seq<
    char,
>) -> (Seq<char>, Seq<char>) {
    (
        if series_subdir {
            join_path(output_dir, series)
        } else {
            output_dir
        },
        join_path(join_path(output_dir, "_review"@), sanitized(outer)),
    )
}

fn join_exec(a: &str, b: &str) -> (r: String)
    ensures
        r@ == join_path(a@, b@),
{
    let ac = chars_of(a);
    let mut v = crate::text::slice_of(&ac, 0, ac.len());
    if ac.len() > 0 && ac[ac.len() - 1] != '/' {
        v.push('/');
    }
    push_all(&mut v, &chars_of(b));
    proof {
        assert(ac@.subrange(0, ac@.len() as int) =~= ac@);
        assert(v@ =~= join_path(a@, b@));
    }
    string_of(&v)
}

pub fn volume_roots(cfg: &MangaConfig, series: &str, outer_stem: &str) -> (r: (String, String))
    ensures
        (r.0@, r.1@) == output_roots(cfg.output_dir@, cfg.series_subdir, series@, outer_stem@),
{
    let series_root = if cfg.series_subdir {
        join_exec(cfg.output_dir.as_str(), series)
    } else {
        cfg.output_dir.clone()
    };
    let review = join_exec(cfg.output_dir.as_str(), "_review");
    let clean = sanitize_filename(outer_stem);
    let review_root = join_exec(review.as_str(), clean.as_str());
    (series_root, review_root)
}

/// Title written into ComicInfo.xml: the file name without `.cbz` suffixes.
pub open spec fn display_title(file_name: Seq<char>) -> Seq<char>
    decreases file_name.len(),
{
    if crate::text::ends_with(file_name, ".cbz"@) && file_name.len() >= 4 {
        display_title(file_name.take(file_name.len() - 4))
    } else {
        file_name
    }
}

pub fn display_title_of(file_name: &str) -> (r: String)
    ensures
        r@ == display_title(file_name@),
{
    let c = chars_of(file_name);
    let suf = chars_of(".cbz");
    let mut k: usize = c.len();
    proof {
        assert(c@.take(k as int) =~= c@);
    }
    while k >= 4 && crate::text::ends_with_exec(&crate::text::slice_of(&c, 0, k), &suf)
        invariant
            k <= c@.len(),
            suf@ == ".cbz"@,
            display_title(file_name@) == display_title(c@.take(k as int)),
        decreases k,
    {
        proof {
            reveal_strlit(".cbz");
            assert(c@.take(k as int).take(k - 4) =~= c@.take(k - 4));
        }
        k -= 4;
    }
    proof {
        reveal_strlit(".cbz");
    }
    string_of(&crate::text::slice_of(&c, 0, k))
}

// ---------------------------------------------------------------------------
// Staging
// ---------------------------------------------------------------------------
/// Offset where the last `/`-separated segment of `p` starts.
pub open spec fn last_segment_start(p: Seq<char>) -> int {
    match crate::text::rfind(p, seq!['/']) {
        Some(i) => i + 1,
        None => 0,
    }
}

/// `p` (a path ending in its file name) with the extension of its file name
/// replaced by `ext`, or `ext` added when the name has none
/// (`Path::with_extension`).
pub open spec fn with_extension(p: Seq<char>, ext: Seq<char>) -> Seq<char> {
    let b = last_segment_start(p);
    let name = p.skip(b);
    match crate::text::rfind(name, seq!['.']) {
        Some(i) => if i > 0 {
            p.take(b + i) + seq!['.'] + ext
        } else {
            p + seq!['.'] + ext
        },
        None => p + seq!['.'] + ext,
    }
}

fn with_extension_exec(p: &[char], ext: &str) -> (r: Vec<char>)
    ensures
        r@ == with_extension(p@, ext@),
{
    let len = p.len();
    let slash = vec!['/'];
    let dot = vec!['.'];
    proof {
        assert(slash@ =~= seq!['/']);
        assert(dot@ =~= seq!['.']);
        crate::text::lemma_rfind_below(p@, slash@, p@.len() as int + 1);
    }
    let b: usize = match crate::text::rfind_exec(p, &slash) {
        Some(i) => {
            proof {
                assert(crate::text::occurs_at(p@, slash@, i as int));
            }
            i + 1
        },
        None => 0,
    };
    let name = crate::text::slice_of(p, b, len);
    proof {
        assert(name@ =~= p@.skip(b as int));
        crate::text::lemma_rfind_below(name@, dot@, name@.len() as int + 1);
    }
    let cut: usize = match crate::text::rfind_exec(&name, &dot) {
        Some(i) => {
            proof {
                assert(crate::text::occurs_at(name@, dot@, i as int));
            }
            if i > 0 {
                b + i
            } else {
                len
            }
        },
        None => len,
    };
    let mut v = crate::text::slice_of(p, 0, cut);
    v.push('.');
    push_str(&mut v, ext);
    proof {
        assert(p@.subrange(0, len as int) =~= p@);
        assert(v@ =~= with_extension(p@, ext@));
    }
    v
}

/// Where a file at `rel` in the extracted tree goes in the staged tree, and
/// whether it is an image to re-encode: images become `.webp`; ComicInfo.xml
/// is kept; other files are kept only when `keep_non_images`.
pub open spec fn stage_target(rel: Seq<char>, keep_non_images: bool) -> Option<(Seq<char>, bool)> {
    let is_comicinfo = match crate::paths::file_name_of(rel) {
        Some(f) => crate::text::lower_seq(f) == "comicinfo.xml"@,
        None => false,
    };
    if image_ext(path_ext(rel)) {
        Some((with_extension(rel, "webp"@), true))
    } else if is_comicinfo || keep_non_images {
        Some((rel, false))
    } else {
        None
    }
}

pub fn staging_target(rel: &str, keep_non_images: bool) -> (r: Option<(String, bool)>)
    ensures
        match r {
            Some((p, img)) => stage_target(rel@, keep_non_images) == Some((p@, img)),
            None => stage_target(rel@, keep_non_images) is None,
        },
{
    let rc = chars_of(rel);
    let ext = match crate::paths::file_name(&rc) {
        Some(n) => crate::paths::extension(&n),
        None => None,
    };
    let is_image = match &ext {
        Some(e) => crate::classify::is_image_ext(Some(string_of(e).as_str())),
        None => false,
    };
    if is_image {
        let v = with_extension_exec(&rc, "webp");
        return Some((string_of(&v), true));
    }
    let is_comicinfo = match crate::paths::file_name(&rc) {
        Some(f) => crate::text::eq_lit(&crate::text::lower_chars(&f), "comicinfo.xml"),
        None => false,
    };
    if is_comicinfo || keep_non_images {
        Some((rel.to_owned(), false))
    } else {
        None
    }
}

// ---------------------------------------------------------------------------
// Single-folder wrappers
// ---------------------------------------------------------------------------
/// An entry of a directory listing: its name and whether it is a directory
/// or a regular file.
#[derive(Debug, Clone)]
pub struct DirEntryInfo {
    pub name: String,
    pub is_dir: bool,
    pub is_file: bool,
}

/// Counts of regular files and of directories in a listing, macOS metadata
/// aside, and the index of the last directory seen.
pub open spec fn listing_counts(es: Seq<DirEntryInfo>) -> (nat, nat, int)
    decreases es.len(),
{
    if es.len() == 0 {
        (0, 0, -1)
    } else {
        let (f, d, last) = listing_counts(es.drop_last());
        let e = es.last();
        if crate::archive::macos_metadata(e.name@) {
            (f, d, last)
        } else if e.is_dir {
            (f, d + 1, es.len() - 1)
        } else if e.is_file {
            (f + 1, d, last)
        } else {
            (f, d, last)
        }
    }
}

/// A directory is a wrapper when, macOS metadata aside, it holds no files and
/// exactly one directory: the index of that directory.
pub open spec fn wrapper_child(es: Seq<DirEntryInfo>) -> Option<int> {
    let (f, d, last) = listing_counts(es);
    if f == 0 && d == 1 {
        Some(last)
    } else {
        None
    }
}

/// Whether to descend into a single subdirectory of a listing, and which.
pub fn wrapper_step(entries: &[DirEntryInfo]) -> (r: Option<usize>)
    ensures
        match r {
            Some(i) => wrapper_child(entries@) == Some(i as int) && i < entries@.len(),
            None => wrapper_child(entries@) is None,
        },
{
    let mut files: usize = 0;
    let mut dirs: usize = 0;
    let mut last: usize = 0;
    let mut i: usize = 0;
    while i < entries.len()
        invariant
            i <= entries@.len(),
            files <= i,
            dirs <= i,
            listing_counts(entries@.take(i as int)).0 == files,
            listing_counts(entries@.take(i as int)).1 == dirs,
            dirs > 0 ==> listing_counts(entries@.take(i as int)).2 == last as int && last < i,
        decreases entries.len() - i,
    {
        proof {
            assert(entries@.take(i + 1).drop_last() =~= entries@.take(i as int));
        }
        let e = &entries[i];
        if !crate::archive::is_macos_metadata(e.name.as_str()) {
            if e.is_dir {
                dirs += 1;
                last = i;
            } else if e.is_file {
                files += 1;
            }
        }
        i += 1;
    }
    proof {
        assert(entries@.take(entries@.len() as int) =~= entries@);
    }
    if files == 0 && dirs == 1 {
        Some(last)
    } else {
        None
    }
}

/// Errors from a nested archive that stop the whole job (safety limits,
/// unsafe paths, missing passwords); any other error only skips that archive.
pub open spec fn aborts_job(e: ConvertError) -> bool {
    e is LimitExceeded || e is UnsafePath || e is PasswordRequired
}

pub fn nested_error_aborts(e: &ConvertError) -> (r: bool)
    ensures
        r == aborts_job(*e),
{
    match e {
        ConvertError::LimitExceeded(_) | ConvertError::UnsafePath(_) | ConvertError::PasswordRequired => true,
        _ => false,
    }
}

} // verus!
