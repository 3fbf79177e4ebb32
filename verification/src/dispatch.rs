//! What each plugin does with an input once it is classified, and when an
//! original may be deleted: the manga plugin converts manga, leaves videos to
//! the video plugin and moves unknown files aside; the video plugin converts
//! videos and leaves everything else where it is.
use vstd::prelude::*;

use crate::classify::Kind;
use crate::convert::ConvertResult;
use crate::error::Reason;
use crate::paths::{file_name, file_name_of, join_path};
use crate::text::{chars_of, push_all, string_of};

verus! {

/// Next step of the manga plugin for a classified input.
#[derive(Debug, Clone)]
pub enum MangaStep {
    /// Convert the archive.
    Convert,
    /// Leave it: report this result.
    Report(ConvertResult),
    /// Move it into the unknown directory, to this planned path.
    MoveUnknown(String),
}

/// Result for a video handed to the manga plugin: skipped, never deleted.
pub open spec fn is_video_skip(r: ConvertResult) -> bool {
    &&& r.status@ == "skipped"@
    &&& r.reason == Some(Reason::UnsupportedFileType)
    &&& r.output is None
    &&& r.outputs@.len() == 0
    &&& r.pages is None
    &&& r.videos is None
    &&& r.error matches Some(e) && e@ == "Video transcoding handled by mop.video plugin"@
}

/// Where an unknown input is planned to go: its file name in `unknown_dir`.
pub open spec fn unknown_target(unknown_dir: Seq<char>, input: Seq<char>) -> Seq<char> {
    join_path(
        unknown_dir,
        match file_name_of(input) {
            Some(f) => f,
            None => Seq::empty(),
        },
    )
}

/// The manga plugin's step for an input of kind `kind`.
pub fn process(kind: Kind, input: &str, unknown_dir: &str) -> (r: MangaStep)
    ensures
        match kind {
            Kind::Manga => r is Convert,
            Kind::Video => r matches MangaStep::Report(res) && is_video_skip(res),
            Kind::Unknown => r matches MangaStep::MoveUnknown(p) && p@ == unknown_target(
                unknown_dir@,
                input@,
            ),
        },
{
    match kind {
        Kind::Manga => MangaStep::Convert,
        Kind::Video => MangaStep::Report(
            ConvertResult {
                status: "skipped",
                reason: Some(Reason::UnsupportedFileType),
                output: None,
                outputs: Vec::new(),
                pages: None,
                videos: None,
                error: Some("Video transcoding handled by mop.video plugin".to_owned()),
            },
        ),
        Kind::Unknown => {
            let ic = chars_of(input);
            let name = match file_name(&ic) {
                Some(f) => f,
                None => Vec::new(),
            };
            let dc = chars_of(unknown_dir);
            let mut v = crate::text::slice_of(&dc, 0, dc.len());
            if dc.len() > 0 && dc[dc.len() - 1] != '/' {
                v.push('/');
            }
            push_all(&mut v, &name);
            proof {
                assert(dc@.subrange(0, dc@.len() as int) =~= dc@);
                assert(v@ =~= unknown_target(unknown_dir@, input@));
            }
            MangaStep::MoveUnknown(string_of(&v))
        },
    }
}

/// An original is deleted only when deletion is enabled, the input was a
/// manga archive, and its job succeeded or found its output already there.
pub open spec fn deletes_original(enabled: bool, kind: Kind, r: ConvertResult) -> bool {
    enabled && kind == Kind::Manga && (r.status@ == "success"@ || (r.status@ == "skipped"@
        && r.reason == Some(Reason::OutputExists)))
}

pub fn should_delete_original(delete_original: bool, kind: Kind, res: &ConvertResult) -> (r: bool)
    ensures
        r == deletes_original(delete_original, kind, *res),
{
    if !delete_original {
        return false;
    }
    match kind {
        Kind::Manga => {},
        _ => {
            return false;
        },
    }
    let success = crate::text::str_eq_lit(res.status, "success");
    let skipped = crate::text::str_eq_lit(res.status, "skipped");
    let exists = match res.reason {
        Some(Reason::OutputExists) => true,
        _ => false,
    };
    success || (skipped && exists)
}

/// Videos and unknown files are never deleted by the manga plugin.
pub proof fn lemma_only_manga_originals_deleted(enabled: bool, kind: Kind, r: ConvertResult)
    requires
        kind != Kind::Manga,
    ensures
        !deletes_original(enabled, kind, r),
{
}

/// A failed job never deletes its original.
pub proof fn lemma_failed_job_keeps_original(enabled: bool, kind: Kind, r: ConvertResult)
    requires
        r.status@ == "failed"@,
    ensures
        !deletes_original(enabled, kind, r),
{
    reveal_strlit("failed");
    reveal_strlit("success");
    reveal_strlit("skipped");
    assert(r.status@[1] == 'a');
}

/// Result of moving an unknown input: planned only (dry run), failure to
/// create the unknown directory, or the move's outcome (target or error).
pub open spec fn unknown_move_result(
    planned: Seq<char>,
    dry_run: bool,
    create_error: Option<Seq<char>>,
    moved: Result<Seq<char>, Seq<char>>,
) -> (Seq<char>, Option<Reason>, Option<Seq<char>>, Option<Seq<char>>) {
    if dry_run {
        ("success"@, None, Some(planned), None)
    } else if let Some(e) = create_error {
        ("failed"@, Some(Reason::ConvertError), None, Some("create unknown_dir: "@ + e))
    } else {
        match moved {
            Ok(t) => ("success"@, None, Some(t), None),
            Err(e) => ("failed"@, Some(Reason::ConvertError), None, Some("move to unknown_dir: "@ + e)),
        }
    }
}

fn prefixed(p: &str, m: &String) -> (r: String)
    ensures
        r@ == p@ + m@,
{
    let mut v = chars_of(p);
    push_all(&mut v, &chars_of(m.as_str()));
    string_of(&v)
}

/// Reports moving an unknown input aside.
pub fn unknown_result(
    planned: String,
    dry_run: bool,
    create_error: Option<String>,
    moved: Result<String, String>,
) -> (r: ConvertResult)
    ensures
        (
            r.status@,
            r.reason,
            match r.output {
                Some(o) => Some(o@),
                None => None,
            },
            match r.error {
                Some(e) => Some(e@),
                None => None,
            },
        ) == unknown_move_result(
            planned@,
            dry_run,
            match create_error {
                Some(e) => Some(e@),
                None => None,
            },
            match moved {
                Ok(t) => Ok(t@),
                Err(e) => Err(e@),
            },
        ),
        r.outputs@.len() == 0,
        r.pages is None,
        r.videos is None,
{
    if dry_run {
        return ConvertResult {
            status: "success",
            reason: None,
            output: Some(planned),
            outputs: Vec::new(),
            pages: None,
            videos: None,
            error: None,
        };
    }
    if let Some(e) = create_error {
        return ConvertResult {
            status: "failed",
            reason: Some(Reason::ConvertError),
            output: None,
            outputs: Vec::new(),
            pages: None,
            videos: None,
            error: Some(prefixed("create unknown_dir: ", &e)),
        };
    }
    match moved {
        Ok(t) => ConvertResult {
            status: "success",
            reason: None,
            output: Some(t),
            outputs: Vec::new(),
            pages: None,
            videos: None,
            error: None,
        },
        Err(e) => ConvertResult {
            status: "failed",
            reason: Some(Reason::ConvertError),
            output: None,
            outputs: Vec::new(),
            pages: None,
            videos: None,
            error: Some(prefixed("move to unknown_dir: ", &e)),
        },
    }
}

} // verus!
