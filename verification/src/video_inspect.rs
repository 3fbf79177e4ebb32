//! Video inspection report: what the stream probe and the transcoder's
//! banner say of a video file, and the entry counts of an archive.
use vstd::prelude::*;

use crate::classify::{entry_ext, is_video_file, path_ext, video_ext, video_magic};
use crate::text::{
    char_views, chars_of, contains, contains_exec, fmt_dec, push_all, push_dec, string_of, trim,
    trim_chars,
};
use crate::video::{lines_of, text_lines};

verus! {

/// The report on a video file or an archive.
#[derive(Debug)]
pub struct VideoInspectResult {
    pub path: String,
    pub is_archive: bool,
    pub format: String,
    pub video_codec: Option<String>,
    pub audio_codec: Option<String>,
    pub resolution: Option<String>,
    pub size_bytes: u64,
    pub details: Vec<String>,
}

pub open spec fn opt_text(o: Option<String>) -> Option<Seq<char>> {
    match o {
        Some(s) => Some(s@),
        None => None,
    }
}

/// Format of a video file: the extension of its name, `video` without one.
pub open spec fn video_format(path: Seq<char>) -> Seq<char> {
    match path_ext(path) {
        Some(e) => e,
        None => "video"@,
    }
}

/// The report on the video file `path` before any probing.
pub fn video_file_result(path: &str, size_bytes: u64) -> (r: VideoInspectResult)
    ensures
        r.path@ == path@,
        !r.is_archive,
        r.format@ == video_format(path@),
        r.video_codec is None,
        r.audio_codec is None,
        r.resolution is None,
        r.size_bytes == size_bytes,
        r.details@.len() == 0,
{
    let format = match entry_ext(&path.to_owned()) {
        Some(e) => string_of(&e),
        None => "video".to_owned(),
    };
    VideoInspectResult {
        path: path.to_owned(),
        is_archive: false,
        format,
        video_codec: None,
        audio_codec: None,
        resolution: None,
        size_bytes,
        details: Vec::new(),
    }
}

/// One stream as the stream probe lists it.
pub struct StreamInfo {
    pub codec_type: Option<String>,
    pub codec_name: Option<String>,
    pub width: Option<u64>,
    pub height: Option<u64>,
}

/// Video codec, audio codec and resolution of a report.
pub type ProbeView = (Option<Seq<char>>, Option<Seq<char>>, Option<Seq<char>>);

/// `<width>x<height>`.
pub open spec fn resolution_text(w: u64, h: u64) -> Seq<char> {
    fmt_dec(w as nat) + "x"@ + fmt_dec(h as nat)
}

/// What one stream adds: the first video stream gives the video codec (and
/// the resolution when it has both dimensions), the first audio stream the
/// audio codec.
pub open spec fn probe_step(st: ProbeView, s: StreamInfo) -> ProbeView {
    if opt_text(s.codec_type) == Some("video"@) && st.0 is None {
        (
            opt_text(s.codec_name),
            st.1,
            match (s.width, s.height) {
                (Some(w), Some(h)) => Some(resolution_text(w, h)),
                _ => st.2,
            },
        )
    } else if opt_text(s.codec_type) == Some("audio"@) && st.1 is None {
        (st.0, opt_text(s.codec_name), st.2)
    } else {
        st
    }
}

pub open spec fn probe_all(st: ProbeView, ss: Seq<StreamInfo>) -> ProbeView
    decreases ss.len(),
{
    if ss.len() == 0 {
        st
    } else {
        probe_step(probe_all(st, ss.drop_last()), ss.last())
    }
}

pub open spec fn probe_view(r: VideoInspectResult) -> ProbeView {
    (opt_text(r.video_codec), opt_text(r.audio_codec), opt_text(r.resolution))
}

fn copy_text(o: &Option<String>) -> (r: Option<String>)
    ensures
        opt_text(r) == opt_text(*o),
{
    match o {
        Some(s) => Some(s.clone()),
        None => None,
    }
}

fn is_some_text(o: &Option<String>, lit: &str) -> (r: bool)
    ensures
        r == (opt_text(*o) == Some(lit@)),
{
    match o {
        Some(s) => crate::text::str_eq_lit(s.as_str(), lit),
        None => false,
    }
}

/// Takes the codecs and resolution from the probed streams.
pub fn apply_streams(res: &mut VideoInspectResult, streams: &[StreamInfo])
    ensures
        probe_view(*final(res)) == probe_all(probe_view(*old(res)), streams@),
        final(res).path == old(res).path,
        final(res).is_archive == old(res).is_archive,
        final(res).format == old(res).format,
        final(res).size_bytes == old(res).size_bytes,
        final(res).details == old(res).details,
{
    let ghost start = probe_view(*res);
    let mut i: usize = 0;
    proof {
        assert(streams@.take(0) =~= Seq::<StreamInfo>::empty());
    }
    while i < streams.len()
        invariant
            i <= streams@.len(),
            probe_view(*res) == probe_all(start, streams@.take(i as int)),
            res.path == old(res).path,
            res.is_archive == old(res).is_archive,
            res.format == old(res).format,
            res.size_bytes == old(res).size_bytes,
            res.details == old(res).details,
        decreases streams.len() - i,
    {
        let s = &streams[i];
        proof {
            assert(streams@.take(i + 1).drop_last() =~= streams@.take(i as int));
            assert(streams@.take(i + 1).last() == streams@[i as int]);
        }
        if is_some_text(&s.codec_type, "video") && res.video_codec.is_none() {
            res.video_codec = copy_text(&s.codec_name);
            match (s.width, s.height) {
                (Some(w), Some(h)) => {
                    let mut v: Vec<char> = Vec::new();
                    push_dec(&mut v, w);
                    push_all(&mut v, &chars_of("x"));
                    push_dec(&mut v, h);
                    res.resolution = Some(string_of(&v));
                },
                _ => {},
            }
        } else if is_some_text(&s.codec_type, "audio") && res.audio_codec.is_none() {
            res.audio_codec = copy_text(&s.codec_name);
        }
        i += 1;
    }
    proof {
        assert(streams@.take(streams@.len() as int) =~= streams@);
    }
}

/// Lines of the transcoder's banner kept as details: those naming a video
/// stream while the video codec is unknown, or an audio stream while the
/// audio codec is unknown, trimmed.
pub open spec fn banner_details(lines: Seq<Seq<char>>, video_known: bool, audio_known: bool) -> Seq<
    Seq<char>,
>
    decreases lines.len(),
{
    if lines.len() == 0 {
        Seq::empty()
    } else {
        let l = lines.last();
        banner_details(lines.drop_last(), video_known, audio_known) + if (contains(l, "Video:"@)
            && !video_known) || (contains(l, "Audio:"@) && !audio_known) {
            seq![trim(l)]
        } else {
            Seq::empty()
        }
    }
}

/// Adds the stream lines of the transcoder's banner (`stderr`) to the
/// details.
pub fn apply_banner(res: &mut VideoInspectResult, stderr: &str)
    ensures
        crate::text::str_views(final(res).details@) == crate::text::str_views(old(res).details@)
            + banner_details(lines_of(stderr@), old(res).video_codec is Some, old(res).audio_codec is Some),
        probe_view(*final(res)) == probe_view(*old(res)),
        final(res).path == old(res).path,
        final(res).is_archive == old(res).is_archive,
        final(res).format == old(res).format,
        final(res).size_bytes == old(res).size_bytes,
{
    let lines = text_lines(stderr);
    let ghost ls = lines_of(stderr@);
    let ghost start = crate::text::str_views(res.details@);
    let video_known = res.video_codec.is_some();
    let audio_known = res.audio_codec.is_some();
    let mut i: usize = 0;
    proof {
        assert(ls.take(0) =~= Seq::<Seq<char>>::empty());
        assert(crate::text::str_views(res.details@) =~= start + banner_details(ls.take(0), video_known, audio_known));
    }
    while i < lines.len()
        invariant
            char_views(lines@) == ls,
            i <= ls.len(),
            video_known == old(res).video_codec is Some,
            audio_known == old(res).audio_codec is Some,
            crate::text::str_views(res.details@) == start + banner_details(ls.take(i as int), video_known, audio_known),
            probe_view(*res) == probe_view(*old(res)),
            res.path == old(res).path,
            res.is_archive == old(res).is_archive,
            res.format == old(res).format,
            res.size_bytes == old(res).size_bytes,
        decreases lines.len() - i,
    {
        let l = &lines[i];
        proof {
            assert(ls.take(i + 1).drop_last() =~= ls.take(i as int));
            assert(ls.take(i + 1).last() == l@);
        }
        if (contains_exec(l, &chars_of("Video:")) && !video_known) || (contains_exec(l, &chars_of("Audio:"))
            && !audio_known) {
            let t = string_of(&trim_chars(l));
            let ghost before = res.details@;
            res.details.push(t);
            proof {
                assert(crate::text::str_views(res.details@) =~= crate::text::str_views(before).push(t@));
            }
        }
        proof {
            assert(crate::text::str_views(res.details@) =~= start + banner_details(ls.take(i + 1), video_known, audio_known));
        }
        i += 1;
    }
    proof {
        assert(ls.take(ls.len() as int) =~= ls);
    }
}

/// A file named in an archive listing, with its first bytes when a file of
/// that name could be read.
pub struct ListedFile {
    pub name: String,
    pub head: Option<Vec<u8>>,
}

/// A listed file is a video by its name's extension or its first bytes.
pub open spec fn listed_video(f: ListedFile) -> bool {
    video_ext(path_ext(f.name@)) || match f.head {
        Some(h) => video_magic(h@),
        None => false,
    }
}

pub open spec fn video_entries(fs: Seq<ListedFile>) -> nat
    decreases fs.len(),
{
    if fs.len() == 0 {
        0
    } else {
        video_entries(fs.drop_last()) + if listed_video(fs.last()) {
            1nat
        } else {
            0nat
        }
    }
}

/// `Total entries: <n>, video entries: <m>`.
pub open spec fn archive_summary(n: nat, m: nat) -> Seq<char> {
    "Total entries: "@ + fmt_dec(n) + ", video entries: "@ + fmt_dec(m)
}

/// `cannot open <path> as an archive`.
pub open spec fn open_error(path: Seq<char>) -> Seq<char> {
    "cannot open "@ + path + " as an archive"@
}

proof fn lemma_video_entries_le(fs: Seq<ListedFile>)
    ensures
        video_entries(fs) <= fs.len(),
    decreases fs.len(),
{
    if fs.len() > 0 {
        lemma_video_entries_le(fs.drop_last());
    }
}

/// The report on the archive at `path` of `size_bytes` bytes, from the files
/// listed in it (`None` when it could not be opened as an archive).
pub fn archive_report(path: &str, size_bytes: u64, listing: Option<Vec<ListedFile>>) -> (r: Result<
    VideoInspectResult,
    String,
>)
    ensures
        match listing {
            None => r matches Err(m) && m@ == open_error(path@),
            Some(fs) => r matches Ok(res) && {
                &&& res.path@ == path@
                &&& res.is_archive
                &&& res.format@ == "archive"@
                &&& res.video_codec is None
                &&& res.audio_codec is None
                &&& res.resolution is None
                &&& res.size_bytes == size_bytes
                &&& crate::text::str_views(res.details@) == seq![
                    archive_summary(fs@.len(), video_entries(fs@)),
                ]
            },
        },
{
    let fs = match listing {
        None => {
            let mut v = chars_of("cannot open ");
            push_all(&mut v, &chars_of(path));
            push_all(&mut v, &chars_of(" as an archive"));
            return Err(string_of(&v));
        },
        Some(fs) => fs,
    };
    let mut videos: usize = 0;
    let mut i: usize = 0;
    while i < fs.len()
        invariant
            i <= fs@.len(),
            videos == video_entries(fs@.take(i as int)),
        decreases fs.len() - i,
    {
        let f = &fs[i];
        proof {
            assert(fs@.take(i + 1).drop_last() =~= fs@.take(i as int));
            assert(fs@.take(i + 1).last() == fs@[i as int]);
            lemma_video_entries_le(fs@.take(i as int));
        }
        let ext = entry_ext(&f.name);
        let ext_s = match ext {
            Some(e) => Some(string_of(&e)),
            None => None,
        };
        let is_video = match (&ext_s, &f.head) {
            (Some(e), Some(h)) => is_video_file(Some(e.as_str()), Some(h.as_slice())),
            (Some(e), None) => is_video_file(Some(e.as_str()), None),
            (None, Some(h)) => is_video_file(None, Some(h.as_slice())),
            (None, None) => is_video_file(None, None),
        };
        if is_video {
            videos += 1;
        }
        i += 1;
    }
    proof {
        assert(fs@.take(fs@.len() as int) =~= fs@);
    }
    let mut v = chars_of("Total entries: ");
    push_dec(&mut v, fs.len() as u64);
    push_all(&mut v, &chars_of(", video entries: "));
    push_dec(&mut v, videos as u64);
    let summary = string_of(&v);
    let details = vec![summary];
    proof {
        assert(crate::text::str_views(details@) =~= seq![archive_summary(fs@.len(), video_entries(fs@))]);
    }
    Ok(
        VideoInspectResult {
            path: path.to_owned(),
            is_archive: true,
            format: "archive".to_owned(),
            video_codec: None,
            audio_codec: None,
            resolution: None,
            size_bytes,
            details,
        },
    )
}

} // verus!
