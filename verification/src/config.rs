//! Runtime configuration of the manga and video plugins and the layout rule
//! they share: no output directory may lie inside a watched directory, or
//! the other way round, lest converted files be picked up again.
use vstd::prelude::*;

use crate::archive::ExtractLimits;
use crate::paths::{comps_prefix, lexiclean, lexicleaned, path_comps};
use crate::text::{chars_of, fmt_dec, push_all, str_views, string_of};

verus! {

/// `home` joined with `rel`.
pub open spec fn home_join(home: Seq<char>, rel: Seq<char>) -> Seq<char> {
    crate::paths::join_path(home, rel)
}

fn home_join_exec(home: &str, rel: &str) -> (r: String)
    ensures
        r@ == home_join(home@, rel@),
{
    let h = chars_of(home);
    let mut v = crate::text::slice_of(&h, 0, h.len());
    if h.len() > 0 && h[h.len() - 1] != '/' {
        v.push('/');
    }
    push_all(&mut v, &chars_of(rel));
    proof {
        assert(h@.subrange(0, h@.len() as int) =~= h@);
        assert(v@ =~= home_join(home@, rel@));
    }
    string_of(&v)
}

/// Manga inbox under the home directory `home`.
pub fn default_watch_dir(home: &str) -> (r: String)
    ensures
        r@ == home_join(home@, "manga"@),
{
    home_join_exec(home, "manga")
}

/// Where converted manga go.
pub fn default_output_dir(home: &str) -> (r: String)
    ensures
        r@ == home_join(home@, "manga-cbz"@),
{
    home_join_exec(home, "manga-cbz")
}

/// Where unrecognised inputs go.
pub fn default_unknown_dir(home: &str) -> (r: String)
    ensures
        r@ == home_join(home@, "manga-unknown"@),
{
    home_join_exec(home, "manga-unknown")
}

/// Scratch space of the manga plugin.
pub fn default_work_dir(home: &str) -> (r: String)
    ensures
        r@ == home_join(home@, ".cache/manga2cbz"@),
{
    home_join_exec(home, ".cache/manga2cbz")
}

/// Video inbox under the home directory `home`.
pub fn default_video_watch_dir(home: &str) -> (r: String)
    ensures
        r@ == home_join(home@, "video"@),
{
    home_join_exec(home, "video")
}

/// Where transcoded videos go.
pub fn default_video_dir(home: &str) -> (r: String)
    ensures
        r@ == home_join(home@, "video-mp4"@),
{
    home_join_exec(home, "video-mp4")
}

/// Scratch space of the video plugin.
pub fn default_video_work_dir(home: &str) -> (r: String)
    ensures
        r@ == home_join(home@, ".cache/mop-video"@),
{
    home_join_exec(home, ".cache/mop-video")
}

// ---------------------------------------------------------------------------
// The layout rule
// ---------------------------------------------------------------------------
/// Path `a` lies at or below path `b` (component-wise, after cleaning both).
pub open spec fn inside(a: Seq<char>, b: Seq<char>) -> bool {
    comps_prefix(path_comps(a), path_comps(b))
}

fn inside_exec(a: &str, b: &str) -> (r: bool)
    ensures
        r == inside(a@, b@),
{
    let ac = crate::paths::components(&chars_of(a));
    let bc = crate::paths::components(&chars_of(b));
    crate::paths::comps_prefix_exec(&ac, &bc)
}

/// `directory (<o>) is inside watch dir (<w>); refusing ...`
pub open spec fn msg_out_in_watch(o: Seq<char>, w: Seq<char>) -> Seq<char> {
    "directory ("@ + o + ") is inside watch dir ("@ + w + "); refusing to avoid a reprocessing loop"@
}

/// `watch dir (<w>) is inside directory (<o>); refusing ...`
pub open spec fn msg_watch_in_out(w: Seq<char>, o: Seq<char>) -> Seq<char> {
    "watch dir ("@ + w + ") is inside directory ("@ + o + "); refusing to avoid a reprocessing loop"@
}

/// First overlap of the (normalized) directory `o` with one of the
/// (normalized) watched directories `ws`, as the error text.
pub open spec fn watch_overlap(o: Seq<char>, ws: Seq<Seq<char>>) -> Option<Seq<char>>
    decreases ws.len(),
{
    if ws.len() == 0 {
        None
    } else {
        let w = ws[0];
        if inside(o, w) {
            Some(msg_out_in_watch(o, w))
        } else if inside(w, o) {
            Some(msg_watch_in_out(w, o))
        } else {
            watch_overlap(o, ws.drop_first())
        }
    }
}

/// First overlap of one of the (normalized) directories `outs` with a
/// (normalized) watched directory.
pub open spec fn outs_overlap(outs: Seq<Seq<char>>, ws: Seq<Seq<char>>) -> Option<Seq<char>>
    decreases outs.len(),
{
    if outs.len() == 0 {
        None
    } else {
        match watch_overlap(outs[0], ws) {
            Some(m) => Some(m),
            None => outs_overlap(outs.drop_first(), ws),
        }
    }
}

fn watch_overlap_exec(o: &str, ws: &Vec<String>) -> (r: Option<String>)
    ensures
        match r {
            Some(m) => watch_overlap(o@, str_views(ws@)) == Some(m@),
            None => watch_overlap(o@, str_views(ws@)) is None,
        },
{
    let ghost wv = str_views(ws@);
    let mut i: usize = 0;
    proof {
        assert(wv.skip(0) =~= wv);
    }
    while i < ws.len()
        invariant
            i <= ws@.len(),
            wv == str_views(ws@),
            watch_overlap(o@, wv) == watch_overlap(o@, wv.skip(i as int)),
        decreases ws.len() - i,
    {
        proof {
            assert(wv.skip(i as int)[0] == ws@[i as int]@);
            assert(wv.skip(i as int).drop_first() =~= wv.skip(i + 1));
        }
        let w = &ws[i];
        if inside_exec(o, w.as_str()) {
            let m = concat_text(&["directory (", o, ") is inside watch dir (", w.as_str(), "); refusing to avoid a reprocessing loop"]);
            proof {
                reveal_with_fuel(crate::text::concat_all, 6);
                assert(m@ =~= msg_out_in_watch(o@, w@));
            }
            return Some(m);
        }
        if inside_exec(w.as_str(), o) {
            let m = concat_text(&["watch dir (", w.as_str(), ") is inside directory (", o, "); refusing to avoid a reprocessing loop"]);
            proof {
                reveal_with_fuel(crate::text::concat_all, 6);
                assert(m@ =~= msg_watch_in_out(w@, o@));
            }
            return Some(m);
        }
        i += 1;
    }
    None
}

fn outs_overlap_exec(outs: &Vec<String>, ws: &Vec<String>) -> (r: Option<String>)
    ensures
        match r {
            Some(m) => outs_overlap(str_views(outs@), str_views(ws@)) == Some(m@),
            None => outs_overlap(str_views(outs@), str_views(ws@)) is None,
        },
{
    let ghost ov = str_views(outs@);
    let mut i: usize = 0;
    proof {
        assert(ov.skip(0) =~= ov);
    }
    while i < outs.len()
        invariant
            i <= outs@.len(),
            ov == str_views(outs@),
            outs_overlap(ov, str_views(ws@)) == outs_overlap(ov.skip(i as int), str_views(ws@)),
        decreases outs.len() - i,
    {
        proof {
            assert(ov.skip(i as int)[0] == outs@[i as int]@);
            assert(ov.skip(i as int).drop_first() =~= ov.skip(i + 1));
        }
        let o = &outs[i];
        if let Some(m) = watch_overlap_exec(o.as_str(), ws) {
            return Some(m);
        }
        i += 1;
    }
    None
}

fn concat_text(parts: &[&str]) -> (r: String)
    ensures
        r@ == crate::text::concat_all(Seq::new(parts@.len(), |i: int| parts@[i]@)),
{
    let ghost pv = Seq::new(parts@.len(), |i: int| parts@[i]@);
    let mut v: Vec<char> = Vec::new();
    let mut i: usize = 0;
    while i < parts.len()
        invariant
            i <= parts@.len(),
            pv == Seq::new(parts@.len(), |i: int| parts@[i]@),
            v@ == crate::text::concat_all(pv.take(i as int)),
        decreases parts.len() - i,
    {
        push_all(&mut v, &chars_of(parts[i]));
        proof {
            assert(pv.take(i + 1).drop_last() =~= pv.take(i as int));
        }
        i += 1;
    }
    proof {
        assert(pv.take(parts@.len() as int) =~= pv);
    }
    string_of(&v)
}

/// Two (cleaned) directories overlap when either lies inside the other.
pub open spec fn overlap(a: Seq<char>, b: Seq<char>) -> bool {
    inside(a, b) || inside(b, a)
}

/// `<a_name> (<a>) and <b_name> (<b>) must not overlap`.
pub open spec fn msg_pair(a_name: Seq<char>, a: Seq<char>, b_name: Seq<char>, b: Seq<char>) -> Seq<
    char,
> {
    a_name + " ("@ + a + ") and "@ + b_name + " ("@ + b + ") must not overlap"@
}

/// `format!("{}", q)` for an `i32`.
pub open spec fn fmt_i32(q: i32) -> Seq<char> {
    if q < 0 {
        seq!['-'] + fmt_dec((-(q as int)) as nat)
    } else {
        fmt_dec(q as nat)
    }
}

pub(crate) fn push_i32(out: &mut Vec<char>, q: i32)
    ensures
        final(out)@ == old(out)@ + fmt_i32(q),
{
    if q < 0 {
        out.push('-');
        let m: u64 = (-(q as i64)) as u64;
        crate::text::push_dec(out, m);
        proof {
            assert(old(out)@ + fmt_i32(q) =~= old(out)@.push('-') + fmt_dec(m as nat));
        }
    } else {
        crate::text::push_dec(out, q as u64);
    }
}

/// A directory in the form the layout rule compares: its canonical form
/// where one is given (for a path that exists), else its lexically cleaned
/// form.
pub open spec fn normed(p: Seq<char>, canon: Option<Seq<char>>) -> Seq<char> {
    match canon {
        Some(c) => c,
        None => lexicleaned(p),
    }
}

/// Each of `ps` in normalized form, with `canon[i]` the canonical form given
/// for `ps[i]` (none for an index past the end of `canon`).
pub open spec fn normed_all(ps: Seq<Seq<char>>, canon: Seq<Option<Seq<char>>>) -> Seq<Seq<char>> {
    Seq::new(
        ps.len(),
        |i: int|
            normed(
                ps[i],
                if i < canon.len() {
                    canon[i]
                } else {
                    None
                },
            ),
    )
}

pub open spec fn canon_view(o: Option<String>) -> Option<Seq<char>> {
    match o {
        Some(s) => Some(s@),
        None => None,
    }
}

pub open spec fn canon_views(v: Seq<Option<String>>) -> Seq<Option<Seq<char>>> {
    Seq::new(v.len(), |i: int| canon_view(v[i]))
}

fn normalize_all(ps: &Vec<String>, canon: &Vec<Option<String>>) -> (r: Vec<String>)
    ensures
        str_views(r@) == normed_all(str_views(ps@), canon_views(canon@)),
{
    let ghost want = normed_all(str_views(ps@), canon_views(canon@));
    let mut r: Vec<String> = Vec::new();
    let mut i: usize = 0;
    while i < ps.len()
        invariant
            i <= ps@.len(),
            want == normed_all(str_views(ps@), canon_views(canon@)),
            str_views(r@) == want.take(i as int),
        decreases ps.len() - i,
    {
        let c = if i < canon.len() {
            canon[i].clone()
        } else {
            None
        };
        let n = crate::paths::normalize(ps[i].as_str(), c);
        proof {
            crate::text::lemma_str_views_push(r@, n);
            assert(want.take(i + 1) =~= want.take(i as int).push(n@));
        }
        r.push(n);
        i += 1;
    }
    proof {
        assert(want.take(ps@.len() as int) =~= want);
    }
    r
}

// ---------------------------------------------------------------------------
// Manga plugin
// ---------------------------------------------------------------------------
/// Runtime configuration of the manga plugin.
#[derive(Debug, Clone)]
pub struct MangaConfig {
    pub watch_dirs: Vec<String>,
    pub output_dir: String,
    pub unknown_dir: String,
    pub work_dir: String,
    pub workers: usize,
    pub webp_quality: i32,
    pub lossless: bool,
    pub keep_non_images: bool,
    pub remove_macos_metadata: bool,
    pub overwrite: bool,
    pub images_only: bool,
    pub dry_run: bool,
    pub manga_image_threshold: usize,
    pub delete_original: bool,
    pub series_subdir: bool,
    pub split_volumes: bool,
    pub dedupe_volumes: bool,
    pub max_nested_extract_depth: usize,
    pub max_input_size_gib: u64,
    pub max_extracted_size_gib: u64,
    pub max_file_count: usize,
    pub reject_symlinks: bool,
    pub scan_on_start: bool,
}

/// What the manga layout check reports, given the canonical forms known for
/// the watched (`wc`), output, unknown and work directories: the first
/// problem found, if any.
pub open spec fn manga_layout_error_canon(
    c: MangaConfig,
    wc: Seq<Option<Seq<char>>>,
    oc: Option<Seq<char>>,
    uc: Option<Seq<char>>,
    kc: Option<Seq<char>>,
) -> Option<Seq<char>> {
    let ws = normed_all(str_views(c.watch_dirs@), wc);
    let out = normed(c.output_dir@, oc);
    let unk = normed(c.unknown_dir@, uc);
    let wrk = normed(c.work_dir@, kc);
    if ws.len() == 0 {
        Some("At least one watch_dir must be configured"@)
    } else if c.webp_quality < 1 || c.webp_quality > 100 {
        Some("webp_quality must be between 1 and 100, got "@ + fmt_i32(c.webp_quality))
    } else if c.workers == 0 {
        Some("workers must be at least 1"@)
    } else if outs_overlap(seq![out, unk, wrk], ws) is Some {
        outs_overlap(seq![out, unk, wrk], ws)
    } else if overlap(out, unk) {
        Some(msg_pair("output_dir"@, out, "unknown_dir"@, unk))
    } else {
        None
    }
}

/// What the manga layout check reports when every directory is compared in
/// its lexically cleaned form.
pub open spec fn manga_layout_error(c: MangaConfig) -> Option<Seq<char>> {
    manga_layout_error_canon(c, Seq::empty(), None, None, None)
}

impl MangaConfig {
    /// The defaults, with directories under the home directory `home`.
    pub fn default_for_home(home: &str) -> (r: Self)
        ensures
            str_views(r.watch_dirs@) == seq![home_join(home@, "manga"@)],
            r.output_dir@ == home_join(home@, "manga-cbz"@),
            r.unknown_dir@ == home_join(home@, "manga-unknown"@),
            r.work_dir@ == home_join(home@, ".cache/manga2cbz"@),
            r.workers == 2,
            r.webp_quality == 92,
            !r.lossless,
            r.keep_non_images,
            r.remove_macos_metadata,
            !r.overwrite,
            !r.images_only,
            !r.dry_run,
            r.manga_image_threshold == 5,
            !r.delete_original,
            r.series_subdir,
            r.split_volumes,
            r.dedupe_volumes,
            r.max_nested_extract_depth == 3,
            r.max_input_size_gib == 20,
            r.max_extracted_size_gib == 100,
            r.max_file_count == 100000,
            r.reject_symlinks,
            r.scan_on_start,
    {
        let w = default_watch_dir(home);
        let watch_dirs = vec![w];
        proof {
            assert(str_views(watch_dirs@) =~= seq![home_join(home@, "manga"@)]);
        }
        MangaConfig {
            watch_dirs,
            output_dir: default_output_dir(home),
            unknown_dir: default_unknown_dir(home),
            work_dir: default_work_dir(home),
            workers: 2,
            webp_quality: 92,
            lossless: false,
            keep_non_images: true,
            remove_macos_metadata: true,
            overwrite: false,
            images_only: false,
            dry_run: false,
            manga_image_threshold: 5,
            delete_original: false,
            series_subdir: true,
            split_volumes: true,
            dedupe_volumes: true,
            max_nested_extract_depth: 3,
            max_input_size_gib: 20,
            max_extracted_size_gib: 100,
            max_file_count: 100_000,
            reject_symlinks: true,
            scan_on_start: true,
        }
    }

    pub fn as_extract_limits(&self) -> (r: ExtractLimits)
        ensures
            r.max_extracted_size_gib == self.max_extracted_size_gib,
            r.max_file_count == self.max_file_count,
            r.reject_symlinks == self.reject_symlinks,
            r.remove_macos_metadata == self.remove_macos_metadata,
    {
        ExtractLimits {
            max_extracted_size_gib: self.max_extracted_size_gib,
            max_file_count: self.max_file_count,
            reject_symlinks: self.reject_symlinks,
            remove_macos_metadata: self.remove_macos_metadata,
        }
    }

    /// Checks the directory layout and basic settings: at least one watched
    /// directory, a quality in 1..=100, at least one worker, no output,
    /// unknown or work directory overlapping a watched directory, and output
    /// and unknown directories apart.  Directories are compared in their
    /// lexically cleaned form; `validate_layout_canonical` takes the canonical
    /// forms of the paths that exist.
    pub fn validate_layout(&self) -> (r: Result<(), String>)
        ensures
            match r {
                Ok(()) => manga_layout_error(*self) is None,
                Err(m) => manga_layout_error(*self) == Some(m@),
            },
    {
        let none: Vec<Option<String>> = Vec::new();
        proof {
            assert(canon_views(none@) =~= Seq::<Option<Seq<char>>>::empty());
        }
        self.validate_layout_canonical(&none, None, None, None)
    }

    /// The layout check with the canonical forms known for the directories:
    /// `watch[i]` for the i-th watched directory, and one each for the output,
    /// unknown and work directories (`None` where the path does not exist,
    /// which is then compared in its lexically cleaned form).
    pub fn validate_layout_canonical(
        &self,
        watch: &Vec<Option<String>>,
        output: Option<String>,
        unknown: Option<String>,
        work: Option<String>,
    ) -> (r: Result<(), String>)
        ensures
            ({
                let e = manga_layout_error_canon(
                    *self,
                    canon_views(watch@),
                    canon_view(output),
                    canon_view(unknown),
                    canon_view(work),
                );
                match r {
                    Ok(()) => e is None,
                    Err(m) => e == Some(m@),
                }
            }),
    {
        if self.watch_dirs.len() == 0 {
            return Err("At least one watch_dir must be configured".to_owned());
        }
        if self.webp_quality < 1 || self.webp_quality > 100 {
            let mut m = chars_of("webp_quality must be between 1 and 100, got ");
            push_i32(&mut m, self.webp_quality);
            return Err(string_of(&m));
        }
        if self.workers == 0 {
            return Err("workers must be at least 1".to_owned());
        }
        let ws = normalize_all(&self.watch_dirs, watch);
        let out = crate::paths::normalize(self.output_dir.as_str(), output);
        let unk = crate::paths::normalize(self.unknown_dir.as_str(), unknown);
        let wrk = crate::paths::normalize(self.work_dir.as_str(), work);
        let outs = vec![out.clone(), unk.clone(), wrk];
        proof {
            assert(str_views(outs@) =~= seq![out@, unk@, outs@[2]@]);
        }
        if let Some(m) = outs_overlap_exec(&outs, &ws) {
            return Err(m);
        }
        if inside_exec(out.as_str(), unk.as_str()) || inside_exec(unk.as_str(), out.as_str()) {
            let m = concat_text(&["output_dir", " (", out.as_str(), ") and ", "unknown_dir", " (", unk.as_str(), ") must not overlap"]);
            proof {
                reveal_with_fuel(crate::text::concat_all, 9);
                assert(m@ =~= msg_pair("output_dir"@, out@, "unknown_dir"@, unk@));
            }
            return Err(m);
        }
        Ok(())
    }
}

// ---------------------------------------------------------------------------
// Video plugin
// ---------------------------------------------------------------------------
/// Runtime configuration of the video plugin.
#[derive(Debug, Clone)]
pub struct VideoConfig {
    pub watch_dirs: Vec<String>,
    pub video_dir: String,
    pub work_dir: String,
    pub workers: usize,
    pub preset: String,
    pub crf: u32,
    pub delete_original: bool,
    pub overwrite: bool,
    pub scan_on_start: bool,
}

/// What the video layout check reports, given the canonical forms known for
/// the watched (`wc`), video and work directories: the first problem found,
/// if any.
pub open spec fn video_layout_error_canon(
    c: VideoConfig,
    wc: Seq<Option<Seq<char>>>,
    vc: Option<Seq<char>>,
    kc: Option<Seq<char>>,
) -> Option<Seq<char>> {
    let ws = normed_all(str_views(c.watch_dirs@), wc);
    let vid = normed(c.video_dir@, vc);
    let wrk = normed(c.work_dir@, kc);
    if ws.len() == 0 {
        Some("At least one watch_dir must be configured"@)
    } else if c.workers == 0 {
        Some("workers must be at least 1"@)
    } else if outs_overlap(seq![vid, wrk], ws) is Some {
        outs_overlap(seq![vid, wrk], ws)
    } else if overlap(vid, wrk) {
        Some(msg_pair("video_dir"@, vid, "work_dir"@, wrk))
    } else {
        None
    }
}

/// What the video layout check reports when every directory is compared in
/// its lexically cleaned form.
pub open spec fn video_layout_error(c: VideoConfig) -> Option<Seq<char>> {
    video_layout_error_canon(c, Seq::empty(), None, None)
}

impl VideoConfig {
    /// The defaults, with directories under the home directory `home`.
    pub fn default_for_home(home: &str) -> (r: Self)
        ensures
            str_views(r.watch_dirs@) == seq![home_join(home@, "video"@)],
            r.video_dir@ == home_join(home@, "video-mp4"@),
            r.work_dir@ == home_join(home@, ".cache/mop-video"@),
            r.workers == 1,
            r.preset@ == "medium"@,
            r.crf == 23,
            !r.delete_original,
            !r.overwrite,
            r.scan_on_start,
    {
        let w = default_video_watch_dir(home);
        let watch_dirs = vec![w];
        proof {
            assert(str_views(watch_dirs@) =~= seq![home_join(home@, "video"@)]);
        }
        VideoConfig {
            watch_dirs,
            video_dir: default_video_dir(home),
            work_dir: default_video_work_dir(home),
            workers: 1,
            preset: "medium".to_owned(),
            crf: 23,
            delete_original: false,
            overwrite: false,
            scan_on_start: true,
        }
    }

    /// Checks the directory layout: at least one watched directory, at least
    /// one worker, neither the video nor the work directory overlapping a
    /// watched directory, and the two apart.  Directories are compared in
    /// their lexically cleaned form; `validate_layout_canonical` takes the
    /// canonical forms of the paths that exist.
    pub fn validate_layout(&self) -> (r: Result<(), String>)
        ensures
            match r {
                Ok(()) => video_layout_error(*self) is None,
                Err(m) => video_layout_error(*self) == Some(m@),
            },
    {
        let none: Vec<Option<String>> = Vec::new();
        proof {
            assert(canon_views(none@) =~= Seq::<Option<Seq<char>>>::empty());
        }
        self.validate_layout_canonical(&none, None, None)
    }

    /// The layout check with the canonical forms known for the directories:
    /// `watch[i]` for the i-th watched directory, and one each for the video
    /// and work directories (`None` where the path does not exist, which is
    /// then compared in its lexically cleaned form).
    pub fn validate_layout_canonical(
        &self,
        watch: &Vec<Option<String>>,
        video: Option<String>,
        work: Option<String>,
    ) -> (r: Result<(), String>)
        ensures
            ({
                let e = video_layout_error_canon(
                    *self,
                    canon_views(watch@),
                    canon_view(video),
                    canon_view(work),
                );
                match r {
                    Ok(()) => e is None,
                    Err(m) => e == Some(m@),
                }
            }),
    {
        if self.watch_dirs.len() == 0 {
            return Err("At least one watch_dir must be configured".to_owned());
        }
        if self.workers == 0 {
            return Err("workers must be at least 1".to_owned());
        }
        let ws = normalize_all(&self.watch_dirs, watch);
        let vid = crate::paths::normalize(self.video_dir.as_str(), video);
        let wrk = crate::paths::normalize(self.work_dir.as_str(), work);
        let outs = vec![vid.clone(), wrk.clone()];
        proof {
            assert(str_views(outs@) =~= seq![vid@, wrk@]);
        }
        if let Some(m) = outs_overlap_exec(&outs, &ws) {
            return Err(m);
        }
        if inside_exec(vid.as_str(), wrk.as_str()) || inside_exec(wrk.as_str(), vid.as_str()) {
            let m = concat_text(&["video_dir", " (", vid.as_str(), ") and ", "work_dir", " (", wrk.as_str(), ") must not overlap"]);
            proof {
                reveal_with_fuel(crate::text::concat_all, 9);
                assert(m@ =~= msg_pair("video_dir"@, vid@, "work_dir"@, wrk@));
            }
            return Err(m);
        }
        Ok(())
    }
}

/// An accepted layout keeps every output directory out of every watched
/// directory and the other way round.
pub proof fn lemma_accepted_layout_is_apart(outs: Seq<Seq<char>>, ws: Seq<Seq<char>>, i: int, j: int)
    requires
        outs_overlap(outs, ws) is None,
        0 <= i < outs.len(),
        0 <= j < ws.len(),
    ensures
        !overlap(outs[i], ws[j]),
    decreases outs.len(),
{
    if i == 0 {
        lemma_watch_apart(outs[0], ws, j);
    } else {
        assert(outs.drop_first()[i - 1] == outs[i]);
        lemma_accepted_layout_is_apart(outs.drop_first(), ws, i - 1, j);
    }
}

proof fn lemma_watch_apart(o: Seq<char>, ws: Seq<Seq<char>>, j: int)
    requires
        watch_overlap(o, ws) is None,
        0 <= j < ws.len(),
    ensures
        !overlap(o, ws[j]),
    decreases ws.len(),
{
    if j > 0 {
        assert(ws.drop_first()[j - 1] == ws[j]);
        lemma_watch_apart(o, ws.drop_first(), j - 1);
    }
}

} // verus!
