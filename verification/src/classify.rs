//! Telling manga archives, videos and other files apart: by extension, by the
//! first bytes of a file, and by what an archive holds.
use vstd::prelude::*;

use crate::archive::macos_metadata;
use crate::paths::{extension, extension_of, file_name, file_name_of};
use crate::text::{chars_of, eq_lit, lower_chars, lower_seq};

verus! {

/// What an input turned out to be.
#[derive(Debug, Clone, Copy, PartialEq, Eq, Structural)]
pub enum Kind {
    Manga,
    Video,
    Unknown,
}

pub open spec fn kind_name(k: Kind) -> Seq<char> {
    match k {
        Kind::Manga => "manga"@,
        Kind::Video => "video"@,
        Kind::Unknown => "unknown"@,
    }
}

impl Kind {
    pub fn as_str(&self) -> (r: &'static str)
        ensures
            r@ == kind_name(*self),
    {
        match self {
            Kind::Manga => "manga",
            Kind::Video => "video",
            Kind::Unknown => "unknown",
        }
    }
}

/// Extensions of video files.
pub open spec fn video_exts() -> Seq<Seq<char>> {
    seq![
        "mp4"@, "m4v"@, "mkv"@, "webm"@, "avi"@, "mov"@, "wmv"@, "flv"@, "mpg"@, "mpeg"@, "m2v"@,
        "ts"@, "mts"@, "m2ts"@, "vob"@, "ogv"@, "3gp"@, "3g2"@, "asf"@, "rm"@, "rmvb"@, "f4v"@,
        "y4m"@,
    ]
}

/// Extensions of image files.
pub open spec fn image_exts() -> Seq<Seq<char>> {
    seq!["jpg"@, "jpeg"@, "png"@, "gif"@, "bmp"@, "tif"@, "tiff"@, "avif"@, "heic"@, "webp"@]
}

/// A (case-insensitive) video extension.
pub open spec fn video_ext(ext: Option<Seq<char>>) -> bool {
    match ext {
        Some(e) => video_exts().contains(lower_seq(e)),
        None => false,
    }
}

/// A (case-insensitive) image extension.
pub open spec fn image_ext(ext: Option<Seq<char>>) -> bool {
    match ext {
        Some(e) => image_exts().contains(lower_seq(e)),
        None => false,
    }
}

fn video_ext_list() -> (r: Vec<&'static str>)
    ensures
        Seq::new(r@.len(), |i: int| r@[i]@) == video_exts(),
{
    let r = vec![
        "mp4", "m4v", "mkv", "webm", "avi", "mov", "wmv", "flv", "mpg", "mpeg", "m2v", "ts", "mts",
        "m2ts", "vob", "ogv", "3gp", "3g2", "asf", "rm", "rmvb", "f4v", "y4m",
    ];
    proof {
        assert(Seq::new(r@.len(), |i: int| r@[i]@) =~= video_exts());
    }
    r
}

fn image_ext_list() -> (r: Vec<&'static str>)
    ensures
        Seq::new(r@.len(), |i: int| r@[i]@) == image_exts(),
{
    let r = vec!["jpg", "jpeg", "png", "gif", "bmp", "tif", "tiff", "avif", "heic", "webp"];
    proof {
        assert(Seq::new(r@.len(), |i: int| r@[i]@) =~= image_exts());
    }
    r
}

fn in_list(list: &Vec<&str>, e: &[char]) -> (r: bool)
    ensures
        r == Seq::new(list@.len(), |i: int| list@[i]@).contains(e@),
{
    let ghost lv = Seq::new(list@.len(), |i: int| list@[i]@);
    let mut i: usize = 0;
    while i < list.len()
        invariant
            i <= list@.len(),
            lv == Seq::new(list@.len(), |i: int| list@[i]@),
            forall|j: int| 0 <= j < i ==> lv[j] != e@,
        decreases list.len() - i,
    {
        if eq_lit(e, list[i]) {
            proof {
                assert(lv[i as int] == e@);
            }
            return true;
        }
        i += 1;
    }
    false
}

pub fn is_video_ext(ext: Option<&str>) -> (r: bool)
    ensures
        r == video_ext(
            match ext {
                Some(e) => Some(e@),
                None => None,
            },
        ),
{
    match ext {
        Some(e) => {
            let l = lower_chars(&chars_of(e));
            in_list(&video_ext_list(), &l)
        },
        None => false,
    }
}

pub fn is_image_ext(ext: Option<&str>) -> (r: bool)
    ensures
        r == image_ext(
            match ext {
                Some(e) => Some(e@),
                None => None,
            },
        ),
{
    match ext {
        Some(e) => {
            let l = lower_chars(&chars_of(e));
            in_list(&image_ext_list(), &l)
        },
        None => false,
    }
}

fn ext_chars_video(ext: &Option<Vec<char>>) -> (r: bool)
    ensures
        r == video_ext(
            match ext {
                Some(e) => Some(e@),
                None => None,
            },
        ),
{
    match ext {
        Some(e) => in_list(&video_ext_list(), &lower_chars(e)),
        None => false,
    }
}

fn ext_chars_image(ext: &Option<Vec<char>>) -> (r: bool)
    ensures
        r == image_ext(
            match ext {
                Some(e) => Some(e@),
                None => None,
            },
        ),
{
    match ext {
        Some(e) => in_list(&image_ext_list(), &lower_chars(e)),
        None => false,
    }
}

/// Whether the first bytes of a file mark a video container: MP4/QuickTime
/// (`ftyp` at offset 4), Matroska/WebM, AVI, FLV or MPEG program/elementary
/// streams.
pub open spec fn video_magic(b: Seq<u8>) -> bool {
    ||| b.len() >= 8 && b.subrange(4, 8) == seq![0x66u8, 0x74u8, 0x79u8, 0x70u8]
    ||| b.len() >= 4 && b.subrange(0, 4) == seq![0x1Au8, 0x45u8, 0xDFu8, 0xA3u8]
    ||| b.len() >= 12 && b.subrange(0, 4) == seq![0x52u8, 0x49u8, 0x46u8, 0x46u8] && b.subrange(8, 12)
        == seq![0x41u8, 0x56u8, 0x49u8, 0x20u8]
    ||| b.len() >= 3 && b.subrange(0, 3) == seq![0x46u8, 0x4Cu8, 0x56u8]
    ||| b.len() >= 4 && (b.subrange(0, 4) == seq![0x00u8, 0x00u8, 0x01u8, 0xBAu8] || b.subrange(0, 4)
        == seq![0x00u8, 0x00u8, 0x01u8, 0xB3u8])
}

fn bytes_at(b: &[u8], at: usize, pat: &[u8]) -> (r: bool)
    requires
        at + pat@.len() <= b@.len(),
    ensures
        r == (b@.subrange(at as int, at + pat@.len()) == pat@),
{
    let blen = b.len();
    let mut i: usize = 0;
    while i < pat.len()
        invariant
            i <= pat@.len(),
            blen == b@.len(),
            at + pat@.len() <= b@.len(),
            forall|j: int| 0 <= j < i ==> b@[at + j] == pat@[j],
        decreases pat.len() - i,
    {
        if b[at + i] != pat[i] {
            proof {
                assert(b@.subrange(at as int, at + pat@.len())[i as int] != pat@[i as int]);
            }
            return false;
        }
        i += 1;
    }
    proof {
        assert(b@.subrange(at as int, at + pat@.len()) =~= pat@);
    }
    true
}

pub fn magic_is_video(b: &[u8]) -> (r: bool)
    ensures
        r == video_magic(b@),
{
    let len = b.len();
    let ftyp: [u8; 4] = [0x66, 0x74, 0x79, 0x70];
    let mkv: [u8; 4] = [0x1A, 0x45, 0xDF, 0xA3];
    let riff: [u8; 4] = [0x52, 0x49, 0x46, 0x46];
    let avi: [u8; 4] = [0x41, 0x56, 0x49, 0x20];
    let flv: [u8; 3] = [0x46, 0x4C, 0x56];
    let mpg_ps: [u8; 4] = [0x00, 0x00, 0x01, 0xBA];
    let mpg_es: [u8; 4] = [0x00, 0x00, 0x01, 0xB3];
    proof {
        assert(ftyp@ =~= seq![0x66u8, 0x74u8, 0x79u8, 0x70u8]);
        assert(mkv@ =~= seq![0x1Au8, 0x45u8, 0xDFu8, 0xA3u8]);
        assert(riff@ =~= seq![0x52u8, 0x49u8, 0x46u8, 0x46u8]);
        assert(avi@ =~= seq![0x41u8, 0x56u8, 0x49u8, 0x20u8]);
        assert(flv@ =~= seq![0x46u8, 0x4Cu8, 0x56u8]);
        assert(mpg_ps@ =~= seq![0x00u8, 0x00u8, 0x01u8, 0xBAu8]);
        assert(mpg_es@ =~= seq![0x00u8, 0x00u8, 0x01u8, 0xB3u8]);
    }
    if len >= 8 && bytes_at(b, 4, &ftyp) {
        return true;
    }
    if len >= 4 && bytes_at(b, 0, &mkv) {
        return true;
    }
    if len >= 12 && bytes_at(b, 0, &riff) && bytes_at(b, 8, &avi) {
        return true;
    }
    if len >= 3 && bytes_at(b, 0, &flv) {
        return true;
    }
    if len >= 4 && (bytes_at(b, 0, &mpg_ps) || bytes_at(b, 0, &mpg_es)) {
        return true;
    }
    false
}

/// Whether a file is a video, by the extension of its name or, failing that,
/// by its first bytes (`head`: up to 16 of them, `None` if it could not be
/// read).
pub fn is_video_file(ext: Option<&str>, head: Option<&[u8]>) -> (r: bool)
    ensures
        r == (video_ext(
            match ext {
                Some(e) => Some(e@),
                None => None,
            },
        ) || match head {
            Some(h) => video_magic(h@),
            None => false,
        }),
{
    if is_video_ext(ext) {
        return true;
    }
    match head {
        Some(h) => magic_is_video(h),
        None => false,
    }
}

/// Manga when enough images, else video when any video, else unknown.
pub open spec fn decided(images: nat, videos: nat, threshold: nat) -> Kind {
    if images >= threshold {
        Kind::Manga
    } else if videos > 0 {
        Kind::Video
    } else {
        Kind::Unknown
    }
}

pub fn decide(images: usize, videos: usize, threshold: usize) -> (r: Kind)
    ensures
        r == decided(images as nat, videos as nat, threshold as nat),
{
    if images >= threshold {
        Kind::Manga
    } else if videos > 0 {
        Kind::Video
    } else {
        Kind::Unknown
    }
}

/// One entry of an archive listing.
#[derive(Debug, Clone)]
pub struct ArchiveEntry {
    pub name: String,
    pub is_dir: bool,
}

/// Extension of the file name of a path.
pub open spec fn path_ext(p: Seq<char>) -> Option<Seq<char>> {
    match file_name_of(p) {
        Some(n) => extension_of(n),
        None => None,
    }
}

/// An entry that counts: not a directory, not skipped macOS metadata.
pub open spec fn counted(e: ArchiveEntry, remove_macos: bool) -> bool {
    !e.is_dir && !(remove_macos && macos_metadata(e.name@))
}

/// Number of counted entries with an image extension.
pub open spec fn image_count(es: Seq<ArchiveEntry>, remove_macos: bool) -> nat
    decreases es.len(),
{
    if es.len() == 0 {
        0
    } else {
        image_count(es.drop_last(), remove_macos) + if counted(es.last(), remove_macos) && image_ext(
            path_ext(es.last().name@),
        ) {
            1nat
        } else {
            0nat
        }
    }
}

/// Number of counted entries with a video (and no image) extension.
pub open spec fn video_count(es: Seq<ArchiveEntry>, remove_macos: bool) -> nat
    decreases es.len(),
{
    if es.len() == 0 {
        0
    } else {
        video_count(es.drop_last(), remove_macos) + if counted(es.last(), remove_macos) && !image_ext(
            path_ext(es.last().name@),
        ) && video_ext(path_ext(es.last().name@)) {
            1nat
        } else {
            0nat
        }
    }
}

/// What an archive is from its entries; an archive whose listing broke off
/// with an error (`read_error`, e.g. encrypted headers) counts as manga.
pub open spec fn archive_kind(
    es: Seq<ArchiveEntry>,
    read_error: bool,
    threshold: nat,
    remove_macos: bool,
) -> Kind {
    if read_error {
        Kind::Manga
    } else {
        decided(image_count(es, remove_macos), video_count(es, remove_macos), threshold)
    }
}

/// `x`, with its ASCII letters made lower case, is one of the image
/// extensions jpg, jpeg, png, gif, bmp, tif, tiff, avif, heic, webp.
proof fn lemma_image_ext_literal(x: Seq<char>)
    ensures
        image_ext(Some(x)) <==> {
            let l = lower_seq(x);
            l == "jpg"@ || l == "jpeg"@ || l == "png"@ || l == "gif"@ || l == "bmp"@ || l == "tif"@
                || l == "tiff"@ || l == "avif"@ || l == "heic"@ || l == "webp"@
        },
{
    let l = lower_seq(x);
    let e = image_exts();
    if e.contains(l) {
        let k = choose|k: int| 0 <= k < e.len() && e[k] == l;
        assert(k == 0 || k == 1 || k == 2 || k == 3 || k == 4 || k == 5 || k == 6 || k == 7 || k == 8
            || k == 9);
    }
    if l == "jpg"@ { assert(e[0] == l); }
    if l == "jpeg"@ { assert(e[1] == l); }
    if l == "png"@ { assert(e[2] == l); }
    if l == "gif"@ { assert(e[3] == l); }
    if l == "bmp"@ { assert(e[4] == l); }
    if l == "tif"@ { assert(e[5] == l); }
    if l == "tiff"@ { assert(e[6] == l); }
    if l == "avif"@ { assert(e[7] == l); }
    if l == "heic"@ { assert(e[8] == l); }
    if l == "webp"@ { assert(e[9] == l); }
}

/// An archive entry adds one to the image count exactly when it counts (not
/// a directory, not skipped macOS metadata) and its file name's extension,
/// with ASCII letters lower-cased, is an image extension; letter case in the
/// extension makes no difference.
pub proof fn lemma_image_count_step(es: Seq<ArchiveEntry>, e: ArchiveEntry, remove_macos: bool)
    ensures
        image_count(es.push(e), remove_macos) == image_count(es, remove_macos) + if counted(
            e,
            remove_macos,
        ) && path_ext(e.name@) is Some && {
            let l = lower_seq(path_ext(e.name@)->0);
            l == "jpg"@ || l == "jpeg"@ || l == "png"@ || l == "gif"@ || l == "bmp"@ || l == "tif"@
                || l == "tiff"@ || l == "avif"@ || l == "heic"@ || l == "webp"@
        } {
            1int
        } else {
            0int
        },
{
    assert(es.push(e).drop_last() =~= es);
    if let Some(x) = path_ext(e.name@) {
        lemma_image_ext_literal(x);
    }
}

/// Entries whose extensions differ only in ASCII letter case count alike:
/// an archive of `.JPG` pages is counted as one of `.jpg` pages.
pub proof fn lemma_image_count_ignores_case(
    es: Seq<ArchiveEntry>,
    a: ArchiveEntry,
    b: ArchiveEntry,
    remove_macos: bool,
)
    requires
        counted(a, remove_macos) == counted(b, remove_macos),
        path_ext(a.name@) is Some <==> path_ext(b.name@) is Some,
        path_ext(a.name@) is Some ==> lower_seq(path_ext(a.name@)->0) == lower_seq(
            path_ext(b.name@)->0,
        ),
    ensures
        image_count(es.push(a), remove_macos) == image_count(es.push(b), remove_macos),
        video_count(es.push(a), remove_macos) == video_count(es.push(b), remove_macos),
{
    lemma_image_count_step(es, a, remove_macos);
    lemma_image_count_step(es, b, remove_macos);
    assert(es.push(a).drop_last() =~= es);
    assert(es.push(b).drop_last() =~= es);
}

/// `x`, with its ASCII letters made lower case, is one of the video extensions.
proof fn lemma_video_ext_literal(x: Seq<char>)
    ensures
        video_ext(Some(x)) <==> {
            let l = lower_seq(x);
            l == "mp4"@ || l == "m4v"@ || l == "mkv"@ || l == "webm"@ || l == "avi"@ || l == "mov"@ || l == "wmv"@ || l == "flv"@ || l == "mpg"@ || l == "mpeg"@ || l == "m2v"@ || l == "ts"@ || l == "mts"@ || l == "m2ts"@ || l == "vob"@ || l == "ogv"@ || l == "3gp"@ || l == "3g2"@ || l == "asf"@ || l == "rm"@ || l == "rmvb"@ || l == "f4v"@ || l == "y4m"@
        },
{
    let l = lower_seq(x);
    let e = video_exts();
    if e.contains(l) {
        let k = choose|k: int| 0 <= k < e.len() && e[k] == l;
        assert(k == 0 || k == 1 || k == 2 || k == 3 || k == 4 || k == 5 || k == 6 || k == 7 || k == 8 || k == 9 || k == 10 || k == 11 || k == 12 || k == 13 || k == 14 || k == 15 || k == 16 || k == 17 || k == 18 || k == 19 || k == 20 || k == 21 || k == 22);
    }
    if l == "mp4"@ { assert(e[0] == l); }
    if l == "m4v"@ { assert(e[1] == l); }
    if l == "mkv"@ { assert(e[2] == l); }
    if l == "webm"@ { assert(e[3] == l); }
    if l == "avi"@ { assert(e[4] == l); }
    if l == "mov"@ { assert(e[5] == l); }
    if l == "wmv"@ { assert(e[6] == l); }
    if l == "flv"@ { assert(e[7] == l); }
    if l == "mpg"@ { assert(e[8] == l); }
    if l == "mpeg"@ { assert(e[9] == l); }
    if l == "m2v"@ { assert(e[10] == l); }
    if l == "ts"@ { assert(e[11] == l); }
    if l == "mts"@ { assert(e[12] == l); }
    if l == "m2ts"@ { assert(e[13] == l); }
    if l == "vob"@ { assert(e[14] == l); }
    if l == "ogv"@ { assert(e[15] == l); }
    if l == "3gp"@ { assert(e[16] == l); }
    if l == "3g2"@ { assert(e[17] == l); }
    if l == "asf"@ { assert(e[18] == l); }
    if l == "rm"@ { assert(e[19] == l); }
    if l == "rmvb"@ { assert(e[20] == l); }
    if l == "f4v"@ { assert(e[21] == l); }
    if l == "y4m"@ { assert(e[22] == l); }
}

/// An archive entry adds one to the video count exactly when it counts, its
/// extension (ASCII letters lower-cased) is not an image extension and is
/// one of mp4, m4v, mkv, webm, avi, mov, wmv, flv, mpg, mpeg, m2v, ts, mts,
/// m2ts, vob, ogv, 3gp, 3g2, asf, rm, rmvb, f4v, y4m.
pub proof fn lemma_video_count_step(es: Seq<ArchiveEntry>, e: ArchiveEntry, remove_macos: bool)
    ensures
        video_count(es.push(e), remove_macos) == video_count(es, remove_macos) + if counted(
            e,
            remove_macos,
        ) && path_ext(e.name@) is Some && {
            let l = lower_seq(path_ext(e.name@)->0);
            !(l == "jpg"@ || l == "jpeg"@ || l == "png"@ || l == "gif"@ || l == "bmp"@ || l == "tif"@
                || l == "tiff"@ || l == "avif"@ || l == "heic"@ || l == "webp"@) && (
            l == "mp4"@ || l == "m4v"@ || l == "mkv"@ || l == "webm"@ || l == "avi"@ || l == "mov"@ || l == "wmv"@ || l == "flv"@ || l == "mpg"@ || l == "mpeg"@ || l == "m2v"@ || l == "ts"@ || l == "mts"@ || l == "m2ts"@ || l == "vob"@ || l == "ogv"@ || l == "3gp"@ || l == "3g2"@ || l == "asf"@ || l == "rm"@ || l == "rmvb"@ || l == "f4v"@ || l == "y4m"@)
        } {
            1int
        } else {
            0int
        },
{
    assert(es.push(e).drop_last() =~= es);
    if let Some(x) = path_ext(e.name@) {
        lemma_image_ext_literal(x);
        lemma_video_ext_literal(x);
    }
}

pub(crate) fn entry_ext(name: &String) -> (r: Option<Vec<char>>)
    ensures
        match r {
            Some(e) => path_ext(name@) == Some(e@),
            None => path_ext(name@) is None,
        },
{
    let c = chars_of(name.as_str());
    match file_name(&c) {
        Some(n) => extension(&n),
        None => None,
    }
}

pub fn classify_archive(
    entries: &[ArchiveEntry],
    read_error: bool,
    manga_image_threshold: usize,
    remove_macos_metadata: bool,
) -> (r: Kind)
    ensures
        r == archive_kind(
            entries@,
            read_error,
            manga_image_threshold as nat,
            remove_macos_metadata,
        ),
{
    if read_error {
        return Kind::Manga;
    }
    let mut images: usize = 0;
    let mut videos: usize = 0;
    let mut i: usize = 0;
    while i < entries.len()
        invariant
            i <= entries@.len(),
            images == image_count(entries@.take(i as int), remove_macos_metadata),
            videos == video_count(entries@.take(i as int), remove_macos_metadata),
            images + videos <= i,
        decreases entries.len() - i,
    {
        proof {
            assert(entries@.take(i + 1).drop_last() =~= entries@.take(i as int));
        }
        let e = &entries[i];
        if !e.is_dir && !(remove_macos_metadata && crate::archive::is_macos_metadata(e.name.as_str())) {
            let ext = entry_ext(&e.name);
            if ext_chars_image(&ext) {
                images += 1;
            } else if ext_chars_video(&ext) {
                videos += 1;
            }
        }
        i += 1;
    }
    proof {
        assert(entries@.take(entries@.len() as int) =~= entries@);
    }
    decide(images, videos, manga_image_threshold)
}

/// What an input is: an archive by its entries; a file that is no archive
/// (`archive` is `None`) is a video or unknown as `video_file` says.
pub fn classify(
    archive: Option<(&[ArchiveEntry], bool)>,
    video_file: bool,
    manga_image_threshold: usize,
    remove_macos_metadata: bool,
) -> (r: Kind)
    ensures
        r == match archive {
            Some((es, err)) => archive_kind(es@, err, manga_image_threshold as nat, remove_macos_metadata),
            None => if video_file {
                Kind::Video
            } else {
                Kind::Unknown
            },
        },
{
    match archive {
        Some((es, err)) => classify_archive(es, err, manga_image_threshold, remove_macos_metadata),
        None => if video_file {
            Kind::Video
        } else {
            Kind::Unknown
        },
    }
}

} // verus!
