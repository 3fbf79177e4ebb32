use mop::convert::{record_volume, VolumeEvent};
use mop::comicinfo::{ensure_text, parse};
use mop::config::MangaConfig;
use mop::image::WEBP_MAX_DIMENSION;
use mop::layout::{common_series, dedupe, find_volumes, DirTree, VolumeUnit};
use mop::title::{
    longest_common_prefix, normalize_digits, parse_volume, strip_volume_token, volume_file_name,
    Confidence, Part, VolumeKey,
};
use mop::convert::{dry_run, VolumeOutcome};
use mop::error::ConvertError;
use mop::layout::{better, unit_order};

// ---------------------------------------------------------------------------
// ComicInfo
// ---------------------------------------------------------------------------

#[test]
fn parses_tags_case_insensitively() {
    let xml = r#"<?xml version="1.0"?>
<ComicInfo>
  <Series>アオのハコ</Series>
  <Volume>3</Volume>
  <Title>アオのハコ v03</Title>
</ComicInfo>"#;
    let ci = parse(xml);
    assert_eq!(ci.series.as_deref(), Some("アオのハコ"));
    assert_eq!(ci.volume, Some(3));
    assert_eq!(ci.volume_number(), Some(3));
    assert_eq!(ci.title.as_deref(), Some("アオのハコ v03"));
}

#[test]
fn number_falls_back_to_volume() {
    let ci = parse("<ComicInfo><Number>7</Number></ComicInfo>");
    assert_eq!(ci.volume_number(), Some(7));
}

#[test]
fn generated_comicinfo_carries_all_tags() {
    let xml = ensure_text(None, "アオのハコ", Some(1), "アオのハコ v01");
    assert!(xml.contains("<Series>アオのハコ</Series>"));
    assert!(xml.contains("<Volume>1</Volume>"));
    assert!(xml.contains("<Title>アオのハコ v01</Title>"));
}

#[test]
fn empty_series_is_filled_and_volume_kept() {
    let existing = "<ComicInfo>\n  <Series></Series>\n  <Volume>2</Volume>\n</ComicInfo>".to_string();
    let xml = ensure_text(Some(existing), "アオのハコ", None, "アオのハコ v02");
    assert!(xml.contains("<Series>アオのハコ</Series>"));
    assert!(xml.contains("<Volume>2</Volume>"));
    assert!(xml.contains("<Title>アオのハコ v02</Title>"));
}

#[test]
fn complete_comicinfo_keeps_series_and_volume() {
    let original = "<ComicInfo>\n  <Series>既存</Series>\n  <Volume>5</Volume>\n</ComicInfo>".to_string();
    let xml = ensure_text(Some(original), "別の名前", Some(9), "title");
    assert!(xml.contains("<Series>既存</Series>"));
    assert!(xml.contains("<Volume>5</Volume>"));
    assert!(xml.contains("<Title>title</Title>"));
}

#[test]
fn generated_comicinfo_escapes_markup() {
    let xml = ensure_text(None, "A&B <x>", None, "t");
    assert!(xml.contains("<Series>A&amp;B &lt;x&gt;</Series>"));
    assert!(!xml.contains("<Volume>"));
}

// ---------------------------------------------------------------------------
// Configuration
// ---------------------------------------------------------------------------

#[test]
fn test_validate_layout_overlap_rejection() {
    let mut cfg = MangaConfig::default_for_home("/home/user");
    cfg.watch_dirs = vec!["/srv/manga".to_string()];
    cfg.output_dir = "/srv/manga/cbz".to_string(); // nested inside watch!
    assert!(cfg.validate_layout().is_err());

    cfg.watch_dirs = vec!["/srv/manga/incoming".to_string()];
    cfg.output_dir = "/srv/manga".to_string(); // watch nested inside output!
    assert!(cfg.validate_layout().is_err());

    cfg.watch_dirs = vec!["/srv/manga/incoming".to_string()];
    cfg.output_dir = "/srv/manga/cbz".to_string(); // disjoint siblings
    assert!(cfg.validate_layout().is_ok());
}

#[test]
fn manga_defaults_are_valid_and_checked() {
    let mut cfg = MangaConfig::default_for_home("/home/user");
    assert_eq!(cfg.output_dir, "/home/user/manga-cbz");
    assert_eq!(cfg.manga_image_threshold, 5);
    assert!(cfg.validate_layout().is_ok());
    cfg.webp_quality = 0;
    assert_eq!(
        cfg.validate_layout().unwrap_err(),
        "webp_quality must be between 1 and 100, got 0"
    );
    cfg.webp_quality = 92;
    cfg.workers = 0;
    assert_eq!(cfg.validate_layout().unwrap_err(), "workers must be at least 1");
    cfg.workers = 2;
    cfg.watch_dirs = vec![];
    assert_eq!(
        cfg.validate_layout().unwrap_err(),
        "At least one watch_dir must be configured"
    );
}

// ---------------------------------------------------------------------------
// Images
// ---------------------------------------------------------------------------

#[test]
fn webp_max_dimension_is_16383() {
    assert_eq!(WEBP_MAX_DIMENSION, 16383);
}

// ---------------------------------------------------------------------------
// Titles
// ---------------------------------------------------------------------------

#[test]
fn fullwidth_digits_normalized() {
    assert_eq!(normalize_digits("第１巻"), "第1巻");
    assert_eq!(normalize_digits("１２３"), "123");
    assert_eq!(normalize_digits("〇"), "0");
}

#[test]
fn parse_number_forms() {
    assert_eq!(parse_volume("第01巻"), VolumeKey::Number(1));
    assert_eq!(parse_volume("第1巻"), VolumeKey::Number(1));
    assert_eq!(parse_volume("第12話"), VolumeKey::Number(12));
    assert_eq!(parse_volume("v01"), VolumeKey::Number(1));
    assert_eq!(parse_volume("Vol. 1"), VolumeKey::Number(1));
    assert_eq!(parse_volume("Volume 3"), VolumeKey::Number(3));
    assert_eq!(parse_volume("アオのハコ 7"), VolumeKey::Number(7));
    assert_eq!(parse_volume("アオのハコ (7)"), VolumeKey::Number(7));
    assert_eq!(parse_volume("vol2"), VolumeKey::Number(2));
}

#[test]
fn parse_part_forms() {
    assert_eq!(parse_volume("上"), VolumeKey::Part(Part::First));
    assert_eq!(parse_volume("中"), VolumeKey::Part(Part::Second));
    assert_eq!(parse_volume("下"), VolumeKey::Part(Part::Third));
    assert_eq!(parse_volume("アオのハコ 上"), VolumeKey::Part(Part::First));
    assert_eq!(parse_volume("アオのハコ(下)"), VolumeKey::Part(Part::Third));
    assert_eq!(parse_volume("下巻"), VolumeKey::Part(Part::Third));
}

#[test]
fn trailing_year_or_large_number_is_not_volume() {
    assert_eq!(parse_volume("Chapter 2024"), VolumeKey::Unknown);
    assert_eq!(parse_volume("アオのハコ 500"), VolumeKey::Unknown);
    assert_eq!(parse_volume("1000"), VolumeKey::Unknown);
}

#[test]
fn extra_keywords() {
    assert_eq!(
        parse_volume("アオのハコ 外伝"),
        VolumeKey::Extra {
            label: "外伝".into()
        }
    );
    assert_eq!(
        parse_volume("画集"),
        VolumeKey::Extra {
            label: "画集".into()
        }
    );
    assert_eq!(
        parse_volume("アオのハコ おまけ"),
        VolumeKey::Extra {
            label: "おまけ".into()
        }
    );
}

#[test]
fn unknown_falls_through() {
    assert_eq!(parse_volume("readme"), VolumeKey::Unknown);
    assert_eq!(parse_volume("スキャン差分"), VolumeKey::Unknown);
    assert_eq!(parse_volume(""), VolumeKey::Unknown);
}

#[test]
fn series_from_name() {
    assert_eq!(strip_volume_token("アオのハコ 7"), "アオのハコ");
    assert_eq!(strip_volume_token("アオのハコ 第1巻"), "アオのハコ");
    assert_eq!(strip_volume_token("foo v01"), "foo");
    assert_eq!(strip_volume_token("foo Vol. 2"), "foo");
    assert_eq!(strip_volume_token("Aoi no Hako"), "Aoi no Hako");
    assert_eq!(strip_volume_token("アオのハコ 上"), "アオのハコ");
    assert_eq!(strip_volume_token("アオのハコ 外伝"), "アオのハコ");
}

#[test]
fn longest_common_prefix_works() {
    assert_eq!(longest_common_prefix(&["Vol 01", "Vol 02", "Vol 03"]), "Vol 0");
    assert_eq!(longest_common_prefix(&["a", "b"]), "");
    assert_eq!(longest_common_prefix(&["same"]), "same");
}

#[test]
fn volume_file_names() {
    let series = "アオのハコ";
    assert_eq!(
        volume_file_name(series, &VolumeKey::Number(1), "x"),
        "アオのハコ v01.cbz"
    );
    assert_eq!(
        volume_file_name(series, &VolumeKey::Number(100), "x"),
        "アオのハコ v100.cbz"
    );
    assert_eq!(
        volume_file_name(series, &VolumeKey::Part(Part::Second), "x"),
        "アオのハコ v02.cbz"
    );
    assert_eq!(
        volume_file_name(
            series,
            &VolumeKey::Extra {
                label: "外伝".into()
            },
            "x"
        ),
        "アオのハコ extra-外伝.cbz"
    );
    assert_eq!(
        volume_file_name(series, &VolumeKey::Unknown, "スキャン 差分"),
        "スキャン 差分.cbz"
    );
    assert_eq!(
        volume_file_name("a/b", &VolumeKey::Number(1), "x"),
        "a b v01.cbz"
    );
}

// ---------------------------------------------------------------------------
// Volume layout: trees as a walk of an extracted directory gives them
// (every page image is an 8-byte PNG header).
// ---------------------------------------------------------------------------

const ROOT: &str = "/tmp/.tmpLayout";

fn cfg_threshold(n: usize) -> MangaConfig {
    let mut c = MangaConfig::default_for_home("/home/user");
    c.manga_image_threshold = n;
    c
}

fn dir(path: &str, images: usize, children: Vec<DirTree>) -> DirTree {
    let name = path.rsplit('/').next().unwrap_or("").to_string();
    DirTree {
        path: path.to_string(),
        name,
        direct_images: images,
        direct_bytes: 8 * images as u64,
        comicinfo: None,
        children,
    }
}

fn sub(parent: &str, name: &str) -> String {
    format!("{parent}/{name}")
}

fn units_of(root: &DirTree, cfg: &MangaConfig, outer: &str) -> Vec<VolumeUnit> {
    find_volumes(root, cfg, outer)
}

#[test]
fn flat_root_is_single_unit() {
    let root = dir(ROOT, 12, vec![]);
    let units = units_of(&root, &cfg_threshold(10), "アオのハコ");
    assert_eq!(units.len(), 1);
    let u = &units[0];
    assert_eq!(u.raw_name, "アオのハコ");
    assert_eq!(u.page_count, 12);
    assert_eq!(u.volume_key, VolumeKey::Unknown);
}

#[test]
fn volume_folders_are_detected() {
    let root = dir(
        ROOT,
        0,
        vec![
            dir(&sub(ROOT, "Vol 02"), 14, vec![]),
            dir(&sub(ROOT, "Vol 01"), 12, vec![]),
            dir(&sub(ROOT, "Vol 03"), 11, vec![]),
        ],
    );
    let units = units_of(&root, &cfg_threshold(10), "series");
    assert_eq!(units.len(), 3);
    assert_eq!(units[0].volume_key, VolumeKey::Number(1));
    assert_eq!(units[1].volume_key, VolumeKey::Number(2));
    assert_eq!(units[2].volume_key, VolumeKey::Number(3));
    assert_eq!(units[0].page_count, 12);
}

#[test]
fn nested_archive_dirs_are_volumes() {
    // Simulates extracted nested .cbz files: each archive became a dir.
    let root = dir(
        ROOT,
        0,
        vec![dir(&sub(ROOT, "v01"), 12, vec![]), dir(&sub(ROOT, "v02"), 12, vec![])],
    );
    let units = units_of(&root, &cfg_threshold(10), "outer");
    assert_eq!(units.len(), 2);
    assert_eq!(units[0].volume_key, VolumeKey::Number(1));
    assert_eq!(units[1].volume_key, VolumeKey::Number(2));
}

#[test]
fn single_wrapper_is_unwrapped() {
    let wrap = sub(ROOT, "wrapper");
    let root = dir(
        ROOT,
        0,
        vec![dir(
            &wrap,
            0,
            vec![dir(&sub(&wrap, "Vol 01"), 12, vec![]), dir(&sub(&wrap, "Vol 02"), 12, vec![])],
        )],
    );
    let units = units_of(&root, &cfg_threshold(10), "outer");
    assert_eq!(units.len(), 2);
    assert_eq!(units[0].raw_name, "Vol 01");
}

#[test]
fn image_subdir_counts_toward_parent() {
    let vol = sub(ROOT, "Vol 01");
    let root = dir(ROOT, 0, vec![dir(&vol, 0, vec![dir(&sub(&vol, "images"), 12, vec![])])]);
    let units = units_of(&root, &cfg_threshold(10), "outer");
    assert_eq!(units.len(), 1);
    assert_eq!(units[0].volume_key, VolumeKey::Number(1));
    assert_eq!(units[0].page_count, 12);
}

#[test]
fn macos_metadata_and_cover_only_folders_ignored() {
    // Root: Vol 01/ (12 pages), __MACOSX/._x, .DS_Store, cover.jpg.
    let mut root = dir(
        ROOT,
        1,
        vec![dir(&sub(ROOT, "Vol 01"), 12, vec![]), {
            let mut m = dir(&sub(ROOT, "__MACOSX"), 0, vec![]);
            m.direct_bytes = 1;
            m
        }],
    );
    root.direct_bytes = 2;
    let units = units_of(&root, &cfg_threshold(10), "outer");
    assert_eq!(units.len(), 1);
    assert_eq!(units[0].volume_key, VolumeKey::Number(1));
}

#[test]
fn below_threshold_is_not_a_volume() {
    let root = dir(ROOT, 0, vec![dir(&sub(ROOT, "Vol 01"), 5, vec![])]);
    let units = units_of(&root, &cfg_threshold(10), "outer");
    assert!(units.is_empty());
}

#[test]
fn dedupe_keeps_most_pages() {
    let cfg = cfg_threshold(1);
    let root = dir(
        ROOT,
        0,
        vec![dir(&sub(ROOT, "Vol 01"), 30, vec![]), dir(&sub(ROOT, "Vol 01 copy"), 12, vec![])],
    );
    let units = units_of(&root, &cfg, "outer");
    assert_eq!(units.len(), 2);
    let deduped = dedupe(units, &cfg);
    assert_eq!(deduped.len(), 1);
    assert_eq!(deduped[0].page_count, 30);
}

#[test]
fn dedupe_keeps_both_when_pages_differ_greatly() {
    let cfg = cfg_threshold(1);
    let root = dir(
        ROOT,
        0,
        vec![dir(&sub(ROOT, "Vol 01"), 40, vec![]), dir(&sub(ROOT, "Vol 01 special"), 100, vec![])],
    );
    let units = units_of(&root, &cfg, "outer");
    assert_eq!(units.len(), 2);
    let deduped = dedupe(units, &cfg);
    assert_eq!(deduped.len(), 2, "distinct releases must both be kept");
    assert!(deduped.iter().all(|u| u.confidence == Confidence::Low));
}

#[test]
fn dedupe_disabled_keeps_all() {
    let mut cfg = cfg_threshold(1);
    cfg.dedupe_volumes = false;
    let root = dir(
        ROOT,
        0,
        vec![dir(&sub(ROOT, "Vol 01"), 30, vec![]), dir(&sub(ROOT, "Vol 01 copy"), 12, vec![])],
    );
    let units = units_of(&root, &cfg, "outer");
    let deduped = dedupe(units, &cfg);
    assert_eq!(deduped.len(), 2);
}

#[test]
fn comicinfo_volume_wins_over_folder_name() {
    let mut v = dir(&sub(ROOT, "Vol 01"), 12, vec![]);
    v.comicinfo = Some("<ComicInfo><Number>4</Number></ComicInfo>".to_string());
    let root = dir(ROOT, 0, vec![v]);
    let units = units_of(&root, &cfg_threshold(10), "outer");
    assert_eq!(units.len(), 1);
    assert_eq!(units[0].volume_key, VolumeKey::Number(4));
    assert_eq!(units[0].confidence, Confidence::High);
    assert_eq!(units[0].byte_size, 96);
    assert_eq!(units[0].dir, "/tmp/.tmpLayout/Vol 01");
}

#[test]
fn units_come_in_processing_order() {
    let root = dir(
        ROOT,
        0,
        vec![
            dir(&sub(ROOT, "zeta"), 10, vec![]),
            dir(&sub(ROOT, "外伝"), 10, vec![]),
            dir(&sub(ROOT, "下"), 10, vec![]),
            dir(&sub(ROOT, "alpha"), 10, vec![]),
            dir(&sub(ROOT, "v02"), 10, vec![]),
        ],
    );
    let units = units_of(&root, &cfg_threshold(10), "outer");
    let names: Vec<&str> = units.iter().map(|u| u.raw_name.as_str()).collect();
    assert_eq!(names, vec!["v02", "下", "外伝", "alpha", "zeta"]);
    assert_eq!(units[3].confidence, Confidence::Low);
}

#[test]
fn dedupe_prefers_more_bytes_then_clean_name() {
    let cfg = cfg_threshold(1);
    let mut a = dir(&sub(ROOT, "Vol 01 scan"), 20, vec![]);
    a.direct_bytes = 500;
    let b = dir(&sub(ROOT, "Vol 01"), 20, vec![]);
    let root = dir(ROOT, 0, vec![a, b]);
    let deduped = dedupe(units_of(&root, &cfg, "outer"), &cfg);
    assert_eq!(deduped.len(), 1);
    assert_eq!(deduped[0].raw_name, "Vol 01 scan");

    let a = dir(&sub(ROOT, "Vol 02 copy"), 20, vec![]);
    let b = dir(&sub(ROOT, "Vol 02"), 20, vec![]);
    let root = dir(ROOT, 0, vec![a, b]);
    let deduped = dedupe(units_of(&root, &cfg, "outer"), &cfg);
    assert_eq!(deduped.len(), 1);
    assert_eq!(deduped[0].raw_name, "Vol 02");
}

#[test]
fn common_series_of_units() {
    let root = dir(
        ROOT,
        0,
        vec![dir(&sub(ROOT, "Vol 01"), 12, vec![]), dir(&sub(ROOT, "Vol 02"), 12, vec![])],
    );
    let units = units_of(&root, &cfg_threshold(10), "outer");
    assert_eq!(common_series(&units), "Vol 0");
}

// ---------------------------------------------------------------------------
// Dry runs
// ---------------------------------------------------------------------------

fn dry(name: &str, encrypted: bool) -> mop::convert::DryEntry {
    mop::convert::DryEntry {
        name: name.to_string(),
        encrypted,
    }
}

#[test]
fn dry_run_reports_planned_volume() {
    let cfg = MangaConfig::default_for_home("/home/user");
    let entries = vec![
        dry("p1.png", false),
        dry("p2.JPG", false),
        dry("__MACOSX/._p1.png", true),
        dry("notes.txt", false),
    ];
    let r = dry_run("/in/アオのハコ 第1巻.zip", &cfg, false, "アオのハコ 第1巻", &entries, None).unwrap();
    assert_eq!(r.len(), 1);
    match &r[0] {
        VolumeOutcome::Built(p, n) => {
            assert_eq!(p, "/home/user/manga-cbz/アオのハコ/アオのハコ.cbz");
            assert_eq!(*n, 2);
        }
        other => panic!("unexpected {other:?}"),
    }
}

#[test]
fn dry_run_errors() {
    let mut cfg = MangaConfig::default_for_home("/home/user");
    let entries = vec![dry("p1.png", true)];
    assert!(matches!(
        dry_run("/in/a.zip", &cfg, false, "a", &entries, None),
        Err(ConvertError::PasswordRequired)
    ));
    assert!(dry_run("/in/a.zip", &cfg, true, "a", &entries, None).is_ok());
    match dry_run("/in/a.zip", &cfg, true, "a", &entries, Some("bad header".to_string())) {
        Err(ConvertError::Convert(m)) => assert_eq!(m, "reading entry: bad header"),
        other => panic!("unexpected {other:?}"),
    }
    cfg.series_subdir = false;
    match dry_run("/in/a.zip", &cfg, true, "a", &entries, None) {
        Ok(v) => match &v[0] {
            mop::convert::VolumeOutcome::Built(p, _) => assert_eq!(p, "/home/user/manga-cbz/a.cbz"),
            other => panic!("unexpected {other:?}"),
        },
        Err(e) => panic!("unexpected {e:?}"),
    }
}

#[test]
fn unit_order_and_better_copy() {
    let root = dir(
        ROOT,
        0,
        vec![dir(&sub(ROOT, "Vol 01"), 30, vec![]), dir(&sub(ROOT, "Vol 01 copy"), 30, vec![])],
    );
    let units = units_of(&root, &cfg_threshold(1), "outer");
    assert_eq!(unit_order(&units[0]), (0, 1, String::new()));
    let clean = units.iter().find(|u| u.raw_name == "Vol 01").unwrap();
    let copy = units.iter().find(|u| u.raw_name == "Vol 01 copy").unwrap();
    assert!(better(clean, copy));
    assert!(!better(copy, clean));
}

#[test]
fn complete_comicinfo_is_written_back_unchanged() {
    let xml = "<ComicInfo>\n  <Series>既存</Series>\n  <Volume>5</Volume>\n  <Title>t</Title>\n</ComicInfo>".to_string();
    assert_eq!(ensure_text(Some(xml.clone()), "other", Some(9), "x"), xml);
    assert_eq!(ensure_text(Some(xml.clone()), "other", None, "x"), xml);
}

#[test]
fn layout_compares_canonical_forms_of_existing_paths() {
    let mut cfg = MangaConfig::default_for_home("/home/user");
    cfg.watch_dirs = vec!["/srv/manga".to_string()];
    cfg.output_dir = "/srv/link".to_string();
    assert!(cfg.validate_layout().is_ok());
    // `/srv/link` resolves into the watched directory.
    let watch = vec![None];
    let err = cfg
        .validate_layout_canonical(&watch, Some("/srv/manga/cbz".to_string()), None, None)
        .unwrap_err();
    assert_eq!(
        err,
        "directory (/srv/manga/cbz) is inside watch dir (/srv/manga); refusing to avoid a reprocessing loop"
    );
    assert!(cfg.validate_layout_canonical(&watch, Some("/data/cbz".to_string()), None, None).is_ok());
}

#[test]
fn a_failed_volume_rolls_back_the_written_ones() {
    let mut outcomes: Vec<VolumeOutcome> = Vec::new();
    assert!(record_volume(&mut outcomes, VolumeEvent::Built("/o/a v01.cbz".to_string(), 12)).is_none());
    assert!(record_volume(&mut outcomes, VolumeEvent::Exists("/o/a v02.cbz".to_string())).is_none());
    assert!(record_volume(&mut outcomes, VolumeEvent::Built("/o/a v03.cbz".to_string(), 9)).is_none());
    assert_eq!(outcomes.len(), 3);
    let (written, e) = record_volume(&mut outcomes, VolumeEvent::Failed(ConvertError::OutputExists)).unwrap();
    assert_eq!(written, vec!["/o/a v01.cbz".to_string(), "/o/a v03.cbz".to_string()]);
    assert_eq!(e, ConvertError::OutputExists);
    assert_eq!(outcomes.len(), 3);
}

#[test]
fn kelvin_sign_before_v_blocks_a_bare_volume_like_k() {
    // U+212A lower-cases to `k`, so it guards a following `v` as `k` does.
    assert_eq!(parse_volume("\u{212A}v01"), parse_volume("kv01"));
    assert_ne!(parse_volume("\u{212A}v01"), VolumeKey::Number(1));
    assert_eq!(parse_volume(" v01"), VolumeKey::Number(1));
}
