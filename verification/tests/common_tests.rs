use mop::classify::{decide, is_image_ext, is_video_ext, is_video_file, Kind};
use mop::error::{ConvertError, Reason};
use mop::paths::{
    has_archive_extension, output_base, output_stem, safe_join, sanitize_filename, suffix_path,
    unique_dest,
};

#[test]
fn test_decide() {
    assert_eq!(decide(5, 0, 5), Kind::Manga);
    assert_eq!(decide(10, 2, 5), Kind::Manga);
    assert_eq!(decide(4, 1, 5), Kind::Video);
    assert_eq!(decide(0, 1, 5), Kind::Video);
    assert_eq!(decide(2, 0, 5), Kind::Unknown);
    assert_eq!(decide(0, 0, 5), Kind::Unknown);
}

#[test]
fn test_is_video_ext() {
    assert!(is_video_ext(Some("mp4")));
    assert!(is_video_ext(Some("MKV")));
    assert!(is_video_ext(Some("avi")));
    assert!(!is_video_ext(Some("png")));
    assert!(!is_video_ext(Some("zip")));
    assert!(!is_video_ext(None));
}

#[test]
fn test_is_image_ext() {
    assert!(is_image_ext(Some("png")));
    assert!(is_image_ext(Some("JPG")));
    assert!(is_image_ext(Some("webp")));
    assert!(!is_image_ext(Some("mp4")));
    assert!(!is_image_ext(None));
}

#[test]
fn output_stem_single_ext() {
    assert_eq!(output_stem("Example Volume 01.cbr"), "Example Volume 01.cbz");
    assert_eq!(output_stem("foo.zip"), "foo.cbz");
    assert_eq!(output_stem("bar.CBZ"), "bar.cbz");
}

#[test]
fn output_stem_multi_ext() {
    assert_eq!(output_stem("foo.tar.gz"), "foo.cbz");
    assert_eq!(output_stem("foo.tar.xz"), "foo.cbz");
}

#[test]
fn output_stem_no_ext() {
    assert_eq!(output_stem("README"), "README.cbz");
}

#[test]
fn output_base_strips_archive_exts() {
    assert_eq!(output_base("foo.tar.gz"), "foo");
    assert_eq!(output_base("Example Volume 01.cbr"), "Example Volume 01");
    assert_eq!(output_base("README"), "README");
    assert_eq!(output_base("ep01.mkv"), "ep01.mkv");
}

#[test]
fn safe_join_ok() {
    let base = "/tmp/x";
    assert_eq!(safe_join(base, "a/b/c.png").unwrap(), "/tmp/x/a/b/c.png");
}

#[test]
fn safe_join_rejects_absolute() {
    assert!(safe_join("/tmp/x", "/etc/passwd").is_err());
}

#[test]
fn safe_join_rejects_parent() {
    assert!(safe_join("/tmp/x", "../evil").is_err());
    assert!(safe_join("/tmp/x", "a/../../evil").is_err());
}

#[test]
fn suffix_path_appends_counter() {
    assert_eq!(suffix_path("/v/a.mp4", 1), "/v/a (1).mp4");
    assert_eq!(suffix_path("/v/notes", 2), "/v/notes (2)");
}

#[test]
fn safe_join_error_names_the_entry() {
    match safe_join("/tmp/x", "../evil") {
        Err(ConvertError::UnsafePath(m)) => assert_eq!(m, "parent traversal in archive: \"../evil\""),
        other => panic!("unexpected {other:?}"),
    }
    match safe_join("/tmp/x", "/etc/passwd") {
        Err(e) => assert_eq!(e.reason(), Reason::UnsafePath),
        Ok(p) => panic!("unexpected {p}"),
    }
}

#[test]
fn safe_join_refuses_any_parent_step() {
    match safe_join("/tmp/x", "a/../b.png") {
        Err(ConvertError::UnsafePath(m)) => {
            assert_eq!(m, "parent traversal in archive: \"a/../b.png\"")
        }
        other => panic!("unexpected {other:?}"),
    }
    assert_eq!(safe_join("/tmp/x", "./a/b").unwrap(), "/tmp/x/./a/b");
}

#[test]
fn sanitize_replaces_reserved_characters() {
    assert_eq!(sanitize_filename("a/b:c"), "a b c");
}

#[test]
fn unique_dest_candidates() {
    assert_eq!(unique_dest("/out/a.cbz", 0), "/out/a.cbz");
    assert_eq!(unique_dest("/out/a.cbz", 1), "/out/a (1).cbz");
    assert_eq!(unique_dest("/out/a.cbz", 2), "/out/a (2).cbz");
}

#[test]
fn archive_extensions() {
    assert!(has_archive_extension("/x/y.cbz"));
    assert!(has_archive_extension("/x/y.tar.gz"));
    assert!(!has_archive_extension("/x/y.png"));
}

#[test]
fn video_file_by_magic_bytes() {
    let mp4_head: [u8; 8] = [0, 0, 0, 0x18, b'f', b't', b'y', b'p'];
    assert!(is_video_file(None, Some(&mp4_head)));
    assert!(is_video_file(Some("mkv"), None));
    assert!(!is_video_file(Some("txt"), Some(&[1, 2, 3])));
}

#[test]
fn first_free_dest_skips_taken_names() {
    let taken = vec!["/out/a.cbz".to_string(), "/out/a (1).cbz".to_string(), "/out/b.cbz".to_string()];
    assert_eq!(mop::paths::first_free_dest("/out/a.cbz", &taken), ("/out/a (2).cbz".to_string(), 2));
    assert_eq!(mop::paths::first_free_dest("/out/c.cbz", &taken), ("/out/c.cbz".to_string(), 0));
    assert_eq!(mop::paths::first_free_dest("/out/a.cbz", &vec![]), ("/out/a.cbz".to_string(), 0));
}
