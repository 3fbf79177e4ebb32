use mop::config::VideoConfig;
use mop::inspect::{inspect, type_str, FileKind, RawEntry};
use mop::rpc::{
    convert_job_finish, hello_job_steps, log_level, read_hello_submission, read_video_submission,
    route_method, unknown_method_message, video_job_kind, HelloSettings, HelloStep, RpcMethod,
    VideoJob,
};
use mop::video::{
    archive_result, extracted_dest_name, ffmpeg_failure, format_video_log, is_candidate_file,
    missing_input, should_delete_video_original, single_dest_name, single_result, InflightSet,
};
use mop::video_inspect::{
    apply_banner, apply_streams, archive_report, video_file_result, ListedFile, StreamInfo,
};
use mop::rpc::{batch_next, found_message, not_a_directory_message, processed_message, BatchAction, BatchState};
use mop::rpc::{detail_line, inspect_summary};

// ---------------------------------------------------------------------------
// Video configuration
// ---------------------------------------------------------------------------

#[test]
fn config_test_validate_layout_overlap_rejection() {
    let mut cfg = VideoConfig::default_for_home("/home/user");
    cfg.watch_dirs = vec!["/srv/videos".to_string()];
    cfg.video_dir = "/srv/videos/mp4".to_string(); // nested inside watch!
    assert!(cfg.validate_layout().is_err());

    cfg.watch_dirs = vec!["/srv/videos/incoming".to_string()];
    cfg.video_dir = "/srv/videos".to_string(); // watch nested inside video_dir!
    assert!(cfg.validate_layout().is_err());

    cfg.watch_dirs = vec!["/srv/videos/incoming".to_string()];
    cfg.video_dir = "/srv/videos/transcoded".to_string(); // disjoint siblings
    assert!(cfg.validate_layout().is_ok());
}

#[test]
fn video_work_dir_overlap_is_refused() {
    let mut cfg = VideoConfig::default_for_home("/home/user");
    assert!(cfg.validate_layout().is_ok());
    cfg.work_dir = "/home/user/video-mp4/tmp".to_string();
    assert_eq!(
        cfg.validate_layout().unwrap_err(),
        "video_dir (/home/user/video-mp4) and work_dir (/home/user/video-mp4/tmp) must not overlap"
    );
}

// ---------------------------------------------------------------------------
// Video jobs
// ---------------------------------------------------------------------------

#[test]
fn output_names() {
    assert_eq!(single_dest_name("/in/clip.mkv"), "clip.mp4");
    assert_eq!(single_dest_name("/in/clip"), "clip.mp4");
    assert_eq!(extracted_dest_name("pack", 1, "a/b/ep1.avi"), "pack.mp4");
    assert_eq!(extracted_dest_name("pack", 2, "a/b/ep1.avi"), "pack_ep1.mp4");
}

#[test]
fn ffmpeg_failure_keeps_last_ten_lines() {
    let mut err = String::new();
    for i in 1..=12 {
        err.push_str(&format!("line{i}\r\n"));
    }
    let expected: Vec<String> = (3..=12).map(|i| format!("line{i}")).collect();
    assert_eq!(ffmpeg_failure(&err), format!("ffmpeg failed: {}", expected.join(" | ")));
    assert_eq!(ffmpeg_failure(""), "ffmpeg failed: ");
}

#[test]
fn video_results_and_log_lines() {
    let ok = single_result(Ok("/out/a.mp4".to_string()));
    assert_eq!(ok.status, "success");
    assert_eq!(ok.outputs, vec!["/out/a.mp4"]);
    assert_eq!(
        format_video_log(&ok, "/in/a.mkv"),
        "status=success input=/in/a.mkv output=/out/a.mp4"
    );
    let gone = missing_input("/in/x.mkv");
    assert_eq!(
        format_video_log(&gone, "/in/x.mkv"),
        "status=failed input=/in/x.mkv reason=open_failed error=\"input does not exist: /in/x.mkv\""
    );
    assert!(should_delete_video_original(true, false, &ok));
    assert!(!should_delete_video_original(true, true, &ok));
    assert!(!should_delete_video_original(true, false, &gone));

    let none = archive_result(None, None, 0, vec![], None);
    assert_eq!(none.status, "skipped");
    assert_eq!(none.error.as_deref(), Some("no video files found inside archive"));
    let both = archive_result(None, None, 2, vec!["/o/a.mp4".to_string(), "/o/b.mp4".to_string()], None);
    assert_eq!(both.output.as_deref(), Some("/o/a.mp4"));
    let bad = archive_result(None, Some("boom".to_string()), 0, vec![], None);
    assert_eq!(bad.error.as_deref(), Some("archive extract: boom"));
}

#[test]
fn watcher_candidates() {
    assert!(is_candidate_file("/watch/a.mkv", true, "/videos", "/work"));
    assert!(!is_candidate_file("/watch/.hidden.mkv", true, "/videos", "/work"));
    assert!(!is_candidate_file("/watch/a.mkv.part", true, "/videos", "/work"));
    assert!(!is_candidate_file("/videos/a.mp4", true, "/videos", "/work"));
    assert!(!is_candidate_file("/watch/a.mkv", false, "/videos", "/work"));
}

#[test]
fn inflight_set_refuses_duplicates() {
    let mut s = InflightSet::new();
    assert!(s.insert("/watch/a.mkv"));
    assert!(!s.insert("/watch/a.mkv"));
    s.remove("/watch/a.mkv");
    assert!(s.insert("/watch/a.mkv"));
}

// ---------------------------------------------------------------------------
// Inspection
// ---------------------------------------------------------------------------

#[test]
fn archive_inspection_report() {
    let entries = vec![
        RawEntry {
            pathname: "a.png".to_string(),
            file_type: FileKind::RegularFile,
            size: 10,
            encrypted: true,
        },
        RawEntry {
            pathname: String::new(),
            file_type: FileKind::Directory,
            size: 0,
            encrypted: false,
        },
    ];
    let r = inspect("/in/x.zip", Some(entries)).unwrap();
    assert_eq!(r.total_entries, 2);
    assert_eq!(r.encrypted_entries, 1);
    assert!(r.any_encrypted);
    assert_eq!(r.entries[0].entry_type, "file");
    assert_eq!(r.entries[1].name, "<unnamed>");
    assert_eq!(r.entries[1].entry_type, "dir");
    assert_eq!(
        inspect("/in/x.zip", None).unwrap_err(),
        "cannot open /in/x.zip as an archive"
    );
    assert_eq!(type_str(FileKind::Fifo), "fifo");
}

#[test]
fn video_inspection_report() {
    let mut r = video_file_result("/in/clip.MKV", 42);
    assert_eq!(r.format, "MKV");
    let streams = vec![
        StreamInfo {
            codec_type: Some("audio".to_string()),
            codec_name: Some("aac".to_string()),
            width: None,
            height: None,
        },
        StreamInfo {
            codec_type: Some("video".to_string()),
            codec_name: Some("h264".to_string()),
            width: Some(1920),
            height: Some(1080),
        },
        StreamInfo {
            codec_type: Some("video".to_string()),
            codec_name: Some("mjpeg".to_string()),
            width: Some(10),
            height: Some(10),
        },
    ];
    apply_streams(&mut r, &streams);
    assert_eq!(r.video_codec.as_deref(), Some("h264"));
    assert_eq!(r.audio_codec.as_deref(), Some("aac"));
    assert_eq!(r.resolution.as_deref(), Some("1920x1080"));

    let mut r = video_file_result("/in/clip", 1);
    assert_eq!(r.format, "video");
    apply_banner(
        &mut r,
        "ffmpeg version x\n  Stream #0:0: Video: hevc\n  Stream #0:1: Audio: aac\nother\n",
    );
    assert_eq!(r.details, vec!["Stream #0:0: Video: hevc", "Stream #0:1: Audio: aac"]);

    let listing = vec![
        ListedFile { name: "a/ep1.mkv".to_string(), head: None },
        ListedFile { name: "cover.jpg".to_string(), head: None },
    ];
    let r = archive_report("/in/pack.zip", 7, Some(listing)).unwrap();
    assert!(r.is_archive);
    assert_eq!(r.details, vec!["Total entries: 2, video entries: 1"]);
    assert!(archive_report("/in/pack.zip", 7, None).is_err());
}

// ---------------------------------------------------------------------------
// RPC
// ---------------------------------------------------------------------------

#[test]
fn rpc_routing() {
    assert_eq!(route_method("job.submit"), RpcMethod::JobSubmit);
    assert_eq!(route_method("shutdown"), RpcMethod::Shutdown);
    assert_eq!(route_method("nope"), RpcMethod::Unknown);
    assert_eq!(unknown_method_message("nope"), "Unknown method 'nope'");
    assert_eq!(video_job_kind("video.batch"), VideoJob::Batch);
    assert_eq!(video_job_kind("manga.convert"), VideoJob::Unknown);
}

#[test]
fn rpc_submissions() {
    assert_eq!(
        read_video_submission(Some("j1"), None, Some("video.convert")),
        Ok(("j1".to_string(), "video.convert".to_string()))
    );
    assert_eq!(
        read_video_submission(None, Some(None), Some("video.convert")),
        Err("Missing 'job_type' or 'kind'".to_string())
    );
    assert_eq!(
        read_video_submission(None, Some(Some("video.inspect")), None),
        Ok(("unknown".to_string(), "video.inspect".to_string()))
    );
    assert_eq!(
        read_hello_submission(None, None),
        ("unknown".to_string(), "hello.ping".to_string())
    );
}

#[test]
fn rpc_job_endings() {
    assert_eq!(convert_job_finish("success", None), ("Transcode finished", "completed", None));
    assert_eq!(convert_job_finish("skipped", None), ("File skipped", "completed", None));
    assert_eq!(
        convert_job_finish("failed", None),
        ("Transcode failed", "failed", Some("Conversion failed".to_string()))
    );
    assert_eq!(
        convert_job_finish("failed", Some("boom".to_string())),
        ("Transcode failed", "failed", Some("boom".to_string()))
    );
    assert_eq!(log_level("failed"), "error");
    assert_eq!(log_level("success"), "info");
}

#[test]
fn hello_ping_job() {
    let mut settings = HelloSettings::new();
    assert_eq!(settings.greeting, "Hello from mop plugin!");
    settings.apply_greeting(Some("hi"));
    let steps = hello_job_steps(&settings.greeting);
    assert_eq!(steps.len(), 4);
    match &steps[1] {
        HelloStep::Log(level, msg) => {
            assert_eq!(level, "info");
            assert_eq!(msg, "Greeting configured: hi");
        }
        other => panic!("unexpected {other:?}"),
    }
    match &steps[3] {
        HelloStep::Finished(s) => assert_eq!(s, "completed"),
        other => panic!("unexpected {other:?}"),
    }
}

#[test]
fn batch_job_steps_and_messages() {
    let mut st = BatchState { total: 2, processed: 0 };
    assert_eq!(batch_next(&st, false), BatchAction::Process(0));
    st.processed = 1;
    assert_eq!(batch_next(&st, true), BatchAction::Cancel);
    st.processed = 2;
    assert_eq!(batch_next(&st, true), BatchAction::Finish);
    assert_eq!(found_message(3), "Found 3 files to process");
    assert_eq!(processed_message(2, 3), "Processed 2/3");
    assert_eq!(not_a_directory_message("/x"), "Target path is not a directory: /x");
}

#[test]
fn inspection_summary_line() {
    let mut r = video_file_result("/in/clip.mkv", 42);
    r.video_codec = Some("h264".to_string());
    r.resolution = Some("1920x1080".to_string());
    assert_eq!(
        inspect_summary(&r),
        "Format: mkv, video_codec: Some(\"h264\"), audio_codec: None, resolution: Some(\"1920x1080\"), size: 42 bytes"
    );
    assert_eq!(detail_line("x"), " - x");
}
