use nsa::attachments::{
    drain_plan, id_set, sanitize_filename, AttachmentInfo, Config, Download, DownloadAction,
    DownloadEvent, DrainPlan, DrainProgress, FileStatus, MessageFetch, DEFAULT_FETCH_DELAY_MS,
    DEFAULT_MAX_BYTES,
};

#[test]
fn passes_normal_names_through() {
    assert_eq!(sanitize_filename("report.pdf"), "report.pdf");
    assert_eq!(
        sanitize_filename("übersicht 2024.png"),
        "übersicht 2024.png"
    );
}

#[test]
fn replaces_separators_and_nul() {
    assert_eq!(sanitize_filename("../../etc/passwd"), ".._.._etc_passwd");
    assert_eq!(sanitize_filename("a\\b/c"), "a_b_c");
    assert_eq!(sanitize_filename("nul\0byte"), "nul_byte");
}

#[test]
fn falls_back_on_degenerate_names() {
    assert_eq!(sanitize_filename(""), "attachment");
    assert_eq!(sanitize_filename("."), "attachment");
    assert_eq!(sanitize_filename(".."), "attachment");
}

#[test]
fn truncates_long_names_on_char_boundaries() {
    // 'ü' is 2 bytes; 150 of them = 300 bytes, truncated to <= 200 without splitting a char
    let long = "ü".repeat(150);
    let cleaned = sanitize_filename(&long);
    assert!(cleaned.len() <= 200);
    assert_eq!(cleaned, "ü".repeat(100));
}

#[test]
fn truncation_stops_before_a_char_that_would_cross_the_limit() {
    // 199 ASCII bytes then a 2-byte char: the char does not fit
    let name = format!("{}ü", "a".repeat(199));
    assert_eq!(sanitize_filename(&name), "a".repeat(199));
    assert_eq!(sanitize_filename(&"a".repeat(200)), "a".repeat(200));
    assert_eq!(sanitize_filename(&"a".repeat(201)), "a".repeat(200));
}

#[test]
fn separators_only_name_is_kept_cleaned() {
    assert_eq!(sanitize_filename("/"), "_");
    assert_eq!(sanitize_filename("./"), "._");
}

#[test]
fn config_is_off_without_dir_or_when_disabled() {
    assert!(Config::from_settings(None, None, None, None).is_none());
    assert!(Config::from_settings(None, Some(""), None, None).is_none());
    assert!(Config::from_settings(Some("1"), Some("/data"), None, None).is_none());
    assert!(Config::from_settings(Some("0"), Some("/data"), None, None).is_some());
}

#[test]
fn config_numbers_fall_back_to_defaults() {
    let c = Config::from_settings(None, Some("/data"), Some("nope"), None).unwrap();
    assert_eq!(c.dir, "/data");
    assert_eq!(c.max_bytes, DEFAULT_MAX_BYTES);
    assert_eq!(c.fetch_delay_ms, DEFAULT_FETCH_DELAY_MS);
    let c = Config::from_settings(None, Some("/data"), Some("+1024"), Some("10")).unwrap();
    assert_eq!(c.max_bytes, 1024);
    assert_eq!(c.fetch_delay_ms, 10);
    let c = Config::from_settings(None, Some("/data"), Some("-1"), Some("18446744073709551616")).unwrap();
    assert_eq!(c.max_bytes, DEFAULT_MAX_BYTES);
    assert_eq!(c.fetch_delay_ms, DEFAULT_FETCH_DELAY_MS);
}

fn info(size: u32) -> AttachmentInfo {
    AttachmentInfo {
        id: 42,
        filename: "../a.png".to_string(),
        url: "https://cdn/a.png".to_string(),
        size,
        content_type: Some("image/png".to_string()),
    }
}

fn record(action: DownloadAction) -> nsa::attachments::FileRecord {
    match action {
        DownloadAction::Record(r) => r,
        other => panic!("expected a record, got {:?}", other),
    }
}

#[test]
fn download_names() {
    let d = Download::new(&info(10), 100);
    assert_eq!(d.dir_name(), "42");
    assert_eq!(d.file_name(), ".._a.png");
    assert_eq!(d.temp_name(), ".._a.png.part");
}

#[test]
fn download_reported_oversized_is_recorded_without_network() {
    let mut d = Download::new(&info(101), 100);
    let r = record(d.step(DownloadEvent::Started));
    assert_eq!(r.status, FileStatus::Oversized);
    assert_eq!(r.size, Some(101));
    assert_eq!(r.path, None);
    assert_eq!(r.content_type.as_deref(), Some("image/png"));
    assert!(matches!(d.step(DownloadEvent::Recorded), DownloadAction::Finish(true)));
}

#[test]
fn download_stores_file_within_cap() {
    let mut d = Download::new(&info(10), 100);
    assert!(matches!(d.step(DownloadEvent::Started), DownloadAction::CreateDir));
    assert!(matches!(d.step(DownloadEvent::DirCreated { ok: true }), DownloadAction::SendRequest));
    assert!(matches!(
        d.step(DownloadEvent::Responded { status: 200, content_length: Some(60) }),
        DownloadAction::CreateTemp
    ));
    assert!(matches!(d.step(DownloadEvent::TempCreated { ok: true }), DownloadAction::ReadChunk));
    assert!(matches!(d.step(DownloadEvent::ChunkReceived { len: 40 }), DownloadAction::WriteChunk));
    assert!(matches!(d.step(DownloadEvent::ChunkWritten { ok: true }), DownloadAction::ReadChunk));
    assert!(matches!(d.step(DownloadEvent::ChunkReceived { len: 60 }), DownloadAction::WriteChunk));
    assert!(matches!(d.step(DownloadEvent::ChunkWritten { ok: true }), DownloadAction::ReadChunk));
    assert_eq!(d.written(), 100);
    assert!(matches!(d.step(DownloadEvent::StreamEnded), DownloadAction::SyncFile));
    assert!(matches!(d.step(DownloadEvent::Synced { ok: true }), DownloadAction::RenameToFinal));
    let r = record(d.step(DownloadEvent::Renamed { ok: true }));
    assert_eq!(r.status, FileStatus::Stored);
    assert_eq!(r.status.as_str(), "stored");
    assert_eq!(r.path.as_deref(), Some("42/.._a.png"));
    assert_eq!(r.size, Some(100));
    assert!(matches!(d.step(DownloadEvent::Recorded), DownloadAction::Finish(true)));
}

#[test]
fn download_stream_overrun_removes_temp_then_records_observed_size() {
    let mut d = Download::new(&info(10), 100);
    d.step(DownloadEvent::Started);
    d.step(DownloadEvent::DirCreated { ok: true });
    d.step(DownloadEvent::Responded { status: 200, content_length: None });
    d.step(DownloadEvent::TempCreated { ok: true });
    assert!(matches!(d.step(DownloadEvent::ChunkReceived { len: 101 }), DownloadAction::RemoveTemp));
    let r = record(d.step(DownloadEvent::TempRemoved));
    assert_eq!(r.status, FileStatus::Oversized);
    assert_eq!(r.size, Some(101));
    assert!(matches!(d.step(DownloadEvent::Recorded), DownloadAction::Finish(true)));
}

#[test]
fn download_gone_and_transient_answers() {
    let mut d = Download::new(&info(10), 100);
    d.step(DownloadEvent::Started);
    d.step(DownloadEvent::DirCreated { ok: true });
    let r = record(d.step(DownloadEvent::Responded { status: 404, content_length: None }));
    assert_eq!(r.status, FileStatus::Gone);
    assert_eq!(r.status.as_str(), "gone");

    let mut d = Download::new(&info(10), 100);
    d.step(DownloadEvent::Started);
    d.step(DownloadEvent::DirCreated { ok: true });
    let r = record(d.step(DownloadEvent::Responded { status: 403, content_length: None }));
    assert_eq!(r.status, FileStatus::Gone);

    for status in [400u16, 410, 499] {
        let mut d = Download::new(&info(10), 100);
        d.step(DownloadEvent::Started);
        d.step(DownloadEvent::DirCreated { ok: true });
        let r = record(d.step(DownloadEvent::Responded { status, content_length: None }));
        assert_eq!(r.status, FileStatus::Gone);
        assert_eq!(r.path, None);
    }

    let mut d = Download::new(&info(10), 100);
    d.step(DownloadEvent::Started);
    d.step(DownloadEvent::DirCreated { ok: true });
    assert!(matches!(
        d.step(DownloadEvent::Responded { status: 500, content_length: None }),
        DownloadAction::Finish(false)
    ));

    let mut d = Download::new(&info(10), 100);
    d.step(DownloadEvent::Started);
    d.step(DownloadEvent::DirCreated { ok: true });
    let r = record(d.step(DownloadEvent::Responded { status: 200, content_length: Some(500) }));
    assert_eq!(r.status, FileStatus::Oversized);
    assert_eq!(r.size, Some(500));
}

#[test]
fn download_failures_after_temp_remove_it() {
    let mut d = Download::new(&info(10), 100);
    d.step(DownloadEvent::Started);
    d.step(DownloadEvent::DirCreated { ok: true });
    d.step(DownloadEvent::Responded { status: 200, content_length: None });
    d.step(DownloadEvent::TempCreated { ok: true });
    assert!(matches!(d.step(DownloadEvent::StreamFailed), DownloadAction::RemoveTemp));
    assert!(matches!(d.step(DownloadEvent::TempRemoved), DownloadAction::Finish(false)));

    let mut d = Download::new(&info(10), 100);
    assert!(matches!(d.step(DownloadEvent::Started), DownloadAction::CreateDir));
    assert!(matches!(d.step(DownloadEvent::DirCreated { ok: false }), DownloadAction::Finish(false)));
}

#[test]
fn drain_progress_moves_cursor_to_oldest_and_beats() {
    let mut p = DrainProgress::new();
    assert_eq!(p.cursor, i64::MAX);
    for _ in 0..49 {
        assert!(!p.message_drained(1));
    }
    assert!(p.message_drained(2));
    assert_eq!(p.messages, 50);
    assert_eq!(p.files, 51);
    p.batch_drained(&[30, 10, 20]);
    assert_eq!(p.cursor, 10);
}

#[test]
fn drain_plan_cases() {
    let pending = vec![5, 7];
    let ids = vec![7, 6, 5];
    match drain_plan(MessageFetch::Found, &pending, &ids) {
        DrainPlan::Download(pos) => assert_eq!(pos, vec![0, 2]),
        other => panic!("unexpected {:?}", other),
    }
    match drain_plan(MessageFetch::NotFound, &pending, &ids) {
        DrainPlan::MarkGone(rows) => {
            assert_eq!(rows.len(), 2);
            assert_eq!(rows[0].attachment_id, 5);
            assert_eq!(rows[1].attachment_id, 7);
            assert!(rows.iter().all(|r| r.status == FileStatus::Gone && r.size.is_none()));
        }
        other => panic!("unexpected {:?}", other),
    }
    assert!(matches!(drain_plan(MessageFetch::Failed, &pending, &ids), DrainPlan::Skip));
    let set = id_set(&vec![7, 5, 7]);
    assert_eq!(set.len(), 2);
    assert!(set.contains(&7) && set.contains(&5) && !set.contains(&6));
}

#[test]
fn drained_message_counts_resolved_files() {
    let pending = vec![5, 7, 9];
    let ids = vec![5, 6, 7];
    assert_eq!(drain_plan(MessageFetch::NotFound, &pending, &ids).files_resolved(0), 3);
    assert_eq!(drain_plan(MessageFetch::Failed, &pending, &ids).files_resolved(0), 0);
    assert_eq!(drain_plan(MessageFetch::Found, &pending, &ids).files_resolved(1), 1);
}
