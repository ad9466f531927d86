use nsa::backfill::{
    max_id, min_id, CatchUp, Config, Sweep, SweepAction, SweepEnd, SweepEvent, SweepStep, DEFAULT_PAGE_DELAY_MS,
};

#[test]
fn config_falls_back_to_default_delay() {
    assert_eq!(Config::from_setting(None).page_delay_ms, DEFAULT_PAGE_DELAY_MS);
    assert_eq!(Config::from_setting(Some("x")).page_delay_ms, DEFAULT_PAGE_DELAY_MS);
    assert_eq!(Config::from_setting(Some("250")).page_delay_ms, 250);
}

#[test]
fn min_and_max_ids() {
    assert_eq!(min_id(&[3, 1, 2]), 1);
    assert_eq!(max_id(&[3, 1, 2]), 3);
    assert_eq!(min_id(&[-5]), -5);
}

#[test]
fn sweep_skips_complete_channels() {
    assert!(Sweep::start(Some((Some(10), true))).is_none());
    let s = Sweep::start(Some((Some(10), false))).unwrap();
    assert_eq!(s.cursor, Some(10));
    assert!(s.partial_existed);
    let s = Sweep::start(None).unwrap();
    assert_eq!(s.cursor, None);
    assert!(!s.partial_existed);
}

#[test]
fn sweep_completion_guard() {
    // never-swept channel whose first page is empty: retry next boot
    let s = Sweep::start(None).unwrap();
    assert_eq!(s.on_page(0), SweepStep::LeaveForRetry);
    // resumed partial sweep reaching the start: complete
    let s = Sweep::start(Some((Some(10), false))).unwrap();
    assert_eq!(s.on_page(0), SweepStep::MarkComplete(Some(10)));
    // fresh sweep that paged something: complete at the last checkpoint
    let mut s = Sweep::start(None).unwrap();
    assert_eq!(s.on_page(2), SweepStep::PersistPage);
    assert_eq!(s.step(SweepEvent::Started), SweepAction::Fetch { before: None, wait: false, report: false });
    assert_eq!(s.step(SweepEvent::Fetched(vec![9, 4])), SweepAction::Persist);
    assert_eq!(s.step(SweepEvent::Persisted), SweepAction::Checkpoint { oldest: Some(4), complete: false });
    assert_eq!(s.step(SweepEvent::Checkpointed), SweepAction::Fetch { before: Some(4), wait: true, report: false });
    assert_eq!(s.on_page(0), SweepStep::MarkComplete(Some(4)));
    assert_eq!(s.step(SweepEvent::Fetched(vec![])), SweepAction::Checkpoint { oldest: Some(4), complete: true });
    assert_eq!(s.step(SweepEvent::Checkpointed), SweepAction::Finish(SweepEnd::Complete));
    assert_eq!(s.pages, 1);
    assert_eq!(s.total, 2);
}

#[test]
fn sweep_heartbeat_every_25_pages() {
    let mut s = Sweep::start(None).unwrap();
    s.step(SweepEvent::Started);
    for i in 1..25 {
        s.step(SweepEvent::Fetched(vec![100 - i]));
        s.step(SweepEvent::Persisted);
        assert!(matches!(s.step(SweepEvent::Checkpointed), SweepAction::Fetch { report: false, .. }));
    }
    s.step(SweepEvent::Fetched(vec![1]));
    s.step(SweepEvent::Persisted);
    assert!(matches!(s.step(SweepEvent::Checkpointed), SweepAction::Fetch { report: true, .. }));
}

#[test]
fn sweep_stops_on_failures_and_retries_empty_first_page() {
    let mut s = Sweep::start(None).unwrap();
    s.step(SweepEvent::Started);
    assert_eq!(s.step(SweepEvent::Fetched(vec![])), SweepAction::Finish(SweepEnd::LeftForRetry));

    let mut s = Sweep::start(Some((Some(10), false))).unwrap();
    assert_eq!(s.step(SweepEvent::Started), SweepAction::Fetch { before: Some(10), wait: false, report: false });
    assert_eq!(s.step(SweepEvent::Fetched(vec![8, 9])), SweepAction::Persist);
    assert_eq!(s.step(SweepEvent::PersistFailed), SweepAction::Finish(SweepEnd::Failed));
    assert_eq!(s.cursor, Some(10));

    let mut s = Sweep::start(None).unwrap();
    s.step(SweepEvent::Started);
    assert_eq!(s.step(SweepEvent::FetchFailed), SweepAction::Finish(SweepEnd::Failed));
}

#[test]
fn catch_up_pages_down_to_floor_and_bumps_to_head() {
    assert!(CatchUp::start(None).is_none());
    let mut c = CatchUp::start(Some(50)).unwrap();
    assert_eq!(c.on_page(&[100, 90, 80]), Some(vec![0, 1, 2]));
    assert!(c.page_persisted(&[100, 90, 80], 3));
    assert_eq!(c.cursor, Some(80));
    // the page reaching the floor is cut there: 45 is already captured
    assert_eq!(c.on_page(&[70, 60, 45]), Some(vec![0, 1]));
    assert!(!c.page_persisted(&[70, 60, 45], 2));
    assert_eq!(c.total, 5);
    assert_eq!(c.new_floor(), Some(100));
    assert!(c.worth_reporting());
}

#[test]
fn catch_up_empty_first_page_does_not_bump() {
    let mut c = CatchUp::start(Some(50)).unwrap();
    assert_eq!(c.on_page(&[]), None);
    assert_eq!(c.new_floor(), None);
    assert!(!c.worth_reporting());
}

#[test]
fn catch_up_single_head_page_is_quiet() {
    let mut c = CatchUp::start(Some(50)).unwrap();
    assert_eq!(c.on_page(&[55, 50]), Some(vec![0]));
    assert!(!c.page_persisted(&[55, 50], 1));
    assert_eq!(c.total, 1);
    assert_eq!(c.new_floor(), Some(55));
    assert!(!c.worth_reporting());
}

#[test]
fn catch_up_persists_only_ids_above_the_floor() {
    let mut c = CatchUp::start(Some(50)).unwrap();
    assert_eq!(c.on_page(&[51, 49]), Some(vec![0]));
    assert_eq!(c.on_page(&[50, 40]), Some(vec![]));
    assert_eq!(c.on_page(&[60, 50, 55, 10]), Some(vec![0, 2]));
}

#[test]
fn catch_up_failure_leaves_the_floor() {
    let mut c = CatchUp::start(Some(50)).unwrap();
    assert_eq!(c.on_page(&[100, 90]), Some(vec![0, 1]));
    assert!(c.page_persisted(&[100, 90], 2));
    assert_eq!(c.new_floor(), None);
    c.failed();
    assert_eq!(c.new_floor(), None);
    assert!(!c.worth_reporting());
}
