use home_back::download::{DownloadManager, Outcome, Progress, SlotViolation, Status, MAX_PARALLEL_DOWNLOADS};

fn manager(slots: usize) -> DownloadManager {
    DownloadManager::with_slots("/srv/downloads".to_string(), slots)
}

fn submit(m: &mut DownloadManager, id: u128, name: &str) -> Option<usize> {
    m.submit(id, format!("http://example.com/{}", name), format!("videos/{}", name), None)
        .expect("fresh identifier")
        .slot
}

fn queued_ids(m: &DownloadManager) -> Vec<u128> {
    m.get_downloads().queue.iter().map(|d| d.uuid).collect()
}

fn active_ids(m: &DownloadManager) -> Vec<u128> {
    m.get_downloads().active_downloads.iter().map(|d| d.uuid).collect()
}

#[test]
fn new_manager_has_default_pool_and_no_records() {
    let m = DownloadManager::new("/srv".to_string());
    assert_eq!(m.slot_count(), MAX_PARALLEL_DOWNLOADS);
    assert!(m.get_downloads().active_downloads.is_empty());
    assert!(m.get_downloads().queue.is_empty());
}

#[test]
fn pool_of_n_runs_n_submissions_immediately() {
    let mut m = manager(4);
    for id in 1..=4u128 {
        assert_eq!(submit(&mut m, id, "a"), Some((id - 1) as usize));
    }
    assert_eq!(active_ids(&m), vec![1, 2, 3, 4]);
    assert!(queued_ids(&m).is_empty());
}

#[test]
fn submission_beyond_pool_is_queued() {
    let mut m = manager(4);
    for id in 1..=4u128 {
        submit(&mut m, id, "a");
    }
    assert_eq!(submit(&mut m, 5, "e"), None);
    assert_eq!(queued_ids(&m), vec![5]);
    assert_eq!(m.get_download(5).unwrap().status, Status::Created);
}

#[test]
fn submitted_record_starts_created_and_empty() {
    let mut m = manager(1);
    let s = m
        .submit(7, "http://host/file".to_string(), "dir/file.mkv".to_string(), Some("a=1&b=2".to_string()))
        .unwrap();
    assert_eq!(s.slot, Some(0));
    assert_eq!(s.download.uuid, 7);
    assert_eq!(s.download.status, Status::Created);
    assert_eq!(s.download.url, "http://host/file?a=1&b=2");
    assert_eq!(s.download.path, "dir/file.mkv");
    assert_eq!(s.download.current_size, 0);
    assert_eq!(s.download.size, None);
}

#[test]
fn duplicate_identifier_is_refused() {
    let mut m = manager(1);
    submit(&mut m, 1, "a");
    submit(&mut m, 2, "b");
    assert!(m.submit(2, "u".to_string(), "p".to_string(), None).is_none());
    assert!(m.submit(1, "u".to_string(), "p".to_string(), None).is_none());
    assert_eq!(queued_ids(&m), vec![2]);
}

#[test]
fn trigger_download_draws_distinct_identifiers() {
    let mut m = manager(1);
    let a = m.trigger_download("http://h/a".to_string(), "a".to_string(), None).unwrap();
    let b = m.trigger_download("http://h/b".to_string(), "b".to_string(), None).unwrap();
    assert_ne!(a.download.uuid, b.download.uuid);
    assert_eq!(a.slot, Some(0));
    assert_eq!(b.slot, None);
    assert_eq!(m.get_download(b.download.uuid).unwrap().url, "http://h/b");
}

#[test]
fn scenario_pool_of_two_cancel_and_complete() {
    let (a, b, c, d) = (10u128, 20u128, 30u128, 40u128);
    let mut m = manager(2);
    assert_eq!(submit(&mut m, a, "a"), Some(0));
    assert_eq!(submit(&mut m, b, "b"), Some(1));
    assert_eq!(submit(&mut m, c, "c"), None);
    assert_eq!(submit(&mut m, d, "d"), None);
    assert_eq!(active_ids(&m), vec![a, b]);
    assert_eq!(queued_ids(&m), vec![c, d]);

    // B is running when it is cancelled; its task stops at the next chunk.
    m.begin_transfer(1, b).unwrap();
    m.headers_received(1, b, Some(100)).unwrap();
    m.cancel_download(b);
    assert_eq!(m.get_download(b).unwrap().status, Status::Cancelled);
    assert_eq!(m.chunk_written(1, b, 10), Ok(Progress::Cancelled));
    assert_eq!(m.finalize(1, b, Outcome::Cancelled), Ok(Some("/srv/downloads/videos/b".to_string())));
    let next = m.release_slot(1, b).unwrap().unwrap();
    assert_eq!(next.uuid, c);
    assert_eq!(active_ids(&m), vec![a, c]);
    assert_eq!(queued_ids(&m), vec![d]);
    assert!(m.get_download(b).is_none());

    // A completes.
    assert_eq!(m.finalize(0, a, Outcome::Completed), Ok(None));
    let next = m.release_slot(0, a).unwrap().unwrap();
    assert_eq!(next.uuid, d);
    assert_eq!(active_ids(&m), vec![d, c]);
    assert!(queued_ids(&m).is_empty());
    assert!(m.get_download(a).is_none());
}

#[test]
fn release_promotes_oldest_queued_first() {
    let mut m = manager(1);
    for id in 1..=4u128 {
        submit(&mut m, id, "x");
    }
    assert_eq!(m.release_slot(0, 1).unwrap().unwrap().uuid, 2);
    assert_eq!(m.release_slot(0, 2).unwrap().unwrap().uuid, 3);
    assert_eq!(m.release_slot(0, 3).unwrap().unwrap().uuid, 4);
    assert!(m.release_slot(0, 4).unwrap().is_none());
    assert!(active_ids(&m).is_empty());
}

#[test]
fn cancelled_queued_record_is_never_promoted() {
    let mut m = manager(1);
    submit(&mut m, 1, "a");
    submit(&mut m, 2, "b");
    submit(&mut m, 3, "c");
    m.cancel_download(2);
    assert!(m.get_download(2).is_none());
    assert_eq!(queued_ids(&m), vec![3]);
    assert_eq!(m.release_slot(0, 1).unwrap().unwrap().uuid, 3);
    assert!(m.release_slot(0, 3).unwrap().is_none());
    assert!(m.get_download(2).is_none());
}

#[test]
fn cancel_unknown_identifier_changes_nothing() {
    let mut m = manager(1);
    submit(&mut m, 1, "a");
    submit(&mut m, 2, "b");
    m.cancel_download(99);
    assert_eq!(active_ids(&m), vec![1]);
    assert_eq!(queued_ids(&m), vec![2]);
    assert_eq!(m.get_download(1).unwrap().status, Status::Created);
}

#[test]
fn cancel_running_frees_slot_after_next_chunk() {
    let mut m = manager(1);
    submit(&mut m, 1, "a");
    m.headers_received(0, 1, None).unwrap();
    assert_eq!(m.chunk_written(0, 1, 5), Ok(Progress::Continue));
    m.cancel_download(1);
    assert_eq!(m.chunk_written(0, 1, 5), Ok(Progress::Cancelled));
    assert_eq!(m.get_download(1).unwrap().current_size, 10);
    assert_eq!(m.finalize(0, 1, Outcome::Cancelled), Ok(Some("/srv/downloads/videos/a".to_string())));
    assert_eq!(m.release_slot(0, 1), Ok(None));
    assert!(m.get_download(1).is_none());
    assert_eq!(submit(&mut m, 2, "b"), Some(0));
}

#[test]
fn progress_is_monotone_and_bounded_by_size() {
    let mut m = manager(1);
    submit(&mut m, 1, "a");
    assert_eq!(m.headers_received(0, 1, Some(10)), Ok("/srv/downloads/videos/a".to_string()));
    let d = m.get_download(1).unwrap();
    assert_eq!(d.status, Status::Running);
    assert_eq!(d.size, Some(10));
    assert_eq!(m.chunk_written(0, 1, 4), Ok(Progress::Continue));
    assert_eq!(m.chunk_written(0, 1, 6), Ok(Progress::Continue));
    assert_eq!(m.get_download(1).unwrap().current_size, 10);
    assert_eq!(m.chunk_written(0, 1, 1), Ok(Progress::Overrun));
    assert_eq!(m.get_download(1).unwrap().current_size, 10);
    // a second announcement does not change the known size
    m.headers_received(0, 1, Some(50)).unwrap();
    assert_eq!(m.get_download(1).unwrap().size, Some(10));
}

#[test]
fn counter_does_not_overflow() {
    let mut m = manager(1);
    submit(&mut m, 1, "a");
    m.headers_received(0, 1, None).unwrap();
    assert_eq!(m.chunk_written(0, 1, u64::MAX), Ok(Progress::Continue));
    assert_eq!(m.chunk_written(0, 1, 1), Ok(Progress::Overrun));
    assert_eq!(m.get_download(1).unwrap().current_size, u64::MAX);
}

#[test]
fn failed_transfer_keeps_file_and_frees_slot() {
    let mut m = manager(1);
    submit(&mut m, 1, "a");
    assert_eq!(m.begin_transfer(0, 1), Ok("http://example.com/a".to_string()));
    assert_eq!(m.finalize(0, 1, Outcome::Failed), Ok(None));
    assert_eq!(m.release_slot(0, 1), Ok(None));
    assert!(m.get_download(1).is_none());
}

#[test]
fn steps_on_a_slot_not_owned_are_refused() {
    let mut m = manager(2);
    submit(&mut m, 1, "a");
    let err = SlotViolation { slot: 1, uuid: 1 };
    assert_eq!(m.begin_transfer(1, 1), Err(err));
    assert_eq!(m.headers_received(1, 1, None), Err(err));
    assert_eq!(m.chunk_written(1, 1, 3), Err(err));
    assert_eq!(m.finalize(1, 1, Outcome::Cancelled), Err(err));
    assert_eq!(m.release_slot(1, 1), Err(err));
    assert_eq!(m.release_slot(7, 1), Err(SlotViolation { slot: 7, uuid: 1 }));
    // releasing twice is refused the second time
    assert_eq!(m.release_slot(0, 1), Ok(None));
    assert_eq!(m.release_slot(0, 1), Err(SlotViolation { slot: 0, uuid: 1 }));
}

#[test]
fn cancelled_before_headers_stays_cancelled() {
    let mut m = manager(1);
    submit(&mut m, 1, "a");
    m.cancel_download(1);
    m.headers_received(0, 1, Some(3)).unwrap();
    assert_eq!(m.get_download(1).unwrap().status, Status::Cancelled);
}

#[test]
fn parent_segments_stay_under_root() {
    let mut m = manager(1);
    let s = m.submit(1, "http://h/p".to_string(), "../../etc/passwd".to_string(), None).unwrap();
    assert_eq!(s.download.path, "etc/passwd");
    assert_eq!(m.headers_received(0, 1, None), Ok("/srv/downloads/etc/passwd".to_string()));
}

#[test]
fn trigger_on_fresh_manager_always_yields_confined_record() {
    let mut m = DownloadManager::new("/srv/downloads".to_string());
    let s = m.trigger_download("http://host/f".to_string(), "../../etc/passwd".to_string(), None).unwrap();
    assert_eq!(s.slot, Some(0));
    assert_eq!(s.download.status, Status::Created);
    assert_eq!(s.download.path, "etc/passwd");
    assert_eq!(m.headers_received(0, s.download.uuid, None), Ok("/srv/downloads/etc/passwd".to_string()));
}
