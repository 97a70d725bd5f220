use home_back::dvbc::Channel;
use home_back::preview::{get_preview, preview_url, ChannelPreview, FileState, PreviewQueue};

fn channel(name: &str) -> Channel {
    Channel { name: name.to_string(), url: format!("rtsp://{}", name) }
}

#[test]
fn preview_url_replaces_spaces_and_stays_confined() {
    assert_eq!(preview_url("Das Erste HD"), "/img/tv/preview/Das_Erste_HD.jpg");
    assert_eq!(preview_url("../../x"), "/img/tv/preview/x.jpg");
}

#[test]
fn file_state_from_age() {
    assert_eq!(FileState::from_metadata(None), FileState::Absent);
    assert_eq!(FileState::from_metadata(Some((300, 42))), FileState::New(42));
    assert_eq!(FileState::from_metadata(Some((301, 42))), FileState::Old);
}

#[test]
fn fresh_preview_is_reported_without_request() {
    let mut q = PreviewQueue::new();
    let p = get_preview(&mut q, &channel("ZDF"), FileState::New(5));
    assert_eq!(p, ChannelPreview { url: "/img/tv/preview/ZDF.jpg".to_string(), created: Some(5) });
    assert!(q.is_empty());
}

#[test]
fn stale_or_missing_preview_is_requested_once() {
    let mut q = PreviewQueue::new();
    let p = get_preview(&mut q, &channel("ZDF"), FileState::Old);
    assert_eq!(p.created, None);
    assert_eq!(q.len(), 1);
    get_preview(&mut q, &channel("ZDF"), FileState::Absent);
    assert_eq!(q.len(), 1);
}

#[test]
fn busy_queue_only_takes_channels_without_image() {
    let mut q = PreviewQueue::new();
    for i in 0..6 {
        assert!(q.request(&channel(&format!("c{}", i)), true));
    }
    assert!(!q.request(&channel("old"), true));
    for i in 6..11 {
        assert!(q.request(&channel(&format!("c{}", i)), false));
    }
    assert_eq!(q.len(), 11);
    assert!(!q.request(&channel("new"), false));
}

#[test]
fn oldest_request_is_taken_first_skipping_running() {
    let mut q = PreviewQueue::new();
    q.request(&channel("a"), false);
    q.request(&channel("b"), false);
    q.request(&channel("c"), false);
    let running = vec!["a".to_string()];
    assert_eq!(q.take_next(&running).unwrap().name, "b");
    assert_eq!(q.take_next(&running).unwrap().name, "c");
    assert!(q.take_next(&running).is_none());
    assert!(q.is_empty());
}

#[test]
fn scheduling_step_fills_idle_grabbers_oldest_first() {
    let mut q = PreviewQueue::new();
    for name in ["a", "b", "c", "d"] {
        q.request(&channel(name), false);
    }
    let running = vec!["b".to_string()];
    let jobs = q.start_jobs(&running, 2);
    let names: Vec<&str> = jobs.iter().map(|c| c.name.as_str()).collect();
    assert_eq!(names, vec!["a", "c"]);
    assert_eq!(q.len(), 1);
    assert!(q.keeps_scheduling(0));
    let jobs = q.start_jobs(&vec![], 5);
    assert_eq!(jobs.len(), 1);
    assert_eq!(jobs[0].name, "d");
    // every grabber busy and nothing waiting: stop
    assert!(!q.keeps_scheduling(0));
    // a grabber idle: go on
    assert!(q.keeps_scheduling(1));
    assert!(q.start_jobs(&vec![], 0).is_empty());
}

#[test]
fn busy_grabbers_leave_waiting_requests_alone() {
    let mut q = PreviewQueue::new();
    q.request(&channel("a"), false);
    q.request(&channel("b"), false);
    assert!(q.start_jobs(&vec!["a".to_string()], 0).is_empty());
    assert_eq!(q.len(), 2);
    assert!(q.keeps_scheduling(0));
}
