use std::sync::Arc;
use home_back::dvbc::{find_channel, needs_update, parse_channels, Channel, Channels};

const LIST: &str = "#EXTM3U\n#EXTINF:0,Das Erste HD\n#EXTVLCOPT:network-caching=1000\nrtsp://192.168.178.1:554/?freq=330\n#EXTINF:0,ZDF HD\r\n#EXTVLCOPT:network-caching=1000\r\nrtsp://192.168.178.1:554/?freq=450\r\n#EXTINF:0,incomplete\n";

#[test]
fn parses_three_line_entries() {
    let channels = parse_channels(LIST);
    assert_eq!(channels.len(), 2);
    assert_eq!(channels[0].name, "Das Erste HD");
    assert_eq!(channels[0].url, "rtsp://192.168.178.1:554/?freq=330");
    assert_eq!(channels[1].name, "ZDF HD");
    assert_eq!(channels[1].url, "rtsp://192.168.178.1:554/?freq=450");
}

#[test]
fn empty_or_header_only_list_has_no_channels() {
    assert!(parse_channels("").is_empty());
    assert!(parse_channels("#EXTM3U\n").is_empty());
}

#[test]
fn short_name_line_gives_empty_name() {
    let channels = parse_channels("#EXTM3U\nshort\nopt\nurl");
    assert_eq!(channels.len(), 1);
    assert_eq!(channels[0].name, "");
    assert_eq!(channels[0].url, "url");
}

#[test]
fn update_needed_when_missing_or_older_than_an_hour() {
    assert!(needs_update(&None, 5));
    let c = Some(Arc::new(Channels { tv: vec![], radio: vec![], fetched_at: 1000 }));
    assert!(!needs_update(&c, 1000));
    assert!(!needs_update(&c, 4600));
    assert!(needs_update(&c, 4601));
    assert!(!needs_update(&c, 10));
}

#[test]
fn channel_is_found_by_name() {
    let tv = vec![
        Channel { name: "A".to_string(), url: "u1".to_string() },
        Channel { name: "B".to_string(), url: "u2".to_string() },
        Channel { name: "B".to_string(), url: "u3".to_string() },
    ];
    assert_eq!(find_channel(&tv, &"B".to_string()).unwrap().url, "u2");
    assert!(find_channel(&tv, &"C".to_string()).is_none());
}
