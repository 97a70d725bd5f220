use home_back::dvbc::Channel;
use home_back::process::{children_of, parse_u32, Chat, VideoPlayer, VideoPlayerArgs, VideoPlayerSomthing};

#[test]
fn parses_decimal_u32() {
    assert_eq!(parse_u32("0"), Some(0));
    assert_eq!(parse_u32("4294967295"), Some(4294967295));
    assert_eq!(parse_u32("+17"), Some(17));
    assert_eq!(parse_u32("4294967296"), None);
    assert_eq!(parse_u32(""), None);
    assert_eq!(parse_u32("+"), None);
    assert_eq!(parse_u32("-1"), None);
    assert_eq!(parse_u32("12a"), None);
    assert_eq!(parse_u32("99999999999x"), None);
}

#[test]
fn finds_mpv_children_of_parent() {
    let out = "  1201  1100\n  1302  1200\n 99 1200\nbad line\n1400\n";
    assert_eq!(children_of(out, 1200), vec![1302, 99]);
    assert_eq!(children_of(out, 1100), vec![1201]);
    assert!(children_of(out, 5).is_empty());
    assert!(children_of("", 5).is_empty());
}

#[test]
fn chat_command_line() {
    let c = Chat {}.command(&"somechannel".to_string());
    assert_eq!(c.program, "firefox");
    assert_eq!(c.args, vec!["-kiosk", "-private-window", "file:///opt/home_back/chat.html?channel=somechannel"]);
}

#[test]
fn player_command_lines() {
    let p = VideoPlayer {};
    let t = VideoPlayerArgs::Twitch("stream".to_string());
    let c = p.command(&t);
    assert_eq!(c.program, "streamlink");
    assert_eq!(c.args, vec!["--player-passthrough", "hls,http", "stream"]);
    assert!(p.kills_player_on_stop(&t));
    let d = VideoPlayerArgs::DvbC(Channel { name: "ZDF".to_string(), url: "rtsp://x".to_string() });
    let c = p.command(&d);
    assert_eq!(c.program, "ffplay");
    assert_eq!(c.args, vec!["-sn", "rtsp://x"]);
    assert!(!p.kills_player_on_stop(&d));
    match VideoPlayerSomthing::from_args(&d) {
        VideoPlayerSomthing::DvbC(name) => assert_eq!(name, "ZDF"),
        VideoPlayerSomthing::Twitch(_) => panic!("wrong variant"),
    }
}
