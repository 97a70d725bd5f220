use home_back::twitch::{chunk_urls, match_streams, FollowingPages, Authorization, AuthorizationRequest, FrontendConnections, User};

fn request(code: &str, expires_in: u64) -> AuthorizationRequest {
    AuthorizationRequest {
        device_code: code.to_string(),
        expires_in,
        interval: 5,
        user_code: "ABCD".to_string(),
        verification_uri: format!("https://www.twitch.tv/activate?{}", code),
    }
}

fn auth(token: &str) -> Authorization {
    Authorization { access_token: token.to_string(), refresh_token: format!("r-{}", token), expires_in: 3600 }
}

#[test]
fn pending_login_is_found_until_it_expires() {
    let mut c = FrontendConnections::new();
    let id = c.create(request("dev1", 60), 1000);
    assert_eq!(
        c.get_pending(id, 1059),
        Some(("dev1".to_string(), "https://www.twitch.tv/activate?dev1".to_string()))
    );
    assert_eq!(c.get_pending(id, 1060), None);
    // once dropped it stays dropped
    assert_eq!(c.get_pending(id, 1000), None);
}

#[test]
fn create_draws_distinct_ids() {
    let mut c = FrontendConnections::new();
    let a = c.create(request("a", 60), 0);
    let b = c.create(request("b", 60), 0);
    assert_ne!(a, b);
    assert_eq!(c.get_pending(b, 1).unwrap().0, "b");
}

#[test]
fn log_in_moves_client_to_logged_in() {
    let mut c = FrontendConnections::new();
    let id = c.create(request("dev", 600), 0);
    c.log_in(id, auth("t1"));
    assert_eq!(c.get_pending(id, 1), None);
    assert_eq!(c.get_logged_in(id), Some(("t1".to_string(), "r-t1".to_string())));
    assert_eq!(c.update_logged_in(id, auth("t2")), Some(()));
    assert_eq!(c.get_logged_in(id), Some(("t2".to_string(), "r-t2".to_string())));
    c.remove(id);
    assert_eq!(c.get_logged_in(id), None);
    assert_eq!(c.update_logged_in(id, auth("t3")), None);
}

#[test]
fn remove_drops_only_that_client() {
    let mut c = FrontendConnections::new();
    let a = c.create(request("a", 600), 0);
    let b = c.create(request("b", 600), 0);
    c.log_in(7, auth("x"));
    c.remove(a);
    assert_eq!(c.get_pending(a, 0), None);
    assert!(c.get_pending(b, 0).is_some());
    assert!(c.get_logged_in(7).is_some());
}

#[test]
fn clock_going_backwards_keeps_request() {
    let mut c = FrontendConnections::new();
    let id = c.create(request("a", 10), 100);
    c.clean_pending(50);
    assert!(c.get_pending(id, 50).is_some());
}

#[test]
fn urls_name_at_most_a_hundred_ids() {
    let ids: Vec<String> = (0..205).map(|i| i.to_string()).collect();
    let urls = chunk_urls("https://api.twitch.tv/helix/users?id=", "&id=", &ids);
    assert_eq!(urls.len(), 3);
    let first: Vec<String> = (0..100).map(|i| i.to_string()).collect();
    assert_eq!(urls[0], format!("https://api.twitch.tv/helix/users?id={}", first.join("&id=")));
    assert_eq!(urls[2], "https://api.twitch.tv/helix/users?id=200&id=201&id=202&id=203&id=204");
    assert!(chunk_urls("b?", "&", &vec![]).is_empty());
    assert_eq!(chunk_urls("b?id=", "&id=", &vec!["x".to_string()]), vec!["b?id=x"]);
}

fn user(id: &str) -> User {
    User { id: id.to_string(), profile_image_url: format!("p{}", id), offline_image_url: format!("o{}", id) }
}

#[test]
fn streams_are_matched_to_their_users() {
    let users = vec![user("1"), user("2"), user("2"), user("3")];
    let ids = vec!["3".to_string(), "2".to_string(), "1".to_string()];
    assert_eq!(match_streams(&users, &ids), Some(vec![3, 1, 0]));
    assert_eq!(match_streams(&users, &vec![]), Some(vec![]));
    assert_eq!(match_streams(&users, &vec!["9".to_string()]), None);
}

#[test]
fn following_pages_collect_ids_and_add_the_user() {
    let (mut pages, first) = FollowingPages::new("42".to_string());
    assert_eq!(first, "https://api.twitch.tv/helix/channels/followed?user_id=42&first=100");
    let next = pages.page(vec!["1".to_string(), "2".to_string()], Some("abc".to_string()));
    assert_eq!(next, Some("https://api.twitch.tv/helix/channels/followed?user_id=42&first=100&after=abc".to_string()));
    assert_eq!(pages.page(vec!["3".to_string()], None), None);
    assert_eq!(pages.finish(), vec!["1", "2", "3", "42"]);
}
