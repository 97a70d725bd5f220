use home_back::scan::{scan_links, select_links};

#[test]
fn links_are_filtered_sorted_and_unique() {
    let found = vec![
        "https://b.example/2".to_string(),
        "https://stream.example/x".to_string(),
        "https://a.example/1".to_string(),
        "https://b.example/2".to_string(),
        "https://b.example/10".to_string(),
    ];
    assert_eq!(
        select_links(found),
        vec!["https://a.example/1", "https://b.example/10", "https://b.example/2"]
    );
    assert!(select_links(vec![]).is_empty());
}

#[test]
fn scan_page_links_are_found() {
    let page = r#"<a href="https://ddl.hi10anime.com/ep2.mkv">2</a>
<a href="https://ddl.hi10anime.com/ep1.mkv">1</a>
<a href="https://stream.hi10anime.com/ep1">s</a>
<a href='https://ddl.hi10anime.com/ep1.mkv'>again</a>;
http://ddl.hi10anime.com/insecure"#;
    let links = scan_links(page).unwrap();
    assert_eq!(
        links,
        vec![
            "https://ddl.hi10anime.com/ep1.mkv",
            "https://ddl.hi10anime.com/ep1.mkv'",
            "https://ddl.hi10anime.com/ep2.mkv",
        ]
    );
}
