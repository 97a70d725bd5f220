use home_back::files::sanitize_path;

#[test]
fn parent_segments_are_stripped() {
    assert_eq!(sanitize_path("../../etc/passwd"), "etc/passwd");
}

#[test]
fn root_and_current_segments_are_dropped() {
    assert_eq!(sanitize_path("/etc/passwd"), "etc/passwd");
    assert_eq!(sanitize_path("./a//b/./c/"), "a/b/c");
    assert_eq!(sanitize_path("a/../b"), "a/b");
}

#[test]
fn nothing_named_gives_empty_path() {
    assert_eq!(sanitize_path(""), "");
    assert_eq!(sanitize_path("../.."), "");
    assert_eq!(sanitize_path("/"), "");
}

#[test]
fn dotted_names_are_kept() {
    assert_eq!(sanitize_path("...//.hidden/..x/file.tar.gz"), ".../.hidden/..x/file.tar.gz");
    assert_eq!(sanitize_path("Serie Ä/Folge 1.mkv"), "Serie Ä/Folge 1.mkv");
}
