use js_watcher::path_clean::{clean, PathClean};
use js_watcher::fsview::{extension, file_name, join_under, parent_dir};

#[test]
fn clean_basics() {
    assert_eq!(clean("a/b/../c"), "a/c");
    assert_eq!(clean("/a//b/./c"), "/a/b/c");
    assert_eq!(clean("/../a"), "/a");
    assert_eq!(clean("../../x"), "../../x");
    assert_eq!(clean(""), ".");
    assert_eq!(clean("a/.."), ".");
    assert_eq!(clean("/"), "/");
    assert_eq!(clean("a/b/"), "a/b");
}

#[test]
fn clean_twice_is_clean_once() {
    let samples = ["a/b/../c", "/a//b/./c", "/../a", "../../x", "", "a/..", "/", "x/./y/../../z"];
    for p in samples {
        let once = clean(p);
        let twice = once.clone().clean();
        assert_eq!(once, twice);
    }
}

#[test]
fn path_parts() {
    assert_eq!(parent_dir("/a/b/c.js"), Some("/a/b".to_string()));
    assert_eq!(parent_dir("/a"), Some("/".to_string()));
    assert_eq!(parent_dir("a"), None);
    assert_eq!(file_name("/a/b/c.js"), "c.js");
    assert_eq!(extension("/a/b/c.js"), Some("js".to_string()));
    assert_eq!(extension("/a/b/c"), None);
    assert_eq!(extension("/a/b/.rc"), None);
    assert_eq!(join_under("/a/b", "./c.js"), "/a/b/c.js");
    assert_eq!(join_under("/a/b", "../c.js"), "/a/c.js");
    assert_eq!(join_under("/a/b", "/abs/c.js"), "/abs/c.js");
}
