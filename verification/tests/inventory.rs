use dirsync::inventory::{modified_millis, remote_key};
use dirsync::model::LocalEntry;

#[test]
fn key_is_the_relative_path_behind_a_slash() {
    assert_eq!(remote_key("a.txt"), "/a.txt");
    assert_eq!(remote_key("dir/sub/b.bin"), "/dir/sub/b.bin");
    assert_eq!(remote_key(""), "/");
}

#[test]
fn milliseconds_are_truncated() {
    assert_eq!(modified_millis(0, 0), Some(0));
    assert_eq!(modified_millis(1, 999_999), Some(1000));
    assert_eq!(modified_millis(1, 1_000_000), Some(1001));
    assert_eq!(modified_millis(1, 999_999_999), Some(1999));
    assert_eq!(modified_millis(1_700_000_000, 123_456_789), Some(1_700_000_000_123));
}

#[test]
fn milliseconds_that_do_not_fit_are_none() {
    assert_eq!(modified_millis(u64::MAX, 0), None);
    assert_eq!(modified_millis(u64::MAX / 1000, 615_000_000), Some(u64::MAX));
    assert_eq!(modified_millis(u64::MAX / 1000, 616_000_000), None);
    assert_eq!(modified_millis(u64::MAX / 1000 + 1, 0), None);
}

#[test]
fn media_type_is_guessed_from_the_key() {
    assert_eq!(LocalEntry::new("/index.html".to_string(), 1, 2).content_type, "text/html");
    assert_eq!(LocalEntry::new("/a.txt".to_string(), 1, 2).content_type, "text/plain");
    assert_eq!(LocalEntry::new("/pic.PNG".to_string(), 1, 2).content_type, "image/png");
    assert_eq!(LocalEntry::new("/app.js".to_string(), 1, 2).content_type, "text/javascript");
    assert_eq!(LocalEntry::new("/noextension".to_string(), 1, 2).content_type, "text/plain");
    assert_eq!(LocalEntry::new("/x.unknownext".to_string(), 1, 2).content_type, "text/plain");
}

#[test]
fn new_entry_keeps_what_it_is_given() {
    let e = LocalEntry::new("/a.json".to_string(), 12, 34);
    assert_eq!(e.key, "/a.json");
    assert_eq!(e.size, 12);
    assert_eq!(e.modified_at_millis, 34);
    assert_eq!(e.content_type, "application/json");
    let f = LocalEntry::with_content_type("/a.json".to_string(), 12, 34, "x/y".to_string());
    assert_eq!(f.key, "/a.json");
    assert_eq!(f.size, 12);
    assert_eq!(f.modified_at_millis, 34);
    assert_eq!(f.content_type, "x/y");
}
