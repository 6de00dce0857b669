use outline_site::util::{normalize_date, tag_set, unslugify, EPOCH};

#[test]
fn unslugify_capitalizes_and_spaces() {
    assert_eq!(unslugify("post-title"), "Post title");
    assert_eq!(unslugify("a"), "A");
    assert_eq!(unslugify("-x"), " x");
}

#[test]
fn normalize_date_fills_from_epoch() {
    assert_eq!(normalize_date("1984-03"), "1984-03-01T00:00:00Z");
    assert_eq!(normalize_date("1984"), "1984-01-01T00:00:00Z");
    assert_eq!(normalize_date(""), EPOCH);
    assert_eq!(normalize_date("2001-02-03T04:05:06Z"), "2001-02-03T04:05:06Z");
    assert_eq!(normalize_date("2001-02-03T04:05:06Z+extra"), "2001-02-03T04:05:06Z+extra");
}

#[test]
fn tag_set_lists_parents() {
    assert_eq!(tag_set("a/b/c"), vec!["a/b/c", "a", "a/b"]);
    assert_eq!(tag_set("plain"), vec!["plain"]);
}
