use outline_site::materialize::{materialize, WriteOp};
use outline_site::outline::Outline;
use outline_site::reader::{is_content_file, read_walk, split_file_name, WalkEntry};

fn dir(depth: usize, name: &str) -> WalkEntry {
    WalkEntry { depth, is_dir: true, name: name.to_string(), content: String::new() }
}

fn file(depth: usize, name: &str, content: &str) -> WalkEntry {
    WalkEntry { depth, is_dir: false, name: name.to_string(), content: content.to_string() }
}

#[test]
fn directory_reads_to_outline() {
    let entries = vec![dir(0, "root"), dir(1, "a"), file(2, "b.md", "hello\n")];
    let text = read_walk(&entries);
    assert_eq!(text, "a\n  b\n    hello\n");
    let o = Outline::parse(&text).ok().unwrap();
    let ns: Vec<(usize, String)> = o.nodes.iter().map(|n| (n.depth, n.headline.clone())).collect();
    assert_eq!(ns, vec![(0, "a".to_string()), (1, "b".to_string()), (2, "hello".to_string())]);
    assert_eq!(o.render(), text);
}

#[test]
fn tabs_nest_lines() {
    let entries = vec![dir(0, "root"), file(1, "post.idm", "title\n\tsub\n\t\tsubsub\nback\n")];
    assert_eq!(read_walk(&entries), "post\n  title\n    sub\n      subsub\n  back\n");
}

#[test]
fn other_files_are_skipped() {
    let entries = vec![dir(0, "root"), file(1, "image.png", "binary"), file(1, "notes.txt", "x"), dir(1, "d")];
    assert_eq!(read_walk(&entries), "d\n");
}

#[test]
fn carriage_returns_are_dropped() {
    let entries = vec![dir(0, "root"), file(1, "a.md", "one\r\ntwo\r\n")];
    assert_eq!(read_walk(&entries), "a\n  one\n  two\n");
}

#[test]
fn empty_file_has_no_lines() {
    let entries = vec![dir(0, "root"), file(1, "a.md", "")];
    assert_eq!(read_walk(&entries), "a\n");
}

#[test]
fn file_names_split_at_last_period() {
    assert_eq!(split_file_name("b.md"), ("b".to_string(), Some("md".to_string())));
    assert_eq!(split_file_name("x.html.md"), ("x.html".to_string(), Some("md".to_string())));
    assert_eq!(split_file_name("README"), ("README".to_string(), None));
    assert_eq!(split_file_name(".hidden"), (".hidden".to_string(), None));
    assert_eq!(split_file_name("end."), ("end".to_string(), Some("".to_string())));
}

#[test]
fn content_files_are_idm_and_md() {
    assert!(is_content_file("a.idm"));
    assert!(is_content_file("a.md"));
    assert!(!is_content_file("a.mdx"));
    assert!(!is_content_file(".md"));
    assert!(!is_content_file("md"));
}

#[test]
fn file_with_dotted_stem_round_trips_through_materialize() {
    let entries = vec![dir(0, "root"), dir(1, "posts"), file(2, "page.html.md", "first\nsecond\n")];
    let o = Outline::parse(&read_walk(&entries)).ok().unwrap();
    let writes: Vec<(String, String)> = materialize(&o)
        .into_iter()
        .filter_map(|op| match op {
            WriteOp::WriteFile { path, content } => Some((path, content)),
            _ => None,
        })
        .collect();
    assert_eq!(writes, vec![("posts/page.html".to_string(), "first\nsecond\n".to_string())]);
}

#[test]
fn unread_files_anywhere_leave_no_trace() {
    let plain = vec![dir(0, "root"), dir(1, "a"), file(2, "b.md", "x\n")];
    let with_others = vec![
        dir(0, "root"),
        file(1, "top.bin", "\u{0}\u{1}"),
        dir(1, "a"),
        file(2, "c.txt", "ignored\n"),
        file(2, "b.md", "x\n"),
        file(2, "z.jpg", ""),
    ];
    assert_eq!(read_walk(&with_others), read_walk(&plain));
}
