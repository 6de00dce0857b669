use outline_site::materialize::{classify, materialize, NodeKind, WriteOp};
use outline_site::outline::{Node, Outline};

fn outline(nodes: &[(usize, &str)]) -> Outline {
    Outline {
        nodes: nodes
            .iter()
            .map(|(d, h)| Node { depth: *d, headline: h.to_string() })
            .collect(),
    }
}

fn describe(ops: &[WriteOp]) -> Vec<String> {
    ops.iter()
        .map(|op| match op {
            WriteOp::ClearRoot => "clear".to_string(),
            WriteOp::CreateDir { path } => format!("dir {path}"),
            WriteOp::WriteFile { path, content } => format!("file {path} = {content:?}"),
        })
        .collect()
}

#[test]
fn transparent_node_writes_into_current_dir() {
    let ops = materialize(&outline(&[(0, "_wrapper"), (1, "x.html"), (2, "body")]));
    assert_eq!(describe(&ops), vec!["clear".to_string(), "file x.html = \"body\\n\"".to_string()]);
}

#[test]
fn headline_with_slashes_makes_nested_path() {
    let ops = materialize(&outline(&[(0, "posts"), (1, "2024/foo.html"), (2, "content")]));
    assert_eq!(
        describe(&ops),
        vec![
            "clear".to_string(),
            "dir posts".to_string(),
            "file posts/2024/foo.html = \"content\\n\"".to_string()
        ]
    );
}

#[test]
fn root_is_cleared_first() {
    let ops = materialize(&Outline::new());
    assert_eq!(describe(&ops), vec!["clear".to_string()]);
}

#[test]
fn file_content_is_rendered_children() {
    let ops = materialize(&outline(&[(0, "page.html"), (1, "a"), (2, "b"), (1, "c.d"), (0, "dir"), (1, "f.txt")]));
    assert_eq!(
        describe(&ops),
        vec![
            "clear".to_string(),
            "file page.html = \"a\\n  b\\nc.d\\n\"".to_string(),
            "dir dir".to_string(),
            "file dir/f.txt = \"\"".to_string()
        ]
    );
}

#[test]
fn nested_directories_and_transparent_levels() {
    let ops = materialize(&outline(&[(0, "a"), (1, "_g"), (2, "b"), (3, "i.html"), (4, "x"), (0, "c")]));
    assert_eq!(
        describe(&ops),
        vec![
            "clear".to_string(),
            "dir a".to_string(),
            "dir a/b".to_string(),
            "file a/b/i.html = \"x\\n\"".to_string(),
            "dir c".to_string()
        ]
    );
}

#[test]
fn headlines_are_classified() {
    assert_eq!(classify("x.html"), NodeKind::File);
    assert_eq!(classify("_posts"), NodeKind::Transparent);
    assert_eq!(classify("_a.b"), NodeKind::File);
    assert_eq!(classify("posts"), NodeKind::Directory);
    assert_eq!(classify(""), NodeKind::Directory);
}
