use outline_site::outline::{Node, Outline};

fn outline(nodes: &[(usize, &str)]) -> Outline {
    Outline {
        nodes: nodes
            .iter()
            .map(|(d, h)| Node { depth: *d, headline: h.to_string() })
            .collect(),
    }
}

fn nodes(o: &Outline) -> Vec<(usize, String)> {
    o.nodes.iter().map(|n| (n.depth, n.headline.clone())).collect()
}

#[test]
fn render_indents_two_spaces_per_level() {
    let o = outline(&[(0, "a"), (1, "b"), (2, "c"), (0, "d")]);
    assert_eq!(o.render(), "a\n  b\n    c\nd\n");
}

#[test]
fn render_empty_outline() {
    assert_eq!(Outline::new().render(), "");
}

#[test]
fn parse_nested_lines() {
    let o = Outline::parse("a\n  b\n    c\nd\n").ok().unwrap();
    assert_eq!(
        nodes(&o),
        vec![(0, "a".to_string()), (1, "b".to_string()), (2, "c".to_string()), (0, "d".to_string())]
    );
}

#[test]
fn parse_without_final_newline() {
    let o = Outline::parse("a\n  b").ok().unwrap();
    assert_eq!(nodes(&o), vec![(0, "a".to_string()), (1, "b".to_string())]);
}

#[test]
fn parse_empty_text() {
    let o = Outline::parse("").ok().unwrap();
    assert!(o.nodes.is_empty());
}

#[test]
fn parse_keeps_empty_lines_as_headlines() {
    let o = Outline::parse("a\n\nb\n").ok().unwrap();
    assert_eq!(nodes(&o), vec![(0, "a".to_string()), (0, "".to_string()), (0, "b".to_string())]);
}

#[test]
fn parse_rejects_odd_indentation() {
    let e = Outline::parse("a\n  b\n   c\n").err().unwrap();
    assert_eq!(e.line, 3);
}

#[test]
fn parse_rejects_indented_first_line() {
    let e = Outline::parse("  a\nb\n").err().unwrap();
    assert_eq!(e.line, 1);
}

#[test]
fn parse_deeper_line_is_a_child() {
    let o = Outline::parse("a\n      b\n  c\nd\n").ok().unwrap();
    assert_eq!(
        nodes(&o),
        vec![(0, "a".to_string()), (1, "b".to_string()), (1, "c".to_string()), (0, "d".to_string())]
    );
}

#[test]
fn parse_closes_scopes_to_lesser_indent() {
    let o = Outline::parse("a\n    b\n  c\n").ok().unwrap();
    assert_eq!(nodes(&o), vec![(0, "a".to_string()), (1, "b".to_string()), (1, "c".to_string())]);
}

#[test]
fn parse_of_render_gives_back_outline() {
    let o = outline(&[(0, "x"), (1, "y z"), (2, ""), (1, "w."), (0, "_v"), (1, "u")]);
    let back = Outline::parse(&o.render()).ok().unwrap();
    assert_eq!(nodes(&back), nodes(&o));
}

#[test]
fn parents_by_position() {
    let o = outline(&[(0, "a"), (1, "b"), (2, "c"), (1, "d"), (0, "e")]);
    assert_eq!(o.parents(), vec![None, Some(0), Some(1), Some(0), None]);
}

#[test]
fn parse_drops_trailing_whitespace() {
    let o = Outline::parse("a  \n  b\t\r\n").ok().unwrap();
    assert_eq!(nodes(&o), vec![(0, "a".to_string()), (1, "b".to_string())]);
}
