use outline_site::outline::{Node, Outline};
use outline_site::topics::{add_topics, build_closure};

fn outline(nodes: &[(usize, &str)]) -> Outline {
    Outline {
        nodes: nodes
            .iter()
            .map(|(d, h)| Node { depth: *d, headline: h.to_string() })
            .collect(),
    }
}

fn strings(v: &[&str]) -> Vec<String> {
    v.iter().map(|s| s.to_string()).collect()
}

#[test]
fn closure_and_propagation() {
    let closure = build_closure(&outline(&[(0, "math"), (1, "topology")]));
    assert_eq!(closure.topics_of(&"topology".to_string()), strings(&["math"]));
    let mut tags = strings(&["topology"]);
    let redundant = add_topics(&mut tags, &closure);
    assert_eq!(tags, strings(&["math", "topology"]));
    assert!(redundant.is_empty());
    let mut tags = strings(&["math", "topology"]);
    let redundant = add_topics(&mut tags, &closure);
    assert_eq!(tags, strings(&["math", "topology"]));
    assert_eq!(redundant, strings(&["math"]));
}

#[test]
fn inner_nodes_are_not_tags() {
    let closure = build_closure(&outline(&[(0, "math"), (1, "topology")]));
    assert!(closure.is_tag(&"topology".to_string()));
    assert!(!closure.is_tag(&"math".to_string()));
    assert!(closure.topics_of(&"math".to_string()).is_empty());
}

#[test]
fn closure_takes_whole_ancestor_chain() {
    let closure = build_closure(&outline(&[(0, "science"), (1, "math"), (2, "knots")]));
    assert_eq!(closure.topics_of(&"knots".to_string()), strings(&["math", "science"]));
    let mut tags = strings(&["knots"]);
    add_topics(&mut tags, &closure);
    assert_eq!(tags, strings(&["math", "science", "knots"]));
}

#[test]
fn closure_unions_occurrences() {
    let closure = build_closure(&outline(&[(0, "math"), (1, "logic"), (0, "philosophy"), (1, "logic")]));
    assert_eq!(closure.topics_of(&"logic".to_string()), strings(&["math", "philosophy"]));
}

#[test]
fn empty_hierarchy_changes_nothing() {
    let closure = build_closure(&Outline::new());
    let mut tags = strings(&["a", "b"]);
    let redundant = add_topics(&mut tags, &closure);
    assert_eq!(tags, strings(&["a", "b"]));
    assert!(redundant.is_empty());
}

#[test]
fn new_topics_are_staged_once_in_discovery_order() {
    let closure = build_closure(&outline(&[(0, "m"), (1, "x"), (1, "y"), (0, "n"), (1, "y")]));
    let mut tags = strings(&["x", "y"]);
    add_topics(&mut tags, &closure);
    assert_eq!(tags, strings(&["m", "n", "x", "y"]));
}
