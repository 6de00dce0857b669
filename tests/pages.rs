use outline_site::feed::FeedEntry;
use outline_site::input::{Format, LinkHeader, PostHeader, Settings};
use outline_site::outline::{Node, Outline};
use outline_site::{Feed, Item, List, Post, Site, FEED_LINK_COUNT};

fn settings() -> Settings {
    Settings {
        site_name: "Site".to_string(),
        base_url: "https://example.com/".to_string(),
        author: "Me".to_string(),
    }
}

fn header(title: &str, date: &str, tags: &[&str], format: Format) -> PostHeader {
    PostHeader {
        title: title.to_string(),
        date: date.to_string(),
        updated: String::new(),
        tags: tags.iter().map(|s| s.to_string()).collect(),
        format,
    }
}

fn link(uri: &str, mirror: Option<&str>, added: &str, date: &str) -> LinkHeader {
    LinkHeader {
        uri: uri.to_string(),
        mirror: mirror.map(|s| s.to_string()),
        added: added.to_string(),
        date: date.to_string(),
        tags: vec!["t".to_string()],
        sequence: Vec::new(),
    }
}

fn item(title: &str, date: &str, tags: &[&str]) -> Item {
    let p = Post::new(&settings(), title, &header(title, date, tags, Format::Markdown), "");
    Item::new_post(&p)
}

#[test]
fn post_from_header() {
    let p = Post::new(&settings(), "my-post", &header("", "2020-05", &["a"], Format::Markdown), "*hi*");
    assert_eq!(p.url, "https://example.com/my-post");
    assert_eq!(p.title, "My post");
    assert_eq!(p.feed_date, "2020-05-01T00:00:00Z");
    assert_eq!(p.tags, vec!["a".to_string()]);
    assert_eq!(p.content, "<p><em>hi</em></p>\n");
    assert!(p.id.is_empty());
}

#[test]
fn post_without_date_uses_epoch() {
    let p = Post::new(&settings(), "x", &header("Title", "", &[], Format::Markdown), "");
    assert_eq!(p.title, "Title");
    assert_eq!(p.feed_date, "1970-01-01T00:00:00Z");
}

#[test]
fn outline_post_renders_nested_lists() {
    let p = Post::new(&settings(), "x", &header("T", "", &[], Format::Outline), "a\n  b\n\nc\n");
    assert_eq!(
        p.content,
        "<ul class='outline'><li>a<ul class='outline'><li>b</li></ul></li><li><br/></li><li>c</li></ul>"
    );
    let empty = Post::new(&settings(), "x", &header("T", "", &[], Format::Outline), "");
    assert_eq!(empty.content, "");
}

#[test]
fn item_of_post() {
    let it = item("slug", "2021", &["x"]);
    assert_eq!(it.url, "slug");
    assert_eq!(it.id, "slug");
    assert_eq!(it.tags, vec!["x".to_string()]);
    assert!(!it.is_external());
}

#[test]
fn external_items() {
    let mut it = item("slug", "2021", &[]);
    it.url = "https://a.org/".to_string();
    assert!(it.is_external());
    it.url = "http://a.org/".to_string();
    assert!(it.is_external());
    it.url = "ftp://a.org/".to_string();
    assert!(!it.is_external());
}

#[test]
fn list_orders_newest_first_and_counts_tags() {
    let items = vec![item("a", "2001", &["x"]), item("b", "2003", &["y", "x"]), item("c", "2001", &["y"])];
    let l = List::new("Title", "posts", "feed.xml", items);
    let order: Vec<&str> = l.items.iter().map(|i| i.url.as_str()).collect();
    assert_eq!(order, vec!["b", "a", "c"]);
    let cloud: Vec<(&str, usize)> = l.tags.iter().map(|t| (t.name.as_str(), t.count)).collect();
    assert_eq!(cloud, vec![("y", 2), ("x", 2)]);
    assert_eq!(l.title, "Title");
    assert_eq!(l.feed_path, "feed.xml");
}

#[test]
fn feed_keeps_latest_entries() {
    let entries: Vec<FeedEntry> = (0..15)
        .map(|i| FeedEntry {
            title: format!("e{i}"),
            link: String::new(),
            updated: format!("2000-01-{:02}", 15 - i),
            content: String::new(),
        })
        .collect();
    let f = Feed::new("https://example.com/", "T", "A", "feed.xml", entries);
    assert_eq!(f.entries.len(), FEED_LINK_COUNT);
    assert_eq!(f.entries[0].title, "e9");
    assert_eq!(f.entries[9].title, "e0");
    assert_eq!(f.updated, "2000-01-15");
    assert_eq!(f.feed_link, "https://example.com/feed.xml");
    assert_eq!(f.link, "https://example.com/");
}

#[test]
fn empty_feed_is_updated_at_epoch() {
    let f = Feed::new("u", "T", "A", "f", Vec::new());
    assert!(f.entries.is_empty());
    assert_eq!(f.updated, "1970-01-01T00:00:00Z");
}

#[test]
fn bookmark_feed_entry_summary() {
    let mut it = item("slug", "2021", &["a", "b"]);
    it.url = "https://x.org/".to_string();
    it.site = "x.org".to_string();
    it.title = "X".to_string();
    let e = FeedEntry::from_item(&it);
    assert_eq!(e.content, "<a href='https://x.org/'>X</a> (x.org)<br/>2021 a, b");
    assert_eq!(e.updated, it.feed_date);
}

#[test]
fn bookmark_marks_pdf_and_hashes_canonical_url() {
    let data = link("https://a.org/paper.pdf", None, "", "2019");
    let it = Item::new_bookmark(&settings(), "Paper", &data, "note", "", "a.org");
    assert_eq!(it.title, "Paper (pdf)");
    assert_eq!(it.id, "1B2M2Y8AsgTpgAmY7PhCfg");
    assert_eq!(it.home_url, "https://example.com/links#1B2M2Y8AsgTpgAmY7PhCfg");
    assert!(it.is_archived);
    assert_eq!(it.url, "https://a.org/paper.pdf");
    assert_eq!(it.original, "");
    assert_eq!(it.feed_date, "2019-01-01T00:00:00Z");
    assert_eq!(it.preview, "<p>note</p>\n");
    let titled = Item::new_bookmark(&settings(), "Paper (pdf)", &data, "", "https://a.org/paper.pdf", "a.org");
    assert_eq!(titled.title, "Paper (pdf)");
    assert!(!titled.is_archived);
}

#[test]
fn bookmark_mirror_and_doi() {
    let mirrored = link("https://paywall.org/a", Some("https://mirror.org/a"), "2020-02", "2019");
    let it = Item::new_bookmark(&settings(), "A", &mirrored, "", "https://paywall.org/a", "paywall.org");
    assert_eq!(it.url, "https://mirror.org/a");
    assert_eq!(it.original, "https://paywall.org/a");
    assert_eq!(it.feed_date, "2020-02-01T00:00:00Z");
    let doi = link("https://doi.org/10.1/x", None, "", "");
    let it = Item::new_bookmark(&settings(), "D", &doi, "", "https://doi.org/10.1/x", "doi.org");
    assert_eq!(it.url, "https://sci-hub.se/https://doi.org/10.1/x");
    assert_eq!(it.original, "https://doi.org/10.1/x");
    assert_eq!(it.feed_date, "1970-01-01T00:00:00Z");
}

#[test]
fn site_is_assembled_with_topics() {
    let input = outline_site::input::Site {
        posts: vec![
            ("b-post".to_string(), header("", "2002", &["topology"], Format::Markdown), "x".to_string()),
            ("a-post".to_string(), header("A", "2001", &[], Format::Markdown), "y".to_string()),
        ],
        links: vec![
            ("L1".to_string(), link("https://u.org/", None, "", "2000"), String::new()),
            ("L2".to_string(), link("https://u.org/", None, "", "2000"), String::new()),
        ],
        tag_hierarchy: Outline {
            nodes: vec![
                Node { depth: 0, headline: "math".to_string() },
                Node { depth: 1, headline: "topology".to_string() },
                Node { depth: 0, headline: "t".to_string() },
            ],
        },
        settings: settings(),
    };
    let urls = vec![
        ("https://u.org/".to_string(), "u.org".to_string()),
        ("https://u.org/".to_string(), "u.org".to_string()),
    ];
    let site = Site::from_input(input, urls);
    let keys: Vec<&str> = site._posts.iter().map(|(k, _)| k.as_str()).collect();
    assert_eq!(keys, vec!["a-post.html", "b-post.html"]);
    assert_eq!(site._posts[1].1.tags, vec!["math".to_string(), "topology".to_string()]);
    assert_eq!(site._posts[1].1.title, "B post");
    assert_eq!(site.index.items[0].url, "b-post");
    assert_eq!(site.links.title, "Site: Bookmarks");
    assert_eq!(site.duplicate_links, vec!["https://u.org/".to_string()]);
    assert!(site.redundant_topics.is_empty());
    assert_eq!(site.feed.feed_link, "https://example.com/https://example.com/feed.xml");
    assert_eq!(site.links_feed.link, "https://example.com/links");
    assert_eq!(site.feed.updated, "2002-01-01T00:00:00Z");
    assert_eq!(site.index.items[0].tags, vec!["math".to_string(), "topology".to_string()]);
    assert_eq!(site.index.id, "posts");
    assert_eq!(site.index.feed_path, "feed.xml");
    assert_eq!(site.links.id, "links");
    assert_eq!(site.links.feed_path, "feed-links.xml");
    assert_eq!(site.links.items[0].title, "L1");
    assert_eq!(site.links.items[1].title, "L2");
    assert_eq!(site.feed.entries.len(), 2);
    assert_eq!(site.links_feed.entries.len(), 2);
}

#[test]
fn site_collects_redundant_topics() {
    let input = outline_site::input::Site {
        posts: vec![("p".to_string(), header("P", "2002", &["math", "topology"], Format::Markdown), String::new())],
        links: vec![("L".to_string(), link("https://u.org/", None, "", "2000"), String::new())],
        tag_hierarchy: Outline {
            nodes: vec![
                Node { depth: 0, headline: "math".to_string() },
                Node { depth: 1, headline: "topology".to_string() },
                Node { depth: 0, headline: "x".to_string() },
                Node { depth: 1, headline: "t".to_string() },
            ],
        },
        settings: settings(),
    };
    let site = Site::from_input(input, vec![("https://u.org/".to_string(), String::new())]);
    assert_eq!(site._posts[0].1.tags, vec!["math".to_string(), "topology".to_string()]);
    assert_eq!(site.redundant_topics, vec![("P".to_string(), "math".to_string())]);
    assert_eq!(site.links.items[0].tags, vec!["x".to_string(), "t".to_string()]);
    assert_eq!(site.links.tags[0].name, "t");
    assert!(site.duplicate_links.is_empty());
}
