//! The pages of a site: posts and the assembled site.
use vstd::prelude::*;
use crate::feed::{Feed, FeedEntry, is_feed, is_item_entry, is_post_entry};
use crate::input::{self, Format, PostHeader, Settings};
use crate::list::{Item, List, all_tags, by_item_date, is_bookmark, is_post_item, tag_cloud, tags_view};
use crate::order::{
    goes_before, is_permutation, is_stable_sort, lemma_sort_origins, lemma_str_lt_total, sort_by_key, str_lt,
};
use crate::topics::{
    TopicClosure, add_topics, build_closure, candidates, closure_of, closure_wf, propagated, redundant_topics,
};
use crate::outline::{Outline, consistent_text, nodes_of_lines, lines_of};
use crate::text::{clone_strings, contains_string, push_str, string_from_chars, strs};
use crate::util::{EPOCH, normalize_date, normalized_date, unslugify, unslugified};

verus! {

/// A blog post page.
pub struct Post {
    pub url: String,
    /// Only used for lists, always empty for posts.
    pub id: String,
    pub slug: String,
    pub title: String,
    pub date: String,
    pub updated: String,
    pub feed_date: String,
    pub tags: Vec<String>,
    pub content: String,
}

/// The HTML that Markdown text renders to.
pub uninterp spec fn markdown_html(text: Seq<char>) -> Seq<char>;

/// Relies on `pulldown_cmark::Parser::new` and `pulldown_cmark::html::push_html`:
/// the HTML of Markdown text, with default options, which depends on the
/// text alone.
#[verifier::external_body]
pub(crate) fn render_markdown(text: &str) -> (r: String)
    ensures
        r@ == markdown_html(text@),
{
    let mut html = String::new();
    pulldown_cmark::html::push_html(&mut html, pulldown_cmark::Parser::new(text));
    html
}

/// The markup that opens node `i` of an outline list: a new list where the
/// node is the first of its siblings, then the list item.
pub open spec fn outline_open(s: Seq<(nat, Seq<char>)>, i: int) -> Seq<char> {
    (if i == 0 || s[i].0 > s[i - 1].0 {
        "<ul class='outline'>"@
    } else {
        Seq::empty()
    }) + if s[i].1.len() == 0 {
        "<li><br/>"@
    } else {
        "<li>"@ + s[i].1
    }
}

/// `n` copies of `t`.
pub open spec fn repeated(t: Seq<char>, n: nat) -> Seq<char>
    decreases n,
{
    if n == 0 {
        Seq::empty()
    } else {
        repeated(t, (n - 1) as nat) + t
    }
}

/// The markup that closes node `i` of an outline list, unless its children
/// follow: the list item, then each list that ends with it, with the item
/// around that list.
pub open spec fn outline_close(s: Seq<(nat, Seq<char>)>, i: int) -> Seq<char> {
    if i + 1 < s.len() && s[i + 1].0 > s[i].0 {
        Seq::empty()
    } else if i + 1 < s.len() {
        "</li>"@ + repeated("</ul></li>"@, (s[i].0 - s[i + 1].0) as nat)
    } else {
        "</li>"@ + repeated("</ul></li>"@, s[i].0) + "</ul>"@
    }
}

/// The HTML of the first `n` nodes of an outline as nested lists.
pub open spec fn outline_html(s: Seq<(nat, Seq<char>)>, n: int) -> Seq<char>
    decreases n,
{
    if n <= 0 {
        Seq::empty()
    } else {
        outline_html(s, n - 1) + outline_open(s, n - 1) + outline_close(s, n - 1)
    }
}

/// Appends `n` copies of `t` to `out`.
fn push_repeated(out: &mut Vec<char>, t: &str, n: usize)
    ensures
        final(out)@ == old(out)@ + repeated(t@, n as nat),
{
    let ghost start = out@;
    let mut k: usize = 0;
    while k < n
        invariant
            k <= n,
            out@ == start + repeated(t@, k as nat),
        decreases n - k,
    {
        push_str(out, t);
        k = k + 1;
        assert(out@ =~= start + repeated(t@, k as nat));
    }
}

/// Appends the markup that opens node `i`.
fn push_open(out: &mut Vec<char>, o: &Outline, i: usize)
    requires
        i < o.nodes.len(),
    ensures
        final(out)@ == old(out)@ + outline_open(o@, i as int),
{
    let ghost start = out@;
    let d = o.nodes[i].depth;
    let opens = i == 0 || d > o.nodes[i - 1].depth;
    if opens {
        push_str(out, "<ul class='outline'>");
    }
    let ghost mid = out@;
    let h = o.nodes[i].headline.as_str();
    if h.is_empty() {
        push_str(out, "<li><br/>");
    } else {
        push_str(out, "<li>");
        push_str(out, h);
    }
    assert(out@ =~= start + outline_open(o@, i as int));
}

/// Appends the markup that closes node `i`.
fn push_close(out: &mut Vec<char>, o: &Outline, i: usize)
    requires
        i < o.nodes.len(),
    ensures
        final(out)@ == old(out)@ + outline_close(o@, i as int),
{
    let ghost start = out@;
    let d = o.nodes[i].depth;
    if i + 1 < o.nodes.len() {
        let next = o.nodes[i + 1].depth;
        if next <= d {
            push_str(out, "</li>");
            push_repeated(out, "</ul></li>", d - next);
            assert(out@ =~= start + outline_close(o@, i as int));
        } else {
            assert(out@ =~= start + outline_close(o@, i as int));
        }
    } else {
        push_str(out, "</li>");
        push_repeated(out, "</ul></li>", d);
        push_str(out, "</ul>");
        assert(out@ =~= start + outline_close(o@, i as int));
    }
}

/// The HTML of an outline as nested lists; nothing for an empty one.
fn push_outline(out: &mut Vec<char>, o: &Outline)
    ensures
        final(out)@ == old(out)@ + outline_html(o@, o@.len() as int),
{
    let ghost start = out@;
    let n = o.nodes.len();
    let mut i: usize = 0;
    while i < n
        invariant
            n == o@.len(),
            i <= n,
            out@ == start + outline_html(o@, i as int),
        decreases n - i,
    {
        push_open(out, o, i);
        push_close(out, o, i);
        assert(out@ =~= start + outline_html(o@, i + 1));
        i = i + 1;
    }
}

/// `p` is the page of the post with `slug`, header `data` and `body`, carrying
/// the tags `tags`.
pub open spec fn is_post_page(
    p: Post,
    settings: Settings,
    slug: Seq<char>,
    data: PostHeader,
    body: Seq<char>,
    tags: Seq<Seq<char>>,
) -> bool {
    &&& p.url@ == settings.base_url@ + slug
    &&& p.id@.len() == 0
    &&& p.slug@ == slug
    &&& p.title@ == if data.title@.len() == 0 {
        unslugified(slug)
    } else {
        data.title@
    }
    &&& p.date@ == data.date@
    &&& p.updated@ == data.updated@
    &&& p.feed_date@ == if data.date@.len() > 0 {
        normalized_date(data.date@)
    } else {
        EPOCH@
    }
    &&& strs(p.tags@) == tags
    &&& p.content@ == match data.format {
        Format::Markdown => markdown_html(body),
        Format::Outline => {
            let s = nodes_of_lines(lines_of(body));
            outline_html(s, s.len() as int)
        },
    }
}

impl Post {
    /// The page of a post. The title falls back to one made from the slug;
    /// the feed date is the publication date completed from the epoch, or
    /// the epoch itself; the body is rendered from Markdown, or from an
    /// outline as nested lists.
    pub fn new(settings: &Settings, slug: &str, data: &PostHeader, body: &str) -> (r: Post)
        requires
            data.title@.len() == 0 ==> slug@.len() > 0 && (slug@[0] as u32) < 128,
            data.format == Format::Outline ==> consistent_text(body@),
        ensures
            is_post_page(r, *settings, slug@, *data, body@, strs(data.tags@)),
    {
        let mut url: Vec<char> = Vec::new();
        push_str(&mut url, settings.base_url.as_str());
        push_str(&mut url, slug);
        assert(url@ =~= settings.base_url@ + slug@);
        let title = if data.title.as_str().is_empty() {
            unslugify(slug)
        } else {
            data.title.clone()
        };
        let feed_date = if !data.date.as_str().is_empty() {
            normalize_date(data.date.as_str())
        } else {
            EPOCH.to_owned()
        };
        let content = match data.format {
            Format::Markdown => render_markdown(body),
            Format::Outline => {
                let mut html: Vec<char> = Vec::new();
                match Outline::parse(body) {
                    Ok(o) => {
                        push_outline(&mut html, &o);
                        assert(html@ =~= outline_html(o@, o@.len() as int));
                    },
                    Err(_) => {},
                }
                string_from_chars(&html)
            },
        };
        Post {
            url: string_from_chars(&url),
            id: String::new(),
            slug: slug.to_owned(),
            title,
            date: data.date.clone(),
            updated: data.updated.clone(),
            feed_date,
            tags: clone_strings(&data.tags),
            content,
        }
    }
}

/// The generated site.
pub struct Site {
    /// The post pages, by file name (`<slug>.html`), in order of file name.
    /// The leading underscore keeps the field out of the output paths.
    pub _posts: Vec<(String, Post)>,
    /// The post index, `index.html`.
    pub index: List,
    /// The post feed, `feed.xml`.
    pub feed: Feed,
    /// The bookmark list, `links.html`.
    pub links: List,
    /// The bookmark feed, `feed-links.xml`.
    pub links_feed: Feed,
    /// Topics that items already carried, as (item title, topic).
    pub redundant_topics: Vec<(String, String)>,
    /// Bookmark URLs that occur more than once, at each repeat.
    pub duplicate_links: Vec<String>,
}

/// The views of a list of (title, topic) pairs.
pub open spec fn pairs_view(v: Seq<(String, String)>) -> Seq<(Seq<char>, Seq<char>)> {
    v.map_values(|p: (String, String)| (p.0@, p.1@))
}

/// The redundancy lints of items with titles `titles` and tag lists `lists`
/// under closure `c`: for each item in turn, its title with each topic that
/// its tags already held.
pub open spec fn lints(
    titles: Seq<Seq<char>>,
    lists: Seq<Seq<Seq<char>>>,
    c: Seq<(Seq<char>, Seq<Seq<char>>)>,
) -> Seq<(Seq<char>, Seq<char>)>
    decreases titles.len(),
{
    if titles.len() == 0 || lists.len() == 0 {
        Seq::empty()
    } else {
        let l = lists.last();
        lints(titles.drop_last(), lists.drop_last(), c) + redundant_topics(candidates(c, l), l).map_values(
            |u: Seq<char>| (titles.last(), u),
        )
    }
}

/// The non-empty URLs of `urls` that occur earlier in it, at each repeat.
pub open spec fn repeated_urls(urls: Seq<Seq<char>>) -> Seq<Seq<char>>
    decreases urls.len(),
{
    if urls.len() == 0 {
        Seq::empty()
    } else {
        let p = repeated_urls(urls.drop_last());
        if urls.last().len() > 0 && urls.drop_last().contains(urls.last()) {
            p.push(urls.last())
        } else {
            p
        }
    }
}

/// The titles of pages.
pub open spec fn post_titles(ps: Seq<(String, Post)>) -> Seq<Seq<char>> {
    Seq::new(ps.len(), |k: int| ps[k].1.title@)
}

/// The tag lists of pages.
pub open spec fn post_tag_lists(ps: Seq<(String, Post)>) -> Seq<Seq<Seq<char>>> {
    Seq::new(ps.len(), |k: int| strs(ps[k].1.tags@))
}

/// The titles of items.
pub open spec fn item_titles(v: Seq<Item>) -> Seq<Seq<char>> {
    Seq::new(v.len(), |k: int| v[k].title@)
}

/// The tag lists of items.
pub open spec fn item_tag_lists(v: Seq<Item>) -> Seq<Seq<Seq<char>>> {
    Seq::new(v.len(), |k: int| strs(v[k].tags@))
}

/// The URLs of items.
pub open spec fn item_urls(v: Seq<Item>) -> Seq<Seq<char>> {
    Seq::new(v.len(), |k: int| v[k].url@)
}

/// Pages `a` and `b` agree but for their tags.
pub open spec fn same_but_tags(a: Post, b: Post) -> bool {
    &&& a.url == b.url
    &&& a.id == b.id
    &&& a.slug == b.slug
    &&& a.title == b.title
    &&& a.date == b.date
    &&& a.updated == b.updated
    &&& a.feed_date == b.feed_date
    &&& a.content == b.content
}

/// Items `a` and `b` agree but for their tags.
pub open spec fn item_same_but_tags(a: Item, b: Item) -> bool {
    &&& a.home_url == b.home_url
    &&& a.url == b.url
    &&& a.site == b.site
    &&& a.is_archived == b.is_archived
    &&& a.original == b.original
    &&& a.title == b.title
    &&& a.date == b.date
    &&& a.feed_date == b.feed_date
    &&& a.sequence == b.sequence
    &&& a.preview == b.preview
    &&& a.id == b.id
}

/// The slugs of the source posts are distinct.
pub open spec fn distinct_slugs(posts: Seq<(String, PostHeader, String)>) -> bool {
    forall|i: int, j: int| 0 <= i < posts.len() && 0 <= j < posts.len() && i != j ==> posts[i].0@ != posts[j].0@
}

/// Each source post can be rendered: a post without title has a slug that
/// begins with an ASCII character, and an outline body is consistently
/// indented.
pub open spec fn posts_renderable(posts: Seq<(String, PostHeader, String)>) -> bool {
    forall|k: int| 0 <= k < posts.len() ==> {
        let (slug, data, body) = #[trigger] posts[k];
        &&& data.title@.len() == 0 ==> slug@.len() > 0 && (slug@[0] as u32) < 128
        &&& data.format == Format::Outline ==> consistent_text(body@)
    }
}

/// `ps` holds the page of each source post, named `<slug>.html`, the source
/// post at position `perm[k]` at position `k`, in increasing order of name,
/// each carrying the tags `tags(k)`.
pub open spec fn pages_of(
    site: input::Site,
    ps: Seq<(String, Post)>,
    perm: Seq<int>,
    tags: spec_fn(int) -> Seq<Seq<char>>,
) -> bool {
    &&& is_permutation(perm, site.posts.len() as int)
    &&& ps.len() == site.posts.len()
    &&& forall|k: int| 0 <= k < ps.len() ==> {
        let (slug, data, body) = #[trigger] site.posts@[perm[k]];
        &&& ps[k].0@ == slug@ + ".html"@
        &&& is_post_page(ps[k].1, site.settings, slug@, data, body@, tags(k))
    }
    &&& forall|i: int, j: int| 0 <= i < j < ps.len() ==> str_lt(#[trigger] ps[i].0@, #[trigger] ps[j].0@)
}

/// `items` holds the bookmark entry of each source link, with its canonical
/// URL and website from `link_urls`, the link at position `perm[k]` at
/// position `k`, newest first with links of equal date in source order, each
/// carrying the tags `tags(k)`.
pub open spec fn bookmarks_of(
    site: input::Site,
    link_urls: Seq<(String, String)>,
    items: Seq<Item>,
    perm: Seq<int>,
    tags: spec_fn(int) -> Seq<Seq<char>>,
) -> bool {
    &&& is_permutation(perm, site.links.len() as int)
    &&& items.len() == site.links.len()
    &&& forall|k: int| 0 <= k < items.len() ==> {
        let (title, data, content) = #[trigger] site.links@[perm[k]];
        let (canonical, name) = link_urls[perm[k]];
        is_bookmark(items[k], site.settings, title@, data, content@, canonical@, name@, tags(k))
    }
    &&& forall|i: int, j: int| 0 <= i < j < items.len() ==> !str_lt(#[trigger] items[i].date@, #[trigger] items[j].date@)
    &&& forall|i: int, j: int| 0 <= i < j < items.len() && items[i].date@ == items[j].date@ ==> perm[i] < perm[j]
}

/// The source tags of the posts in the order `perm`.
pub open spec fn post_source_tags(site: input::Site, perm: Seq<int>) -> Seq<Seq<Seq<char>>> {
    Seq::new(perm.len(), |k: int| strs(site.posts@[perm[k]].1.tags@))
}

/// The source tags of the links in the order `perm`.
pub open spec fn link_source_tags(site: input::Site, perm: Seq<int>) -> Seq<Seq<Seq<char>>> {
    Seq::new(perm.len(), |k: int| strs(site.links@[perm[k]].1.tags@))
}

/// `r` is the site built from `site` and `link_urls`, where `c` is the topic
/// closure of the tag hierarchy, `pp` the order of the posts and `pl` the
/// order of the bookmarks.
pub open spec fn site_built(
    site: input::Site,
    link_urls: Seq<(String, String)>,
    r: Site,
    c: Seq<(Seq<char>, Seq<Seq<char>>)>,
    pp: Seq<int>,
    pl: Seq<int>,
) -> bool {
    let base = site.settings.base_url@;
    let name = site.settings.site_name@;
    let author = site.settings.author@;
    &&& closure_of(site.tag_hierarchy@, c)
    // Posts: pages by name, their tags after one propagation pass.
    &&& pages_of(site, r._posts@, pp, |k: int| propagated(c, strs(site.posts@[pp[k]].1.tags@)))
    // The post index: the entries of the final pages, newest first.
    &&& r.index.title@ == name
    &&& r.index.id@ == "posts"@
    &&& r.index.feed_path@ == "feed.xml"@
    &&& exists|ins: Seq<Item>|
        {
            &&& ins.len() == r._posts.len()
            &&& forall|k: int| 0 <= k < ins.len() ==> is_post_item(#[trigger] ins[k], r._posts@[k].1)
            &&& #[trigger] is_stable_sort(r.index.items@, ins, by_item_date(), true)
        }
    &&& tags_view(r.index.tags@) == tag_cloud(all_tags(r.index.items@))
    // Bookmarks: newest first, their tags after one propagation pass; the
    // tag cloud is of their source tags.
    &&& bookmarks_of(site, link_urls, r.links.items@, pl, |k: int| propagated(c, strs(site.links@[pl[k]].1.tags@)))
    &&& r.links.title@ == name + ": Bookmarks"@
    &&& r.links.id@ == "links"@
    &&& r.links.feed_path@ == "feed-links.xml"@
    &&& exists|pre: Seq<Item>|
        {
            &&& pre.len() == r.links.items.len()
            &&& forall|k: int| 0 <= k < pre.len() ==> strs((#[trigger] pre[k]).tags@) == strs(site.links@[pl[k]].1.tags@)
            &&& tags_view(r.links.tags@) == #[trigger] tag_cloud(all_tags(pre))
        }
    // Feeds of the final pages and bookmarks.
    &&& exists|es: Seq<FeedEntry>|
        {
            &&& es.len() == r._posts.len()
            &&& forall|k: int| 0 <= k < es.len() ==> is_post_entry(#[trigger] es[k], r._posts@[k].1)
            &&& #[trigger] is_feed(r.feed, base, name, author, base + "feed.xml"@, es)
        }
    &&& exists|es: Seq<FeedEntry>|
        {
            &&& es.len() == r.links.items.len()
            &&& forall|k: int| 0 <= k < es.len() ==> is_item_entry(#[trigger] es[k], r.links.items@[k])
            &&& #[trigger] is_feed(r.links_feed, base + "links"@, name + ": Bookmarks"@, author, base + "feed-links.xml"@, es)
        }
    // Lints: redundant topics of the posts, then of the bookmarks; repeated
    // bookmark URLs.
    &&& pairs_view(r.redundant_topics@) == lints(post_titles(r._posts@), post_source_tags(site, pp), c) + lints(
        item_titles(r.links.items@),
        link_source_tags(site, pl),
        c,
    )
    &&& strs(r.duplicate_links@) == repeated_urls(item_urls(r.links.items@))
}

/// Appends the text pieces `a` and `b` into a new string.
fn concat(a: &str, b: &str) -> (r: String)
    ensures
        r@ == a@ + b@,
{
    let mut v: Vec<char> = Vec::new();
    push_str(&mut v, a);
    push_str(&mut v, b);
    string_from_chars(&v)
}

proof fn lemma_suffix_cancel(a: Seq<char>, b: Seq<char>, t: Seq<char>)
    requires
        a + t == b + t,
    ensures
        a == b,
{
    assert((a + t).take(a.len() as int) =~= a);
    assert((b + t).take(b.len() as int) =~= b);
}

/// The page of each source post, named `<slug>.html`, in order of name.
fn build_posts(site: &input::Site) -> (r: (Vec<(String, Post)>, Ghost<Seq<int>>))
    requires
        distinct_slugs(site.posts@),
        posts_renderable(site.posts@),
    ensures
        pages_of(*site, r.0@, r.1@, |k: int| strs(site.posts@[r.1@[k]].1.tags@)),
{
    let mut posts: Vec<(String, Post)> = Vec::new();
    let mut keys: Vec<String> = Vec::new();
    let mut i: usize = 0;
    while i < site.posts.len()
        invariant
            posts_renderable(site.posts@),
            i <= site.posts.len(),
            posts.len() == i,
            keys.len() == i,
            forall|k: int| 0 <= k < i ==> #[trigger] keys@[k]@ == posts@[k].0@,
            forall|k: int| 0 <= k < i ==> {
                let (slug, data, body) = #[trigger] site.posts@[k];
                &&& posts@[k].0@ == slug@ + ".html"@
                &&& is_post_page(posts@[k].1, site.settings, slug@, data, body@, strs(data.tags@))
            },
        decreases site.posts.len() - i,
    {
        let entry = &site.posts[i];
        assert(entry == site.posts@[i as int]);
        let p = Post::new(&site.settings, entry.0.as_str(), &entry.1, entry.2.as_str());
        let key = concat(entry.0.as_str(), ".html");
        keys.push(key.clone());
        posts.push((key, p));
        i = i + 1;
    }
    let ghost key_of = |e: (String, Post)| e.0@;
    let ghost pre = posts@;
    let sorted = sort_by_key(posts, keys, Ghost(key_of), false);
    let ghost perm = lemma_sort_origins(sorted@, pre, key_of, false);
    proof {
        assert forall|k: int| 0 <= k < sorted@.len() implies {
            let (slug, data, body) = #[trigger] site.posts@[perm[k]];
            &&& sorted@[k].0@ == slug@ + ".html"@
            &&& is_post_page(sorted@[k].1, site.settings, slug@, data, body@, strs(site.posts@[perm[k]].1.tags@))
        } by {
            assert(0 <= perm[k] < pre.len());
            assert(sorted@[k] == pre[perm[k]]);
        }
        assert forall|i: int, j: int| 0 <= i < j < sorted@.len() implies str_lt(
            #[trigger] sorted@[i].0@,
            #[trigger] sorted@[j].0@,
        ) by {
            assert(!str_lt(key_of(sorted@[j]), key_of(sorted@[i])));
            assert(0 <= perm[i] < pre.len() && 0 <= perm[j] < pre.len() && perm[i] != perm[j]);
            assert(sorted@[i] == pre[perm[i]] && sorted@[j] == pre[perm[j]]);
            if sorted@[i].0@ == sorted@[j].0@ {
                lemma_suffix_cancel(site.posts@[perm[i]].0@, site.posts@[perm[j]].0@, ".html"@);
            }
            lemma_str_lt_total(sorted@[i].0@, sorted@[j].0@);
        }
    }
    (sorted, Ghost(perm))
}

/// One propagation pass over the tags of each page, with the redundancy
/// lints of each page in turn.
fn propagate_posts(posts: &mut Vec<(String, Post)>, closure: &TopicClosure) -> (found: Vec<(String, String)>)
    requires
        closure_wf(closure@),
    ensures
        final(posts).len() == old(posts).len(),
        forall|k: int| 0 <= k < final(posts).len() ==> {
            &&& (#[trigger] final(posts)@[k]).0 == old(posts)@[k].0
            &&& same_but_tags(final(posts)@[k].1, old(posts)@[k].1)
            &&& strs(final(posts)@[k].1.tags@) == propagated(closure@, strs(old(posts)@[k].1.tags@))
        },
        pairs_view(found@) == lints(post_titles(old(posts)@), post_tag_lists(old(posts)@), closure@),
{
    let ghost ps0 = posts@;
    let ghost titles = post_titles(ps0);
    let ghost lists = post_tag_lists(ps0);
    let mut found: Vec<(String, String)> = Vec::new();
    let mut j: usize = 0;
    assert(titles.take(0).len() == 0);
    while j < posts.len()
        invariant
            closure_wf(closure@),
            posts.len() == ps0.len(),
            titles == post_titles(ps0),
            lists == post_tag_lists(ps0),
            j <= posts.len(),
            forall|k: int| j <= k < posts.len() ==> #[trigger] posts@[k] == ps0[k],
            forall|k: int| 0 <= k < j ==> {
                &&& (#[trigger] posts@[k]).0 == ps0[k].0
                &&& same_but_tags(posts@[k].1, ps0[k].1)
                &&& strs(posts@[k].1.tags@) == propagated(closure@, strs(ps0[k].1.tags@))
            },
            pairs_view(found@) == lints(titles.take(j as int), lists.take(j as int), closure@),
        decreases posts.len() - j,
    {
        let ghost before = posts@;
        let red = add_topics(&mut posts[j].1.tags, &closure);
        let title = posts[j].1.title.clone();
        let ghost base = pairs_view(found@);
        let ghost us = strs(red@);
        let mut m: usize = 0;
        assert(base + us.take(0).map_values(|u: Seq<char>| (title@, u)) =~= base);
        while m < red.len()
            invariant
                m <= red.len(),
                us == strs(red@),
                pairs_view(found@) == base + us.take(m as int).map_values(|u: Seq<char>| (title@, u)),
            decreases red.len() - m,
        {
            let pair = (title.clone(), red[m].clone());
            let ghost prev = pairs_view(found@);
            found.push(pair);
            assert(pairs_view(found@) =~= prev.push((title@, us[m as int])));
            assert(us.take(m + 1).map_values(|u: Seq<char>| (title@, u)) =~= us.take(m as int).map_values(
                |u: Seq<char>| (title@, u),
            ).push((title@, us[m as int])));
            m = m + 1;
        }
        proof {
            assert(us.take(m as int) =~= us);
            assert(titles.take(j + 1).drop_last() =~= titles.take(j as int));
            assert(lists.take(j + 1).drop_last() =~= lists.take(j as int));
            assert(titles.take(j + 1).last() == title@);
            assert(lists.take(j + 1).last() == strs(ps0[j as int].1.tags@));
            assert forall|k: int| j < k < posts.len() implies #[trigger] posts@[k] == ps0[k] by {
                assert(posts@[k] == before[k]);
            }
            assert forall|k: int| 0 <= k < j + 1 implies {
                &&& (#[trigger] posts@[k]).0 == ps0[k].0
                &&& same_but_tags(posts@[k].1, ps0[k].1)
                &&& strs(posts@[k].1.tags@) == propagated(closure@, strs(ps0[k].1.tags@))
            } by {
                if k < j {
                    assert(posts@[k] == before[k]);
                }
            }
        }
        j = j + 1;
    }
    assert(titles.take(j as int) =~= titles);
    assert(lists.take(j as int) =~= lists);
    found
}

/// One propagation pass over the tags of each bookmark, with the redundancy
/// lints of each bookmark in turn, and the URLs that repeat an earlier one.
fn propagate_links(items: &mut Vec<Item>, closure: &TopicClosure) -> (r: (Vec<(String, String)>, Vec<String>))
    requires
        closure_wf(closure@),
    ensures
        final(items).len() == old(items).len(),
        forall|k: int| 0 <= k < final(items).len() ==> {
            &&& item_same_but_tags(#[trigger] final(items)@[k], old(items)@[k])
            &&& strs(final(items)@[k].tags@) == propagated(closure@, strs(old(items)@[k].tags@))
        },
        pairs_view(r.0@) == lints(item_titles(old(items)@), item_tag_lists(old(items)@), closure@),
        strs(r.1@) == repeated_urls(item_urls(old(items)@)),
{
    let ghost is0 = items@;
    let ghost titles = item_titles(is0);
    let ghost lists = item_tag_lists(is0);
    let ghost urls = item_urls(is0);
    let mut found: Vec<(String, String)> = Vec::new();
    let mut seen: Vec<String> = Vec::new();
    let mut dups: Vec<String> = Vec::new();
    let mut j: usize = 0;
    assert(urls.take(0) =~= Seq::<Seq<char>>::empty());
    assert(strs(seen@) =~= Seq::<Seq<char>>::empty());
    while j < items.len()
        invariant
            closure_wf(closure@),
            items.len() == is0.len(),
            titles == item_titles(is0),
            lists == item_tag_lists(is0),
            urls == item_urls(is0),
            j <= items.len(),
            forall|k: int| j <= k < items.len() ==> #[trigger] items@[k] == is0[k],
            forall|k: int| 0 <= k < j ==> {
                &&& item_same_but_tags(#[trigger] items@[k], is0[k])
                &&& strs(items@[k].tags@) == propagated(closure@, strs(is0[k].tags@))
            },
            pairs_view(found@) == lints(titles.take(j as int), lists.take(j as int), closure@),
            strs(seen@) == urls.take(j as int),
            strs(dups@) == repeated_urls(urls.take(j as int)),
        decreases items.len() - j,
    {
        let ghost before = items@;
        let url = items[j].url.clone();
        proof {
            assert(urls.take(j + 1).drop_last() =~= urls.take(j as int));
            assert(urls.take(j + 1).last() == url@);
        }
        if !url.as_str().is_empty() && contains_string(&seen, &url) {
            let ghost prev = strs(dups@);
            dups.push(url.clone());
            assert(strs(dups@) =~= prev.push(url@));
        }
        let ghost seen0 = strs(seen@);
        seen.push(url);
        assert(strs(seen@) =~= seen0.push(urls[j as int]));
        assert(urls.take(j + 1) =~= urls.take(j as int).push(urls[j as int]));
        let red = add_topics(&mut items[j].tags, &closure);
        let title = items[j].title.clone();
        let ghost base = pairs_view(found@);
        let ghost us = strs(red@);
        let mut m: usize = 0;
        assert(base + us.take(0).map_values(|u: Seq<char>| (title@, u)) =~= base);
        while m < red.len()
            invariant
                m <= red.len(),
                us == strs(red@),
                pairs_view(found@) == base + us.take(m as int).map_values(|u: Seq<char>| (title@, u)),
            decreases red.len() - m,
        {
            let pair = (title.clone(), red[m].clone());
            let ghost prev = pairs_view(found@);
            found.push(pair);
            assert(pairs_view(found@) =~= prev.push((title@, us[m as int])));
            assert(us.take(m + 1).map_values(|u: Seq<char>| (title@, u)) =~= us.take(m as int).map_values(
                |u: Seq<char>| (title@, u),
            ).push((title@, us[m as int])));
            m = m + 1;
        }
        proof {
            assert(us.take(m as int) =~= us);
            assert(titles.take(j + 1).drop_last() =~= titles.take(j as int));
            assert(lists.take(j + 1).drop_last() =~= lists.take(j as int));
            assert(titles.take(j + 1).last() == title@);
            assert(lists.take(j + 1).last() == strs(is0[j as int].tags@));
            assert forall|k: int| j < k < items.len() implies #[trigger] items@[k] == is0[k] by {
                assert(items@[k] == before[k]);
            }
            assert forall|k: int| 0 <= k < j + 1 implies {
                &&& item_same_but_tags(#[trigger] items@[k], is0[k])
                &&& strs(items@[k].tags@) == propagated(closure@, strs(is0[k].tags@))
            } by {
                if k < j {
                    assert(items@[k] == before[k]);
                }
            }
        }
        j = j + 1;
    }
    assert(titles.take(j as int) =~= titles);
    assert(lists.take(j as int) =~= lists);
    assert(urls.take(j as int) =~= urls);
    (found, dups)
}

impl Site {
    /// Builds the site from its source. `link_urls` gives, for each link, its
    /// canonical URL and the name of its website. Topics of the tag hierarchy
    /// are propagated onto the tags of posts and bookmarks; topics that an
    /// item already carried, and bookmark URLs that repeat, are collected as
    /// lints.
    #[verifier::loop_isolation(false)]
    pub fn from_input(site: input::Site, link_urls: Vec<(String, String)>) -> (r: Site)
        requires
            link_urls.len() == site.links.len(),
            distinct_slugs(site.posts@),
            posts_renderable(site.posts@),
        ensures
            exists|c: Seq<(Seq<char>, Seq<Seq<char>>)>, pp: Seq<int>, pl: Seq<int>|
                #[trigger] site_built(site, link_urls@, r, c, pp, pl),
    {
        let settings = &site.settings;
        let (mut posts, Ghost(pp)) = build_posts(&site);
        let closure = build_closure(&site.tag_hierarchy);
        let ghost c = closure@;
        let ghost posts0 = posts@;
        let mut redundant_topics = propagate_posts(&mut posts, &closure);
        let mut post_items: Vec<Item> = Vec::new();
        let mut post_entries: Vec<FeedEntry> = Vec::new();
        let mut k: usize = 0;
        while k < posts.len()
            invariant
                k <= posts.len(),
                post_items.len() == k,
                post_entries.len() == k,
                forall|i: int| 0 <= i < k ==> is_post_item(#[trigger] post_items@[i], posts@[i].1),
                forall|i: int| 0 <= i < k ==> is_post_entry(#[trigger] post_entries@[i], posts@[i].1),
            decreases posts.len() - k,
        {
            post_items.push(Item::new_post(&posts[k].1));
            post_entries.push(FeedEntry::from_post(&posts[k].1));
            k = k + 1;
        }
        let ghost pis = post_items@;
        let index = List::new(settings.site_name.as_str(), "posts", "feed.xml", post_items);
        let mut link_items: Vec<Item> = Vec::new();
        let mut l: usize = 0;
        while l < site.links.len()
            invariant
                l <= site.links.len(),
                link_urls.len() == site.links.len(),
                link_items.len() == l,
                forall|i: int| 0 <= i < l ==> {
                    let (title, data, content) = #[trigger] site.links@[i];
                    let (canonical, name) = link_urls@[i];
                    is_bookmark(link_items@[i], site.settings, title@, data, content@, canonical@, name@, strs(data.tags@))
                },
            decreases site.links.len() - l,
        {
            let link = &site.links[l];
            let urls = &link_urls[l];
            assert(link == site.links@[l as int]);
            assert(urls == link_urls@[l as int]);
            link_items.push(
                Item::new_bookmark(settings, link.0.as_str(), &link.1, link.2.as_str(), urls.0.as_str(), urls.1.as_str()),
            );
            l = l + 1;
        }
        let bookmarks_title = concat(settings.site_name.as_str(), ": Bookmarks");
        let ghost pre_links = link_items@;
        let mut links = List::new(bookmarks_title.as_str(), "links", "feed-links.xml", link_items);
        let ghost sorted_links = links.items@;
        let ghost pl = lemma_sort_origins(sorted_links, pre_links, by_item_date(), true);
        let (mut link_lints, duplicate_links) = propagate_links(&mut links.items, &closure);
        let mut link_entries: Vec<FeedEntry> = Vec::new();
        let mut e: usize = 0;
        while e < links.items.len()
            invariant
                e <= links.items.len(),
                link_entries.len() == e,
                forall|i: int| 0 <= i < e ==> is_item_entry(#[trigger] link_entries@[i], links.items@[i]),
            decreases links.items.len() - e,
        {
            link_entries.push(FeedEntry::from_item(&links.items[e]));
            e = e + 1;
        }
        let ghost pes = post_entries@;
        let ghost les = link_entries@;
        let feed_file = concat(settings.base_url.as_str(), "feed.xml");
        let feed = Feed::new(
            settings.base_url.as_str(),
            settings.site_name.as_str(),
            settings.author.as_str(),
            feed_file.as_str(),
            post_entries,
        );
        let links_url = concat(settings.base_url.as_str(), "links");
        let links_file = concat(settings.base_url.as_str(), "feed-links.xml");
        let links_feed = Feed::new(
            links_url.as_str(),
            bookmarks_title.as_str(),
            settings.author.as_str(),
            links_file.as_str(),
            link_entries,
        );
        let ghost lp = pairs_view(redundant_topics@);
        let ghost lk = pairs_view(link_lints@);
        redundant_topics.append(&mut link_lints);
        let r = Site { _posts: posts, index, feed, links, links_feed, redundant_topics, duplicate_links };
        proof {
            let tp = |k: int| propagated(c, strs(site.posts@[pp[k]].1.tags@));
            assert forall|k: int| 0 <= k < r._posts@.len() implies {
                let (slug, data, body) = #[trigger] site.posts@[pp[k]];
                &&& r._posts@[k].0@ == slug@ + ".html"@
                &&& is_post_page(r._posts@[k].1, site.settings, slug@, data, body@, tp(k))
            } by {
                assert(strs(posts0[k].1.tags@) == strs(site.posts@[pp[k]].1.tags@));
            }
            assert(pages_of(site, r._posts@, pp, tp));
            assert(post_titles(posts0) =~= post_titles(r._posts@));
            assert(post_tag_lists(posts0) =~= post_source_tags(site, pp));
            let tl = |k: int| propagated(c, strs(site.links@[pl[k]].1.tags@));
            assert forall|k: int| 0 <= k < r.links.items@.len() implies {
                let (title, data, content) = #[trigger] site.links@[pl[k]];
                let (canonical, name) = link_urls@[pl[k]];
                is_bookmark(r.links.items@[k], site.settings, title@, data, content@, canonical@, name@, tl(k))
            } by {
                assert(0 <= pl[k] < pre_links.len());
                assert(sorted_links[k] == pre_links[pl[k]]);
            }
            assert forall|i: int, j: int| 0 <= i < j < r.links.items@.len() implies !str_lt(
                #[trigger] r.links.items@[i].date@,
                #[trigger] r.links.items@[j].date@,
            ) by {
                assert(!goes_before(by_item_date()(sorted_links[j]), by_item_date()(sorted_links[i]), true));
            }
            assert forall|i: int, j: int|
                0 <= i < j < r.links.items@.len() && r.links.items@[i].date@ == r.links.items@[j].date@ implies pl[i]
                < pl[j] by {
                assert(by_item_date()(sorted_links[i]) == by_item_date()(sorted_links[j]));
            }
            assert(bookmarks_of(site, link_urls@, r.links.items@, pl, tl));
            assert forall|k: int| 0 <= k < sorted_links.len() implies strs((#[trigger] sorted_links[k]).tags@) == strs(
                site.links@[pl[k]].1.tags@,
            ) by {
                assert(0 <= pl[k] < pre_links.len());
                assert(sorted_links[k] == pre_links[pl[k]]);
            }
            assert(item_titles(sorted_links) =~= item_titles(r.links.items@));
            assert(item_tag_lists(sorted_links) =~= link_source_tags(site, pl));
            assert(item_urls(sorted_links) =~= item_urls(r.links.items@));
            assert(pairs_view(r.redundant_topics@) =~= lp + lk);
            assert(is_stable_sort(r.index.items@, pis, by_item_date(), true));
            assert(is_feed(r.feed, site.settings.base_url@, site.settings.site_name@, site.settings.author@,
                site.settings.base_url@ + "feed.xml"@, pes));
            assert(is_feed(r.links_feed, site.settings.base_url@ + "links"@, site.settings.site_name@ + ": Bookmarks"@,
                site.settings.author@, site.settings.base_url@ + "feed-links.xml"@, les));
            assert(tags_view(r.links.tags@) == tag_cloud(all_tags(sorted_links)));
            assert(site_built(site, link_urls@, r, c, pp, pl));
        }
        r
    }
}

} // verus!
