//! Lists of items: the post index and the bookmark list.
use vstd::prelude::*;
use crate::order::{is_stable_sort, sort_by_key};
use crate::input::{LinkHeader, Settings};
use crate::site::{Post, markdown_html, render_markdown};
use crate::text::{clone_strings, has_prefix, has_suffix, push_str, string_from_chars, strs};
use crate::util::{EPOCH, normalize_date, normalized_date};

verus! {

/// One entry of a list page.
pub struct Item {
    /// URL to local site's bookmark list.
    pub home_url: String,
    /// URL of the item.
    pub url: String,
    /// Item URL's website; empty for local links.
    pub site: String,
    /// Whether the URL is an archive link and the original is presumably no
    /// longer accessible.
    pub is_archived: bool,
    /// Original URL in case it's not usable and main link is a mirror.
    pub original: String,
    /// Title of the target page.
    pub title: String,
    /// Publication date of item.
    pub date: String,
    /// Date that the item has in a feed.
    pub feed_date: String,
    /// List of tags for the item.
    pub tags: Vec<String>,
    /// Sequence of subsequent URLs for a multi-part sequence item.
    pub sequence: Vec<String>,
    /// Optional note text in HTML.
    pub preview: String,
    /// Local anchor ID.
    pub id: String,
}

/// The key by which lists are ordered: the date of an item.
pub open spec fn by_item_date() -> spec_fn(Item) -> Seq<char> {
    |it: Item| it.date@
}

/// A tag of a tag cloud, with the number of times the listed items carry it.
pub struct Tag {
    pub name: String,
    pub count: usize,
}

/// A list page.
pub struct List {
    pub title: String,
    /// Identifier for the page template to deactivate the banner link to
    /// this list.
    pub id: String,
    pub feed_path: String,
    pub items: Vec<Item>,
    /// Tag cloud.
    pub tags: Vec<Tag>,
}

/// All tags of all items, item by item.
pub open spec fn all_tags(items: Seq<Item>) -> Seq<Seq<char>>
    decreases items.len(),
{
    if items.len() == 0 {
        Seq::empty()
    } else {
        all_tags(items.drop_last()) + strs(items.last().tags@)
    }
}

/// The distinct elements of `s`, in order of first appearance.
pub open spec fn distinct(s: Seq<Seq<char>>) -> Seq<Seq<char>>
    decreases s.len(),
{
    if s.len() == 0 {
        Seq::empty()
    } else {
        let p = distinct(s.drop_last());
        if p.contains(s.last()) {
            p
        } else {
            p.push(s.last())
        }
    }
}

/// The number of occurrences of `t` in `s`.
pub open spec fn count_of(s: Seq<Seq<char>>, t: Seq<char>) -> nat
    decreases s.len(),
{
    if s.len() == 0 {
        0
    } else {
        count_of(s.drop_last(), t) + if s.last() == t {
            1nat
        } else {
            0nat
        }
    }
}

/// A count as kept in a `usize`: it stops growing at the largest value.
pub open spec fn capped(n: nat) -> nat {
    if n > usize::MAX {
        usize::MAX as nat
    } else {
        n
    }
}

/// The tag cloud of a sequence of tags: each distinct tag in order of first
/// appearance, with its number of occurrences.
pub open spec fn tag_cloud(s: Seq<Seq<char>>) -> Seq<(Seq<char>, nat)> {
    distinct(s).map_values(|t: Seq<char>| (t, capped(count_of(s, t))))
}

/// The views of a sequence of tags.
pub open spec fn tags_view(v: Seq<Tag>) -> Seq<(Seq<char>, nat)> {
    v.map_values(|t: Tag| (t.name@, t.count as nat))
}

/// The MD5 digest of the UTF-8 bytes of a text.
pub uninterp spec fn md5_digest_of(text: Seq<char>) -> Seq<u8>;

/// Relies on `md5::compute`: the digest of the text's UTF-8 bytes, which
/// depends on the text alone and has sixteen bytes.
#[verifier::external_body]
fn md5_digest(text: &str) -> (r: Vec<u8>)
    ensures
        r@ == md5_digest_of(text@),
        r@.len() == 16,
{
    md5::compute(text).0.to_vec()
}

/// The URL-safe Base64 text of some bytes.
pub uninterp spec fn base64_url_of(bytes: Seq<u8>) -> Seq<char>;

/// Relies on `base64_url::encode`: the URL-safe Base64 encoding, without
/// padding, which depends on the bytes alone and has four characters for
/// each three bytes, rounded up.
#[verifier::external_body]
fn base64_url_encode(bytes: &Vec<u8>) -> (r: String)
    ensures
        r@ == base64_url_of(bytes@),
        r@.len() == (4 * bytes@.len() + 2) / 3,
{
    base64_url::encode(bytes)
}

/// The title of a bookmark: links that look like PDF files are marked, unless
/// the title already says so.
pub open spec fn bookmark_title(title: Seq<char>, data: LinkHeader) -> Seq<char> {
    let pdf = ".pdf"@.is_suffix_of(data.uri@) || (data.mirror matches Some(m) && ".pdf"@.is_suffix_of(m@));
    if pdf && !".pdf"@.is_suffix_of(title) && !" (pdf)"@.is_suffix_of(title) {
        title + " (pdf)"@
    } else {
        title
    }
}

/// The date of a bookmark in a feed: when it was added, else when it was
/// published, each completed from the epoch; else the epoch.
pub open spec fn bookmark_feed_date(data: LinkHeader) -> Seq<char> {
    if data.added@.len() > 0 {
        normalized_date(data.added@)
    } else if data.date@.len() > 0 {
        normalized_date(data.date@)
    } else {
        EPOCH@
    }
}

/// `it` is the list entry of the bookmark with `title`, header `data` and note
/// `content`, whose canonical URL is `canonical_url` on website `site`,
/// carrying the tags `tags`.
pub open spec fn is_bookmark(
    it: Item,
    settings: Settings,
    title: Seq<char>,
    data: LinkHeader,
    content: Seq<char>,
    canonical_url: Seq<char>,
    site: Seq<char>,
    tags: Seq<Seq<char>>,
) -> bool {
    &&& it.title@ == bookmark_title(title, data)
    &&& it.is_archived == (canonical_url != data.uri@)
    &&& it.site@ == site
    &&& it.id@ == base64_url_of(md5_digest_of(canonical_url))
    &&& it.home_url@ == settings.base_url@ + "links#"@ + it.id@
    &&& data.mirror matches Some(m) ==> it.url@ == m@ && it.original@ == data.uri@
    &&& data.mirror is None && site == "doi.org"@ ==> it.url@ == "https://sci-hub.se/"@ + data.uri@
        && it.original@ == data.uri@
    &&& data.mirror is None && site != "doi.org"@ ==> it.url@ == data.uri@ && it.original@.len() == 0
    &&& it.date@ == data.date@
    &&& it.feed_date@ == bookmark_feed_date(data)
    &&& strs(it.tags@) == tags
    &&& strs(it.sequence@) == strs(data.sequence@)
    &&& it.preview@ == markdown_html(content)
}

/// `it` is the list entry of post `p`.
pub open spec fn is_post_item(it: Item, p: Post) -> bool {
    &&& it.url@ == p.slug@
    &&& it.title@ == p.title@
    &&& it.date@ == p.date@
    &&& it.feed_date@ == p.feed_date@
    &&& strs(it.tags@) == strs(p.tags@)
    &&& it.id@ == p.slug@
    &&& it.home_url@.len() == 0
    &&& it.site@.len() == 0
    &&& !it.is_archived
    &&& it.original@.len() == 0
    &&& it.sequence@.len() == 0
    &&& it.preview@.len() == 0
}

impl Item {
    /// The list entry of a bookmark. `canonical_url` is the link's canonical
    /// URL and `site` the name of its website, as the URL heuristics give
    /// them. A mirror replaces the link, as does a Sci-Hub link for a DOI;
    /// the original is then kept aside. The anchor ID is the Base64 of the
    /// MD5 digest of the canonical URL.
    pub fn new_bookmark(
        settings: &Settings,
        title: &str,
        data: &LinkHeader,
        content: &str,
        canonical_url: &str,
        site: &str,
    ) -> (r: Item)
        ensures
            is_bookmark(r, *settings, title@, *data, content@, canonical_url@, site@, strs(data.tags@)),
    {
        let pdf = has_suffix(data.uri.as_str(), ".pdf") || match &data.mirror {
            Some(m) => has_suffix(m.as_str(), ".pdf"),
            None => false,
        };
        let mut t: Vec<char> = Vec::new();
        push_str(&mut t, title);
        if pdf && !has_suffix(title, ".pdf") && !has_suffix(title, " (pdf)") {
            push_str(&mut t, " (pdf)");
        }
        let is_archived = !(canonical_url.to_owned() == data.uri);
        let (url, original) = match &data.mirror {
            Some(m) => (m.clone(), data.uri.clone()),
            None => {
                if site.to_owned() == "doi.org".to_owned() {
                    let mut u: Vec<char> = Vec::new();
                    push_str(&mut u, "https://sci-hub.se/");
                    push_str(&mut u, data.uri.as_str());
                    (string_from_chars(&u), data.uri.clone())
                } else {
                    (data.uri.clone(), String::new())
                }
            },
        };
        let id = base64_url_encode(&md5_digest(canonical_url));
        let mut home: Vec<char> = Vec::new();
        push_str(&mut home, settings.base_url.as_str());
        push_str(&mut home, "links#");
        push_str(&mut home, id.as_str());
        let feed_date = if !data.added.as_str().is_empty() {
            normalize_date(data.added.as_str())
        } else if !data.date.as_str().is_empty() {
            normalize_date(data.date.as_str())
        } else {
            EPOCH.to_owned()
        };
        Item {
            home_url: string_from_chars(&home),
            url,
            site: site.to_owned(),
            is_archived,
            original,
            title: string_from_chars(&t),
            date: data.date.clone(),
            feed_date,
            tags: clone_strings(&data.tags),
            sequence: clone_strings(&data.sequence),
            preview: render_markdown(content),
            id,
        }
    }

    /// The list entry of a post.
    pub fn new_post(post: &Post) -> (r: Item)
        ensures
            is_post_item(r, *post),
    {
        Item {
            home_url: String::new(),
            url: post.slug.clone(),
            site: String::new(),
            is_archived: false,
            original: String::new(),
            title: post.title.clone(),
            date: post.date.clone(),
            feed_date: post.feed_date.clone(),
            tags: clone_strings(&post.tags),
            sequence: Vec::new(),
            preview: String::new(),
            id: post.slug.clone(),
        }
    }

    /// Whether the item links to another site.
    pub fn is_external(&self) -> (r: bool)
        ensures
            r == ("http://"@.is_prefix_of(self.url@) || "https://"@.is_prefix_of(self.url@)),
    {
        has_prefix(self.url.as_str(), "http://") || has_prefix(self.url.as_str(), "https://")
    }
}

/// Adds the tags `ts` to the tag cloud `cloud`.
fn count_tags(cloud: &mut Vec<Tag>, ts: &Vec<String>, Ghost(seen): Ghost<Seq<Seq<char>>>)
    requires
        tags_view(old(cloud)@) == tag_cloud(seen),
    ensures
        tags_view(final(cloud)@) == tag_cloud(seen + strs(ts@)),
{
    let mut i: usize = 0;
    assert(seen + strs(ts@).take(0) =~= seen);
    while i < ts.len()
        invariant
            i <= ts.len(),
            tags_view(cloud@) == tag_cloud(seen + strs(ts@).take(i as int)),
        decreases ts.len() - i,
    {
        let ghost s0 = seen + strs(ts@).take(i as int);
        let ghost s1 = seen + strs(ts@).take(i + 1);
        let ghost t = ts@[i as int]@;
        assert(s1.drop_last() =~= s0);
        assert(s1.last() == t);
        let ghost c0 = tags_view(cloud@);
        let mut k: usize = 0;
        while k < cloud.len() && cloud[k].name != ts[i]
            invariant
                i < ts.len(),
                t == ts@[i as int]@,
                k <= cloud.len(),
                tags_view(cloud@) == c0,
                forall|m: int| 0 <= m < k ==> cloud@[m].name@ != t,
            decreases cloud.len() - k,
        {
            k = k + 1;
        }
        proof {
            assert(s1 =~= s0.push(t));
            lemma_distinct_counts(s0, s1, t);
        }
        if k < cloud.len() {
            assert(cloud@[k as int].name@ == t);
            assert(c0[k as int].0 == t);
            assert(c0.len() == distinct(s0).len());
            assert(c0[k as int] == (t, capped(count_of(s0, t))));
            assert(distinct(s0).contains(t)) by {
                assert(distinct(s0)[k as int] == t);
            }
            let c = cloud[k].count;
            let ghost cl0 = cloud@;
            if c < usize::MAX {
                cloud[k].count = c + 1;
            }
            proof {
                lemma_distinct_facts(s0, t);
                let d = distinct(s0);
                assert forall|m: int| 0 <= m < d.len() implies #[trigger] tags_view(cloud@)[m] == tag_cloud(s1)[m] by {
                    if m != k {
                        assert(d[m] != d[k as int]);
                        assert(cloud@[m] == cl0[m]);
                        assert(c0.len() == cl0.len());
                        assert(tags_view(cl0)[m] == c0[m]);
                        assert(tags_view(cloud@)[m] == tags_view(cl0)[m]);
                    }
                }
            }
            assert(tags_view(cloud@) =~= tag_cloud(s1));
        } else {
            assert(c0 == tag_cloud(s0));
            assert(c0.len() == distinct(s0).len());
            assert(c0.len() == cloud.len());
            assert(!distinct(s0).contains(t)) by {
                if distinct(s0).contains(t) {
                    let m = choose|m: int| 0 <= m < distinct(s0).len() && distinct(s0)[m] == t;
                    assert(c0[m].0 == t);
                    assert(tags_view(cloud@)[m].0 == cloud@[m].name@);
                }
            }
            let ghost cl0 = cloud@;
            assert(tags_view(cl0) == c0);
            assert(cl0.len() == distinct(s0).len());
            cloud.push(Tag { name: ts[i].clone(), count: 1 });
            proof {
                lemma_distinct_facts(s0, t);
                let d = distinct(s0);
                assert forall|m: int| 0 <= m < d.len() + 1 implies #[trigger] tags_view(cloud@)[m] == tag_cloud(s1)[m] by {
                    if m < d.len() {
                        assert(d[m] != t) by {
                            if d[m] == t {
                                assert(d.contains(t));
                            }
                        }
                        assert(cloud@[m] == cl0[m]);
                        assert(c0.len() == cl0.len());
                        assert(tags_view(cl0)[m] == c0[m]);
                        assert(tags_view(cloud@)[m] == tags_view(cl0)[m]);
                    }
                }
            }
            assert(tags_view(cloud@) =~= tag_cloud(s1));
        }
        i = i + 1;
    }
    assert(strs(ts@).take(i as int) =~= strs(ts@));
}

proof fn lemma_distinct_facts(s: Seq<Seq<char>>, t: Seq<char>)
    ensures
        distinct(s).no_duplicates(),
        !distinct(s).contains(t) ==> count_of(s, t) == 0,
    decreases s.len(),
{
    if s.len() > 0 {
        lemma_distinct_facts(s.drop_last(), t);
        let p = distinct(s.drop_last());
        if !p.contains(s.last()) {
            assert(p.push(s.last()).last() == s.last());
            assert forall|i: int, j: int| 0 <= i < p.push(s.last()).len() && 0 <= j < p.push(s.last()).len() && i != j
                implies p.push(s.last())[i] != p.push(s.last())[j] by {
                if i < p.len() && j < p.len() {
                } else if i == p.len() {
                    assert(p[j] == p.push(s.last())[j]);
                } else {
                    assert(p[i] == p.push(s.last())[i]);
                }
            }
            if !distinct(s).contains(t) {
                assert(s.last() != t) by {
                    assert(distinct(s)[p.len() as int] == s.last());
                }
                assert(!p.contains(t)) by {
                    if p.contains(t) {
                        let q = choose|q: int| 0 <= q < p.len() && p[q] == t;
                        assert(distinct(s)[q] == t);
                    }
                }
            }
        }
    }
}

/// Appending `t` to `s0` adds one to its count and leaves the other counts.
proof fn lemma_distinct_counts(s0: Seq<Seq<char>>, s1: Seq<Seq<char>>, t: Seq<char>)
    requires
        s1 == s0.push(t),
    ensures
        count_of(s1, t) == count_of(s0, t) + 1,
        forall|u: Seq<char>| u != t ==> count_of(s1, u) == count_of(s0, u),
        distinct(s1) == if distinct(s0).contains(t) { distinct(s0) } else { distinct(s0).push(t) },
{
    assert(s1.drop_last() =~= s0);
}

impl List {
    /// A list page of `items`, newest first (items with equal dates keep
    /// their order), with the tag cloud of their tags.
    pub fn new(title: &str, id: &str, feed_path: &str, items: Vec<Item>) -> (r: List)
        ensures
            r.title@ == title@,
            r.id@ == id@,
            r.feed_path@ == feed_path@,
            is_stable_sort(r.items@, items@, by_item_date(), true),
            tags_view(r.tags@) == tag_cloud(all_tags(r.items@)),
    {
        let mut keys: Vec<String> = Vec::new();
        let mut i: usize = 0;
        while i < items.len()
            invariant
                i <= items.len(),
                keys.len() == i,
                forall|k: int| 0 <= k < i ==> #[trigger] keys@[k]@ == items@[k].date@,
            decreases items.len() - i,
        {
            keys.push(items[i].date.clone());
            i = i + 1;
        }
        let sorted = sort_by_key(items, keys, Ghost(by_item_date()), true);
        let mut cloud: Vec<Tag> = Vec::new();
        let mut j: usize = 0;
        assert(sorted@.take(0) =~= Seq::<Item>::empty());
        assert(tags_view(cloud@) =~= tag_cloud(all_tags(sorted@.take(0))));
        while j < sorted.len()
            invariant
                j <= sorted.len(),
                tags_view(cloud@) == tag_cloud(all_tags(sorted@.take(j as int))),
            decreases sorted.len() - j,
        {
            count_tags(&mut cloud, &sorted[j].tags, Ghost(all_tags(sorted@.take(j as int))));
            assert(sorted@.take(j + 1).drop_last() =~= sorted@.take(j as int));
            j = j + 1;
        }
        assert(sorted@.take(j as int) =~= sorted@);
        List {
            title: title.to_owned(),
            id: id.to_owned(),
            feed_path: feed_path.to_owned(),
            items: sorted,
            tags: cloud,
        }
    }
}

} // verus!
