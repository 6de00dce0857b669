//! Atom feeds of posts and bookmarks.
use vstd::prelude::*;
use crate::list::Item;
use crate::order::{is_stable_sort, sort_by_key};
use crate::site::Post;
use crate::text::{joined, push_joined, push_str, string_from_chars, strs};
use crate::util::EPOCH;
use crate::FEED_LINK_COUNT;

verus! {

/// One entry of a feed.
pub struct FeedEntry {
    pub title: String,
    pub link: String,
    pub updated: String,
    pub content: String,
}

/// An Atom feed.
pub struct Feed {
    pub title: String,
    pub author: String,
    pub updated: String,
    pub link: String,
    pub feed_link: String,
    pub entries: Vec<FeedEntry>,
}

/// The entries that a feed keeps of its date-ordered entries: the last
/// `FEED_LINK_COUNT`.
pub open spec fn latest_entries(s: Seq<FeedEntry>) -> Seq<FeedEntry> {
    if s.len() > FEED_LINK_COUNT {
        s.skip(s.len() - FEED_LINK_COUNT)
    } else {
        s
    }
}

/// The HTML summary of a bookmark in a feed.
pub open spec fn item_summary(it: Item) -> Seq<char> {
    "<a href='"@ + it.url@ + "'>"@ + it.title@ + "</a> ("@ + it.site@ + ")<br/>"@ + it.date@ + " "@
        + joined(strs(it.tags@), ", "@)
}

/// `e` is the feed entry of bookmark `it`.
pub open spec fn is_item_entry(e: FeedEntry, it: Item) -> bool {
    &&& e.title@ == it.title@
    &&& e.link@ == it.home_url@
    &&& e.updated@ == it.feed_date@
    &&& e.content@ == item_summary(it)
}

/// `e` is the feed entry of post `p`.
pub open spec fn is_post_entry(e: FeedEntry, p: Post) -> bool {
    &&& e.title@ == p.title@
    &&& e.link@ == p.url@
    &&& e.updated@ == p.feed_date@
    &&& e.content@.len() == 0
}

/// `f` is the feed at `base_url` with `title` and `author`, found at
/// `base_url` followed by `filename`, of the latest `FEED_LINK_COUNT` of
/// `entries` by update date, oldest first; it was updated when its newest
/// entry was, or at the epoch when it has none.
pub open spec fn is_feed(
    f: Feed,
    base_url: Seq<char>,
    title: Seq<char>,
    author: Seq<char>,
    filename: Seq<char>,
    entries: Seq<FeedEntry>,
) -> bool {
    &&& f.title@ == title
    &&& f.author@ == author
    &&& f.link@ == base_url
    &&& f.feed_link@ == base_url + filename
    &&& exists|s: Seq<FeedEntry>|
        is_stable_sort(s, entries, |e: FeedEntry| e.updated@, false) && f.entries@ == latest_entries(s)
    &&& f.updated@ == if f.entries.len() == 0 {
        EPOCH@
    } else {
        f.entries@.last().updated@
    }
}

impl FeedEntry {
    /// The feed entry of a bookmark.
    pub fn from_item(value: &Item) -> (r: FeedEntry)
        ensures
            is_item_entry(r, *value),
    {
        let mut c: Vec<char> = Vec::new();
        push_str(&mut c, "<a href='");
        push_str(&mut c, value.url.as_str());
        push_str(&mut c, "'>");
        push_str(&mut c, value.title.as_str());
        push_str(&mut c, "</a> (");
        push_str(&mut c, value.site.as_str());
        push_str(&mut c, ")<br/>");
        push_str(&mut c, value.date.as_str());
        push_str(&mut c, " ");
        push_joined(&mut c, &value.tags, ", ");
        FeedEntry {
            title: value.title.clone(),
            link: value.home_url.clone(),
            updated: value.feed_date.clone(),
            content: string_from_chars(&c),
        }
    }

    /// The feed entry of a post.
    pub fn from_post(value: &Post) -> (r: FeedEntry)
        ensures
            is_post_entry(r, *value),
    {
        FeedEntry {
            title: value.title.clone(),
            link: value.url.clone(),
            updated: value.feed_date.clone(),
            content: String::new(),
        }
    }
}

impl Feed {
    /// A feed of the latest `FEED_LINK_COUNT` of `entries` by update date,
    /// oldest first, updated when its newest entry was, or at the epoch when
    /// it has none.
    pub fn new(base_url: &str, title: &str, author: &str, filename: &str, entries: Vec<FeedEntry>) -> (r: Feed)
        ensures
            is_feed(r, base_url@, title@, author@, filename@, entries@),
    {
        let mut keys: Vec<String> = Vec::new();
        let mut i: usize = 0;
        while i < entries.len()
            invariant
                i <= entries.len(),
                keys.len() == i,
                forall|k: int| 0 <= k < i ==> #[trigger] keys@[k]@ == entries@[k].updated@,
            decreases entries.len() - i,
        {
            keys.push(entries[i].updated.clone());
            i = i + 1;
        }
        let ghost key = |e: FeedEntry| e.updated@;
        let mut sorted = sort_by_key(entries, keys, Ghost(key), false);
        let ghost all = sorted@;
        let n = sorted.len();
        if n > FEED_LINK_COUNT {
            sorted = sorted.split_off(n - FEED_LINK_COUNT);
            assert(sorted@ =~= all.skip(n - FEED_LINK_COUNT));
        }
        assert(sorted@ == latest_entries(all));
        let updated = if sorted.len() == 0 {
            EPOCH.to_owned()
        } else {
            sorted[sorted.len() - 1].updated.clone()
        };
        let mut fl: Vec<char> = Vec::new();
        push_str(&mut fl, base_url);
        push_str(&mut fl, filename);
        assert(fl@ =~= base_url@ + filename@);
        Feed {
            title: title.to_owned(),
            author: author.to_owned(),
            updated,
            link: base_url.to_owned(),
            feed_link: string_from_chars(&fl),
            entries: sorted,
        }
    }
}

} // verus!
