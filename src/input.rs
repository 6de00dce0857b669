//! The site as it is read from its source directory.
use vstd::prelude::*;
use crate::outline::Outline;

verus! {

/// The format of a post's body.
#[derive(PartialEq, Eq, Structural, Copy, Clone, Debug)]
pub enum Format {
    /// Markdown-formatted post.
    Markdown,
    /// Indented lines outline formatted post.
    Outline,
}

/// The source of the whole site.
pub struct Site {
    /// Blog posts authored by the site owner: slug, header and body, slugs
    /// distinct, in source order.
    pub posts: Vec<(String, PostHeader, String)>,
    /// Links to external sites: title, header and note text.
    pub links: Vec<(String, LinkHeader, String)>,
    /// A tree of topic tags: an item tagged with a tag also gets the tags
    /// above it. With a hierarchy of `math` above `topology`, any item
    /// tagged with `topology` gets a `math` tag too.
    pub tag_hierarchy: Outline,
    pub settings: Settings,
}

/// The header of a post.
pub struct PostHeader {
    /// Title of the post.
    pub title: String,
    /// Date the post was published.
    pub date: String,
    /// Date the post was updated (can be empty).
    pub updated: String,
    /// Topic tags for the post.
    pub tags: Vec<String>,
    /// Format of the post content, which decides how it is turned into HTML.
    pub format: Format,
}

/// The header of a link.
pub struct LinkHeader {
    /// Link URI.
    pub uri: String,
    /// Mirror URL for link, if the canonical URI is paywalled.
    pub mirror: Option<String>,
    /// Date when the link was added to the links list, may be empty.
    pub added: String,
    /// Date when the link's content was originally published.
    pub date: String,
    /// Topic tags for the link.
    pub tags: Vec<String>,
    /// Subsequent URLs if the link refers to a multi-part series.
    pub sequence: Vec<String>,
}

/// Site configuration.
pub struct Settings {
    /// Name of the site.
    pub site_name: String,
    /// Base URL the site is being deployed to.
    pub base_url: String,
    /// Default author for posts.
    pub author: String,
}

} // verus!
