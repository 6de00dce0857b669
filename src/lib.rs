//! Static site core: an indentation outline format shared by a directory
//! reader, a directory materializer and a topic tag hierarchy.
use vstd::prelude::*;

pub mod text;
pub mod outline;
pub mod topics;
pub mod materialize;
pub mod reader;
pub mod util;
pub mod order;
pub mod input;
pub mod site;
pub mod list;
pub mod feed;

pub use feed::Feed;
pub use list::{Item, List};
pub use site::{Post, Site};

verus! {

/// The address the site is deployed at by default.
pub const SITE_URL: &'static str = "https://example.com/";

/// The number of entries that a feed keeps.
pub const FEED_LINK_COUNT: usize = 10;

} // verus!
