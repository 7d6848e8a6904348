//! A post of the feed and the pages that carry posts.

use vstd::prelude::*;

verus! {

/// A tag attached to a post: a category of the feed, or anything else.
#[derive(Clone, Copy, Debug, PartialEq, Eq, Structural)]
pub enum Tag {
    Category { category_id: usize },
    Other,
}

/// The links under which a post is shared.
#[derive(Clone, Debug)]
pub struct ShareUrls {
    pub copy_url: String,
}

/// A post as the feed delivers it.
#[derive(Clone, Debug)]
pub struct Post {
    pub id: usize,
    pub project_update_heading: String,
    pub tags: Vec<Tag>,
    pub share_urls: ShareUrls,
}

/// What a post holds, as plain values.
pub struct PostView {
    pub id: usize,
    pub heading: Seq<char>,
    pub tags: Seq<Tag>,
    pub link: Seq<char>,
}

impl View for Post {
    type V = PostView;

    open spec fn view(&self) -> PostView {
        PostView {
            id: self.id,
            heading: self.project_update_heading@,
            tags: self.tags@,
            link: self.share_urls.copy_url@,
        }
    }
}

/// Where a page stands in the feed.
#[derive(Clone, Copy, Debug, PartialEq, Eq, Structural)]
pub struct PageMeta {
    pub current_page: usize,
    pub last_page: usize,
}

/// One page of the feed: its items, newest first, and where it stands.
#[derive(Clone, Debug)]
pub struct PageResponse<T> {
    pub data: Vec<T>,
    pub meta: PageMeta,
}

impl PageMeta {
    /// Whether the page is the feed's last.
    pub open spec fn spec_is_last(&self) -> bool {
        self.current_page == self.last_page
    }

    /// Whether the page is the feed's last.
    pub fn is_last(&self) -> (r: bool)
        ensures
            r == self.spec_is_last(),
    {
        self.current_page == self.last_page
    }
}

} // verus!
