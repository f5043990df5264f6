//! Story listings and paging: the fixed story lists with their page URLs,
//! pagination windows over item indices, and the item kinds the feed
//! distinguishes.

use vstd::prelude::*;

verus! {

/// How many items a page shows by default.
pub const DEFAULT_NUMBER_OF_ITEMS_PER_PAGE: usize = 10;

/// Available story lists.
#[derive(Clone, Copy, PartialEq, Eq, Structural, Debug)]
pub enum StoryList {
    /// Top stories.
    News,
    /// New stories.
    Newest,
    /// "Ask" stories.
    Ask,
    /// "Show" stories.
    Show,
    /// Job stories.
    Jobs,
    /// Best stories.
    Best,
}

/// The page URL of each story list.
pub open spec fn url_spec(l: StoryList) -> Seq<char> {
    match l {
        StoryList::News => "https://news.ycombinator.com/news"@,
        StoryList::Newest => "https://news.ycombinator.com/newest"@,
        StoryList::Ask => "https://news.ycombinator.com/ask"@,
        StoryList::Show => "https://news.ycombinator.com/show"@,
        StoryList::Jobs => "https://news.ycombinator.com/jobs"@,
        StoryList::Best => "https://news.ycombinator.com/best"@,
    }
}

impl StoryList {
    /// The URL of the page that carries this list.
    pub fn url(&self) -> (r: String)
        ensures
            r@ == url_spec(*self),
    {
        match self {
            StoryList::News => "https://news.ycombinator.com/news".to_owned(),
            StoryList::Newest => "https://news.ycombinator.com/newest".to_owned(),
            StoryList::Ask => "https://news.ycombinator.com/ask".to_owned(),
            StoryList::Show => "https://news.ycombinator.com/show".to_owned(),
            StoryList::Jobs => "https://news.ycombinator.com/jobs".to_owned(),
            StoryList::Best => "https://news.ycombinator.com/best".to_owned(),
        }
    }
}

/// A half-open window `[from, to)` of item indices to show.
#[derive(Clone)]
pub struct PaginationOptions {
    pub from: usize,
    pub to: usize,
}

impl PaginationOptions {
    /// The first page's window.
    pub fn default() -> (r: Self)
        ensures
            r.from == 0,
            r.to == DEFAULT_NUMBER_OF_ITEMS_PER_PAGE,
    {
        Self { from: 0, to: DEFAULT_NUMBER_OF_ITEMS_PER_PAGE }
    }

    /// The same window moved to start at `from`.
    pub fn from(&self, from: usize) -> (r: Self)
        ensures
            r.from == from,
            r.to == self.to,
    {
        Self { from, ..*self }
    }

    /// The same window moved to end before `to`.
    pub fn to(&self, to: usize) -> (r: Self)
        ensures
            r.from == self.from,
            r.to == to,
    {
        Self { to, ..*self }
    }

    /// The window of page number `page`, counted from 1.
    pub fn page(page: usize) -> (r: Self)
        requires
            page >= 1,
            page * DEFAULT_NUMBER_OF_ITEMS_PER_PAGE <= usize::MAX,
        ensures
            r.from == (page - 1) * DEFAULT_NUMBER_OF_ITEMS_PER_PAGE,
            r.to == page * DEFAULT_NUMBER_OF_ITEMS_PER_PAGE,
    {
        Self {
            from: (page - 1) * DEFAULT_NUMBER_OF_ITEMS_PER_PAGE,
            to: page * DEFAULT_NUMBER_OF_ITEMS_PER_PAGE,
        }
    }
}

/// The kinds of item the feed distinguishes.
#[derive(Clone, Copy, PartialEq, Eq, Structural, Debug)]
pub enum Type {
    Job,
    Story,
    Comment,
    Poll,
    PollOpt,
}

/// Keeps a successful result and forgets which error was raised.
pub fn result_to_option<T, E>(result: Result<T, E>) -> (r: Option<T>)
    ensures
        r == (match result {
            Ok(t) => Some(t),
            Err(_) => None::<T>,
        }),
{
    match result {
        Ok(t) => Some(t),
        Err(_) => None,
    }
}

} // verus!
