//! What the event loop and its workers say to each other about pages.

use vstd::prelude::*;

verus! {

/// A tab.
#[derive(Clone, Copy, PartialEq, Eq, Debug, Structural)]
pub struct TabId(pub u64);

/// One navigation of one tab. A later navigation of the tab makes it stale.
#[derive(Clone, Copy, PartialEq, Eq, Debug, Structural)]
pub struct PageId {
    pub tab: TabId,
    pub generation: u64,
}

impl PageId {
    #[verifier::allow_in_spec]
    pub fn new(tab: TabId, generation: u64) -> (r: PageId)
        returns
            (PageId { tab, generation }),
    {
        PageId { tab, generation }
    }

    /// A page of a run that has no tabs.
    #[verifier::allow_in_spec]
    pub fn headless(generation: u64) -> (r: PageId)
        returns
            (PageId { tab: TabId(0), generation }),
    {
        PageId { tab: TabId(0), generation }
    }
}

/// How a request is made.
#[derive(Debug, PartialEq, Eq)]
pub enum Method {
    Get,
    /// A form's encoded body.
    Post(Vec<u8>),
}

/// One request for a worker to make.
#[derive(Debug, PartialEq, Eq)]
pub struct Request {
    pub url: String,
    /// The cookies it may carry, as a header value.
    pub cookie: Option<String>,
    pub method: Method,
}

/// A response to a script's own request.
#[derive(Debug, PartialEq, Eq)]
pub struct JsResponse {
    pub status: u16,
    pub ok: bool,
    pub body: String,
}

/// A script's own request.
#[derive(Debug, PartialEq, Eq)]
pub struct JsAsk {
    /// What the page's promise waits on.
    pub request: u64,
    pub ask: Request,
    pub headers: Vec<(String, String)>,
}

/// A stored response.
#[derive(Debug, PartialEq, Eq)]
pub struct CachedResponse {
    pub status: u16,
    pub body: Vec<u8>,
    pub content_type: Option<String>,
}

/// A timer of a page.
#[derive(Clone, Copy, PartialEq, Eq, Debug, Structural)]
pub struct TimerId(pub u64);

/// What a page wants of the timer thread.
#[derive(Clone, Copy, PartialEq, Eq, Debug, Structural)]
pub enum TimerRequest {
    Schedule { page: PageId, id: TimerId, after_ms: u64 },
    Cancel { page: PageId, id: TimerId },
    /// Everything that other pages of the tab scheduled is dead.
    CancelOthers { keep: PageId },
}

} // verus!
