//! Everything the event loop reacts to. Input and workers only send; the loop
//! is the sole receiver.

use std::time::Duration;

use vstd::prelude::*;

use crossterm::event::{KeyEvent, MouseEvent};

use crate::dom::Dom;
use crate::net::{JsResponse, PageId, TimerId};

verus! {

/// `crossterm::event::KeyEvent`, carried through and never looked into.
#[verifier::external_type_specification]
#[verifier::external_body]
pub struct ExKeyEvent(KeyEvent);

/// `crossterm::event::MouseEvent`, carried through and never looked into.
#[verifier::external_type_specification]
#[verifier::external_body]
pub struct ExMouseEvent(MouseEvent);

/// A decoded picture, four bytes to a pixel.
#[derive(Debug, PartialEq, Eq)]
pub struct DecodedImage {
    pub width: u32,
    pub height: u32,
    pub pixels: Vec<u8>,
}

#[allow(inconsistent_fields)]
pub enum Msg {
    Key(KeyEvent),
    Mouse(MouseEvent),
    Resize(u16, u16),
    /// The terminal's input is gone for good; the program must end.
    InputClosed,
    /// The fetch worker has this much of the body.
    Loading { id: PageId, bytes_so_far: u64 },
    /// The final URL after redirects, the status and the raw bytes. Only the
    /// document carries `Set-Cookie` lines: nothing else can start a session.
    Loaded {
        id: PageId,
        url: String,
        status: u16,
        body: Vec<u8>,
        elapsed: Duration,
        content_type: Option<String>,
        set_cookie: Vec<String>,
        /// Cache fields, repeated ones kept apart.
        metadata: Vec<(String, String)>,
    },
    /// One hop of a redirect chain: `url` answered, and points to `to`.
    Redirect {
        id: PageId,
        url: String,
        to: String,
        status: u16,
        elapsed: Duration,
        set_cookie: Vec<String>,
    },
    /// The tree of a loaded body, from the worker that loaded it.
    Parsed { id: PageId, dom: Dom, elapsed: Duration },
    /// One linked stylesheet. `slot` is its position in the document, so that
    /// arrival order never decides a winner. None means that the fetch failed.
    Stylesheet { id: PageId, slot: usize, sheet: Option<String> },
    NetError { id: PageId, url: String, reason: String },
    /// One image decoded, or not. A broken image is never an error page.
    Image { id: PageId, url: String, result: Result<DecodedImage, String> },
    /// One external script. None means that its slot will never run.
    Script { id: PageId, slot: usize, source: Option<String> },
    /// One request of a script's own finished.
    JsFetch { page: PageId, request: u64, result: Result<JsResponse, String> },
    /// A timer's deadline came up.
    Timer { page: PageId, id: TimerId },
    /// Run this page's scripts. The loop sends this to itself after the page is
    /// on screen.
    RunScripts { id: PageId },
}

/// The terminal's own messages, which go to whichever tab is active.
pub open spec fn is_terminal_input(msg: &Msg) -> bool {
    msg is Key || msg is Mouse || msg is Resize || msg is InputClosed
}

impl Msg {
    /// The page that a message is about.
    pub open spec fn address(&self) -> Option<PageId> {
        match self {
            Msg::Loading { id, .. } => Some(*id),
            Msg::Loaded { id, .. } => Some(*id),
            Msg::Redirect { id, .. } => Some(*id),
            Msg::Parsed { id, .. } => Some(*id),
            Msg::Stylesheet { id, .. } => Some(*id),
            Msg::NetError { id, .. } => Some(*id),
            Msg::Image { id, .. } => Some(*id),
            Msg::Script { id, .. } => Some(*id),
            Msg::JsFetch { page, .. } => Some(*page),
            Msg::Timer { page, .. } => Some(*page),
            Msg::RunScripts { id } => Some(*id),
            Msg::Key(_) => None,
            Msg::Mouse(_) => None,
            Msg::Resize(_, _) => None,
            Msg::InputClosed => None,
        }
    }

    /// Stable page address of a worker's or timer's message. Terminal input is
    /// global and has none.
    pub fn page(&self) -> (r: Option<PageId>)
        ensures
            r == self.address(),
            r is None <==> is_terminal_input(self),
    {
        match self {
            Msg::Loading { id, .. } => Some(*id),
            Msg::Loaded { id, .. } => Some(*id),
            Msg::Redirect { id, .. } => Some(*id),
            Msg::Parsed { id, .. } => Some(*id),
            Msg::Stylesheet { id, .. } => Some(*id),
            Msg::NetError { id, .. } => Some(*id),
            Msg::Image { id, .. } => Some(*id),
            Msg::Script { id, .. } => Some(*id),
            Msg::JsFetch { page, .. } => Some(*page),
            Msg::Timer { page, .. } => Some(*page),
            Msg::RunScripts { id } => Some(*id),
            Msg::Key(_) | Msg::Mouse(_) | Msg::Resize(_, _) | Msg::InputClosed => None,
        }
    }
}

} // verus!
