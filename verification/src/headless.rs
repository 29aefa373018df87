//! Runs without a screen: what the command line asks for, following a redirect
//! chain, and what is printed.

use std::time::Duration;

use vstd::prelude::*;

use crate::dom::Dom;
use crate::lines::{Line, Span, SpanView};
use crate::msg::Msg;
use crate::text::{owned, same};
use crate::views::views;

verus! {

broadcast use crate::views::group_views;

/// Column width of a text dump. Fixed: output that moved with the window could
/// not be searched.
pub const DUMP_TEXT_WIDTH: u16 = 80;

/// What a run without a screen prints.
#[derive(Clone, Copy, PartialEq, Eq, Debug, Structural)]
pub enum DumpMode {
    /// The body's bytes.
    Body,
    /// The parsed tree.
    Tree,
    /// The laid-out text.
    Text,
    /// The layout's boxes.
    Boxes,
    /// What the page's scripts did.
    Scripts,
    /// How long each stage took.
    Timing,
}

/// What the command line asks for.
#[allow(inconsistent_fields)]
#[derive(Debug, PartialEq, Eq)]
pub enum Command {
    /// It asks for something that cannot be done.
    Usage,
    Headless { mode: DumpMode, url: String },
    /// The browser itself. `crash` asks for a deliberate panic.
    Screen { url: Option<String>, crash: bool },
}

/// The value of a [`Command`].
#[allow(inconsistent_fields)]
pub enum CommandView {
    Usage,
    Headless { mode: DumpMode, url: Seq<char> },
    Screen { url: Option<Seq<char>>, crash: bool },
}

impl View for Command {
    type V = CommandView;

    open spec fn view(&self) -> CommandView {
        match self {
            Command::Usage => CommandView::Usage,
            Command::Headless { mode, url } => CommandView::Headless { mode: *mode, url: url@ },
            Command::Screen { url, crash } => CommandView::Screen {
                url: match url {
                    Some(u) => Some(u@),
                    None => None,
                },
                crash: *crash,
            },
        }
    }
}

/// An argument that starts with two dashes.
pub open spec fn is_flag(arg: Seq<char>) -> bool {
    arg.len() >= 2 && arg[0] == '-' && arg[1] == '-'
}

/// The first argument that is no flag.
pub open spec fn first_plain(args: Seq<Seq<char>>, i: int) -> Option<Seq<char>>
    decreases args.len() - i,
{
    if i >= args.len() {
        None
    } else if is_flag(args[i]) {
        first_plain(args, i + 1)
    } else {
        Some(args[i])
    }
}

/// One flag, counted.
pub open spec fn asked(args: Seq<Seq<char>>, flag: Seq<char>) -> int {
    if args.contains(flag) {
        1
    } else {
        0
    }
}

/// What the arguments mean. A run without a screen needs exactly one mode and
/// something to fetch.
pub open spec fn command_of(args: Seq<Seq<char>>) -> CommandView {
    let body = asked(args, "--dump"@);
    let tree = asked(args, "--dump-dom"@);
    let text = asked(args, "--dump-text"@);
    let boxes = asked(args, "--dump-boxes"@);
    let scripts = asked(args, "--dump-js"@);
    let timing = asked(args, "--timing"@);
    let modes = body + tree + text + boxes + scripts + timing;
    let url = first_plain(args, 0);
    if modes == 0 {
        CommandView::Screen { url, crash: args.contains("--panic"@) }
    } else if modes > 1 || url is None {
        CommandView::Usage
    } else {
        CommandView::Headless {
            mode: if body == 1 {
                DumpMode::Body
            } else if tree == 1 {
                DumpMode::Tree
            } else if text == 1 {
                DumpMode::Text
            } else if boxes == 1 {
                DumpMode::Boxes
            } else if scripts == 1 {
                DumpMode::Scripts
            } else {
                DumpMode::Timing
            },
            url: url->0,
        }
    }
}

fn has_flag(args: &Vec<String>, flag: &str) -> (r: bool)
    ensures
        r == views(args@).contains(flag@),
{
    let mut i: usize = 0;
    while i < args.len()
        invariant
            i <= args@.len(),
            forall|k: int| 0 <= k < i ==> (#[trigger] views(args@)[k]) != flag@,
        decreases args@.len() - i,
    {
        if same(args[i].as_str(), flag) {
            proof {
                assert(views(args@)[i as int] == flag@);
            }
            return true;
        }
        i += 1;
    }
    false
}

fn flag_like(arg: &str) -> (r: bool)
    ensures
        r == is_flag(arg@),
{
    let chars: Vec<char> = crate::text::chars_of(arg);
    chars.len() >= 2 && chars[0] == '-' && chars[1] == '-'
}

fn plain_argument(args: &Vec<String>) -> (r: Option<String>)
    ensures
        match first_plain(views(args@), 0) {
            Some(url) => r matches Some(found) && found@ == url,
            None => r is None,
        },
{
    let mut i: usize = 0;
    while i < args.len()
        invariant
            i <= args@.len(),
            first_plain(views(args@), 0) == first_plain(views(args@), i as int),
        decreases args@.len() - i,
    {
        if !flag_like(args[i].as_str()) {
            return Some(owned(args[i].as_str()));
        }
        i += 1;
    }
    None
}

fn counted(set: bool) -> (r: u8)
    ensures
        r == (if set {
            1int
        } else {
            0
        }),
{
    if set {
        1
    } else {
        0
    }
}

/// Decide what to do, from the arguments after the program's name.
pub fn parse_args(args: &Vec<String>) -> (r: Command)
    ensures
        r@ == command_of(views(args@)),
{
    let body: bool = has_flag(args, "--dump");
    let tree: bool = has_flag(args, "--dump-dom");
    let text: bool = has_flag(args, "--dump-text");
    let boxes: bool = has_flag(args, "--dump-boxes");
    let scripts: bool = has_flag(args, "--dump-js");
    let timing: bool = has_flag(args, "--timing");
    let modes: u8 = counted(body) + counted(tree) + counted(text) + counted(boxes) + counted(
        scripts,
    ) + counted(timing);
    let url: Option<String> = plain_argument(args);
    if modes == 0 {
        return Command::Screen { url, crash: has_flag(args, "--panic") };
    }
    if modes > 1 {
        return Command::Usage;
    }
    match url {
        None => Command::Usage,
        Some(url) => {
            let mode: DumpMode = if body {
                DumpMode::Body
            } else if tree {
                DumpMode::Tree
            } else if text {
                DumpMode::Text
            } else if boxes {
                DumpMode::Boxes
            } else if scripts {
                DumpMode::Scripts
            } else {
                DumpMode::Timing
            };
            Command::Headless { mode, url }
        },
    }
}

/// One redirect that a run followed.
#[derive(Debug, PartialEq, Eq)]
pub struct Hop {
    pub url: String,
    pub to: String,
    pub status: u16,
    pub elapsed: Duration,
    pub set_cookie: Vec<String>,
}

/// What a navigation ended at.
#[derive(Debug, PartialEq, Eq)]
pub struct Loaded {
    pub url: String,
    pub status: u16,
    pub body: Vec<u8>,
    pub elapsed: Duration,
    pub set_cookie: Vec<String>,
}

/// A navigation in progress: the hops so far, and how many it may take.
#[derive(Debug, PartialEq, Eq)]
pub struct Chain {
    pub hops: Vec<Hop>,
    pub limit: u32,
}

/// What to do after a message.
#[derive(Debug, PartialEq, Eq)]
pub enum Step {
    /// The document is here.
    Landed(Loaded),
    /// Keep the newest hop's cookies, then request where it points.
    Follow,
    /// Give up, for this reason.
    Fail(String),
    /// Nothing yet.
    Wait,
}

/// A place and what went wrong there.
pub open spec fn blamed(place: Seq<char>, reason: Seq<char>) -> Seq<char> {
    place + ": "@ + reason
}

fn blame(place: &str, reason: &str) -> (r: String)
    ensures
        r@ == blamed(place@, reason@),
{
    let mut out: String = owned(place);
    out.append(": ");
    out.append(reason);
    out
}

impl Chain {
    pub open spec fn wf(&self) -> bool {
        self.hops@.len() <= self.limit
    }

    pub fn new(limit: u32) -> (r: Chain)
        ensures
            r.wf(),
            r.limit == limit,
            r.hops@.len() == 0,
    {
        Chain { hops: Vec::new(), limit }
    }

    /// Take the next message of the fetch worker. `loop_reason` says what a
    /// chain that is too long has done.
    pub fn step(&mut self, msg: Msg, loop_reason: &str) -> (r: Step)
        requires
            old(self).wf(),
        ensures
            final(self).wf(),
            final(self).limit == old(self).limit,
            match msg {
                Msg::Loaded { url, status, body, elapsed, set_cookie, .. } => {
                    &&& r == Step::Landed((Loaded { url, status, body, elapsed, set_cookie }))
                    &&& final(self).hops@ == old(self).hops@
                },
                Msg::Redirect { url, to, status, elapsed, set_cookie, .. } => {
                    if old(self).hops@.len() >= old(self).limit {
                        &&& r matches Step::Fail(why)
                        &&& why@ == blamed(to@, loop_reason@)
                        &&& final(self).hops@ == old(self).hops@
                    } else {
                        &&& r == Step::Follow
                        &&& final(self).hops@ == old(self).hops@.push(
                            (Hop { url, to, status, elapsed, set_cookie }),
                        )
                    }
                },
                Msg::NetError { url, reason, .. } => {
                    &&& r matches Step::Fail(why)
                    &&& why@ == blamed(url@, reason@)
                    &&& final(self).hops@ == old(self).hops@
                },
                _ => r == Step::Wait && final(self).hops@ == old(self).hops@,
            },
    {
        match msg {
            Msg::Loaded { url, status, body, elapsed, set_cookie, .. } => Step::Landed(
                Loaded { url, status, body, elapsed, set_cookie },
            ),
            Msg::Redirect { url, to, status, elapsed, set_cookie, .. } => {
                if self.hops.len() as u64 >= self.limit as u64 {
                    return Step::Fail(blame(to.as_str(), loop_reason));
                }
                self.hops.push(Hop { url, to, status, elapsed, set_cookie });
                Step::Follow
            },
            Msg::NetError { url, reason, .. } => Step::Fail(blame(url.as_str(), reason.as_str())),
            _ => Step::Wait,
        }
    }

    /// Where a navigation that landed at `landed` was first sent.
    pub fn start_url<'c>(&'c self, landed: &'c Loaded) -> (r: &'c String)
        ensures
            *r == (if self.hops@.len() > 0 {
                self.hops@[0].url
            } else {
                landed.url
            }),
    {
        if self.hops.len() > 0 {
            &self.hops[0].url
        } else {
            &landed.url
        }
    }
}

/// The tree that a message brings, if it is the one that does.
pub fn parsed(msg: Msg) -> (r: Option<(Dom, Duration)>)
    ensures
        r == (match msg {
            Msg::Parsed { dom, elapsed, .. } => Some((dom, elapsed)),
            _ => None,
        }),
{
    match msg {
        Msg::Parsed { dom, elapsed, .. } => Some((dom, elapsed)),
        _ => None,
    }
}

/// The text of the first `n` spans of a line.
pub open spec fn spans_text(spans: Seq<SpanView>, n: int) -> Seq<char>
    decreases n,
{
    if n <= 0 {
        Seq::empty()
    } else {
        spans_text(spans, n - 1) + spans[n - 1].text
    }
}

/// The first `n` lines without their styles, each ended by a newline.
pub open spec fn page_text(lines: Seq<Seq<SpanView>>, n: int) -> Seq<char>
    decreases n,
{
    if n <= 0 {
        Seq::empty()
    } else {
        let line = lines[n - 1];
        page_text(lines, n - 1) + spans_text(line, line.len() as int) + seq!['\n']
    }
}

/// A page's lines as plain text.
pub fn dump_text(lines: &Vec<Line>) -> (r: String)
    ensures
        r@ == page_text(views(lines@), lines@.len() as int),
{
    let mut out: String = String::new();
    let ghost all = views(lines@);
    let mut i: usize = 0;
    proof {
        assert(out@ =~= page_text(all, 0));
    }
    while i < lines.len()
        invariant
            all == views(lines@),
            i <= lines@.len(),
            out@ == page_text(all, i as int),
        decreases lines@.len() - i,
    {
        let spans: &Vec<Span> = &lines[i].spans;
        let ghost start = out@;
        let ghost line = all[i as int];
        let mut k: usize = 0;
        proof {
            assert(line == views(spans@));
            assert(out@ =~= start + spans_text(line, 0));
        }
        while k < spans.len()
            invariant
                line == views(spans@),
                k <= spans@.len(),
                out@ == start + spans_text(line, k as int),
            decreases spans@.len() - k,
        {
            let ghost before = out@;
            out.append(spans[k].text.as_str());
            proof {
                assert(spans@[k as int]@ == line[k as int]);
                assert(out@ =~= start + spans_text(line, k + 1));
            }
            k += 1;
        }
        out.push('\n');
        proof {
            assert(out@ =~= page_text(all, i + 1));
        }
        i += 1;
    }
    out
}

/// A number in decimal.
pub open spec fn decimal(n: nat) -> Seq<char>
    decreases n,
{
    let last = seq![crate::lines::hex_digit((n % 10) as u8)];
    if n < 10 {
        last
    } else {
        decimal(n / 10) + last
    }
}

fn write_decimal(n: usize) -> (r: String)
    ensures
        r@ == decimal(n as nat),
    decreases n,
{
    let mut out: String = if n < 10 {
        String::new()
    } else {
        write_decimal(n / 10)
    };
    out.push(crate::lines::hex_digit((n % 10) as u8));
    proof {
        assert(out@ =~= decimal(n as nat));
    }
    out
}

/// The first `n` entries, each on a line of its own.
pub open spec fn on_lines(entries: Seq<Seq<char>>, n: int) -> Seq<char>
    decreases n,
{
    if n <= 0 {
        Seq::empty()
    } else {
        on_lines(entries, n - 1) + entries[n - 1] + seq!['\n']
    }
}

fn push_lines(out: &mut String, entries: &Vec<String>)
    ensures
        final(out)@ == old(out)@ + on_lines(views(entries@), entries@.len() as int),
{
    let ghost start = out@;
    let ghost all = views(entries@);
    let mut i: usize = 0;
    proof {
        assert(out@ =~= start + on_lines(all, 0));
    }
    while i < entries.len()
        invariant
            all == views(entries@),
            i <= entries@.len(),
            out@ == start + on_lines(all, i as int),
        decreases entries@.len() - i,
    {
        out.append(entries[i].as_str());
        out.push('\n');
        proof {
            assert(out@ =~= start + on_lines(all, i + 1));
        }
        i += 1;
    }
}

/// What a script dump prints: a line for each script, then the console's
/// entries, then how many timers are outstanding, if any.
pub fn dump_scripts(runs: &Vec<String>, console: &Vec<String>, pending: usize) -> (r: String)
    ensures
        r@ == on_lines(views(runs@), runs@.len() as int) + on_lines(
            views(console@),
            console@.len() as int,
        ) + (if pending > 0 {
            "timers pending "@ + decimal(pending as nat) + seq!['\n']
        } else {
            Seq::empty()
        }),
{
    let mut out: String = String::new();
    push_lines(&mut out, runs);
    push_lines(&mut out, console);
    let ghost listed = out@;
    if pending > 0 {
        out.append("timers pending ");
        let count: String = write_decimal(pending);
        out.append(count.as_str());
        out.push('\n');
    }
    proof {
        let tail = if pending > 0 {
            "timers pending "@ + decimal(pending as nat) + seq!['\n']
        } else {
            Seq::empty()
        };
        assert(out@ =~= listed + tail);
        assert(listed =~= on_lines(views(runs@), runs@.len() as int) + on_lines(
            views(console@),
            console@.len() as int,
        ));
    }
    out
}

/// The first argument that is no flag is what is to be fetched.
pub proof fn the_first_plain_argument_is_fetched(args: Seq<Seq<char>>, i: int, k: int)
    requires
        0 <= i <= k < args.len(),
        !is_flag(args[k]),
        forall|j: int| i <= j < k ==> is_flag(#[trigger] args[j]),
    ensures
        first_plain(args, i) == Some(args[k]),
    decreases k - i,
{
    if i < k {
        assert(is_flag(args[i]));
        the_first_plain_argument_is_fetched(args, i + 1, k);
    }
}

/// Arguments that ask for one thing to be written out, and for what to fetch,
/// mean just that, wherever the flag stands; those that ask for two, or for one
/// of nothing, are refused; and those that ask for none are for the screen.
pub proof fn one_flag_is_one_mode(args: Seq<Seq<char>>)
    ensures
        ({
            let body = args.contains("--dump"@);
            let tree = args.contains("--dump-dom"@);
            let text = args.contains("--dump-text"@);
            let boxes = args.contains("--dump-boxes"@);
            let scripts = args.contains("--dump-js"@);
            let timing = args.contains("--timing"@);
            let url = first_plain(args, 0);
            let r = command_of(args);
            let none = !body && !tree && !text && !boxes && !scripts && !timing;
            &&& none ==> r == (CommandView::Screen { url, crash: args.contains("--panic"@) })
            &&& !none && url is None ==> r == CommandView::Usage
            &&& body && (tree || text || boxes || scripts || timing) ==> r == CommandView::Usage
            &&& text && (body || tree || boxes || scripts || timing) ==> r == CommandView::Usage
            &&& boxes && (body || tree || text || scripts || timing) ==> r == CommandView::Usage
            &&& url is Some && body && !tree && !text && !boxes && !scripts && !timing ==> r == (
            CommandView::Headless { mode: DumpMode::Body, url: url->0 })
            &&& url is Some && tree && !body && !text && !boxes && !scripts && !timing ==> r == (
            CommandView::Headless { mode: DumpMode::Tree, url: url->0 })
            &&& url is Some && text && !body && !tree && !boxes && !scripts && !timing ==> r == (
            CommandView::Headless { mode: DumpMode::Text, url: url->0 })
            &&& url is Some && boxes && !body && !tree && !text && !scripts && !timing ==> r == (
            CommandView::Headless { mode: DumpMode::Boxes, url: url->0 })
            &&& url is Some && scripts && !body && !tree && !text && !boxes && !timing ==> r == (
            CommandView::Headless { mode: DumpMode::Scripts, url: url->0 })
            &&& url is Some && timing && !body && !tree && !text && !boxes && !scripts ==> r == (
            CommandView::Headless { mode: DumpMode::Timing, url: url->0 })
        }),
{
}

} // verus!
