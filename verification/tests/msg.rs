//! Messages and what they ask of the event loop.

use std::time::Duration;

use crossterm::event::{KeyCode, KeyEvent, KeyModifiers};
use yata::batch::{merge, merge_batch, DocumentWork, Effect};
use yata::dom::Dom;
use yata::headless::{
    dump_scripts, dump_text, parse_args, parsed, Chain, Command, DumpMode, Step,
};
use yata::lines::{Line, Span};
use yata::msg::Msg;
use yata::net::{Method, PageId, Request, TabId, TimerId};
use yata::term::Style;

#[test]
fn every_page_originated_message_exposes_its_complete_address() {
    let page = PageId::new(TabId(7), 3);
    let messages = vec![
        Msg::Loading { id: page, bytes_so_far: 1 },
        Msg::Loaded {
            id: page,
            url: "https://x.test/".into(),
            status: 200,
            body: vec![],
            elapsed: Duration::ZERO,
            content_type: None,
            set_cookie: vec![],
            metadata: Default::default(),
        },
        Msg::Redirect {
            id: page,
            url: "https://x.test/".into(),
            to: "https://x.test/y".into(),
            status: 302,
            elapsed: Duration::ZERO,
            set_cookie: vec![],
        },
        Msg::Parsed { id: page, dom: Dom::new(), elapsed: Duration::ZERO },
        Msg::Stylesheet { id: page, slot: 0, sheet: None },
        Msg::NetError { id: page, url: "https://x.test/".into(), reason: "failed".into() },
        Msg::Image { id: page, url: "https://x.test/i.png".into(), result: Err("failed".into()) },
        Msg::Script { id: page, slot: 0, source: None },
        Msg::JsFetch { page, request: 1, result: Err("failed".into()) },
        Msg::Timer { page, id: TimerId(1) },
        Msg::RunScripts { id: page },
    ];
    assert!(messages.iter().all(|message| message.page() == Some(page)));
}

#[test]
fn terminal_input_belongs_to_no_page() {
    let key = KeyEvent::new(KeyCode::Char('j'), KeyModifiers::NONE);
    for message in [Msg::Key(key), Msg::Resize(80, 24), Msg::InputClosed] {
        assert_eq!(message.page(), None);
    }
}

fn request(url: &str) -> Request {
    Request { url: url.to_string(), cookie: None, method: Method::Get }
}

fn fetch(tab: u64, url: &str) -> Effect {
    Effect { fetch: Some((PageId::new(TabId(tab), 1), request(url))), ..Effect::default() }
}

#[test]
fn nothing_asked_is_nothing_to_do() {
    assert_eq!(merge_batch(Vec::new()), Effect::default());
    let dead: Vec<Effect> = (0..200).map(|_| Effect::default()).collect();
    assert_eq!(merge_batch(dead), Effect::default());
}

#[test]
fn a_flood_of_changes_is_one_redraw() {
    let moves: Vec<Effect> = (0..200).map(|_| Effect { dirty: true, ..Effect::default() }).collect();
    let all = merge_batch(moves);
    assert!(all.dirty && !all.quit && all.fetch.is_none());
}

#[test]
fn what_follows_a_quit_is_not_merged() {
    let all = merge_batch(vec![
        Effect { dirty: true, ..Effect::default() },
        Effect { quit: true, ..Effect::default() },
        fetch(1, "https://late.test/"),
    ]);
    assert!(all.quit);
    assert!(all.fetch.is_none());
}

#[test]
fn the_last_request_of_a_tab_wins_and_other_tabs_keep_theirs() {
    let all = merge_batch(vec![
        fetch(1, "https://a.test/"),
        fetch(2, "https://b.test/"),
        fetch(2, "https://c.test/"),
    ]);
    assert_eq!(all.fetch, Some((PageId::new(TabId(2), 1), request("https://c.test/"))));
    assert_eq!(
        all.documents,
        [DocumentWork::Fetch(PageId::new(TabId(1), 1), request("https://a.test/"))]
    );
    assert_eq!(all.documents[0].tab(), TabId(1));
    // A third request of the first tab takes its older work away again.
    let all = merge(all, fetch(1, "https://d.test/"));
    assert_eq!(all.fetch, Some((PageId::new(TabId(1), 1), request("https://d.test/"))));
    assert_eq!(
        all.documents,
        [DocumentWork::Fetch(PageId::new(TabId(2), 1), request("https://c.test/"))]
    );
}

#[test]
fn work_for_workers_accumulates_and_a_script_pass_is_kept() {
    let page = PageId::headless(1);
    let one = Effect {
        images: vec![(page, request("https://x.test/a.png"))],
        run_scripts: Some(page),
        ..Effect::default()
    };
    let two = Effect {
        images: vec![(page, request("https://x.test/b.png"))],
        yank: Some("copied".to_string()),
        ..Effect::default()
    };
    let all = merge_batch(vec![one, two, Effect::default()]);
    assert_eq!(all.images.len(), 2);
    assert_eq!(all.images[1].1.url, "https://x.test/b.png");
    assert_eq!(all.run_scripts, Some(page));
    assert_eq!(all.yank.as_deref(), Some("copied"));
}

fn args(list: &[&str]) -> Vec<String> {
    list.iter().map(|a| a.to_string()).collect()
}

#[test]
fn the_command_line_asks_for_one_thing() {
    assert_eq!(
        parse_args(&args(&["--dump-text", "example.com"])),
        Command::Headless { mode: DumpMode::Text, url: "example.com".to_string() }
    );
    assert_eq!(
        parse_args(&args(&["example.com", "other.com", "--timing"])),
        Command::Headless { mode: DumpMode::Timing, url: "example.com".to_string() }
    );
    assert_eq!(parse_args(&args(&["--dump", "--dump-dom", "example.com"])), Command::Usage);
    assert_eq!(parse_args(&args(&["--dump-js"])), Command::Usage);
    assert_eq!(parse_args(&args(&[])), Command::Screen { url: None, crash: false });
    assert_eq!(
        parse_args(&args(&["--panic", "example.com"])),
        Command::Screen { url: Some("example.com".to_string()), crash: true }
    );
    // An unknown flag is a flag all the same, and no address.
    assert_eq!(parse_args(&args(&["--wat"])), Command::Screen { url: None, crash: false });
    for (flag, mode) in [
        ("--dump", DumpMode::Body),
        ("--dump-dom", DumpMode::Tree),
        ("--dump-boxes", DumpMode::Boxes),
        ("--dump-js", DumpMode::Scripts),
    ] {
        assert_eq!(
            parse_args(&args(&[flag, "u"])),
            Command::Headless { mode, url: "u".to_string() }
        );
    }
}

fn redirect(url: &str, to: &str) -> Msg {
    Msg::Redirect {
        id: PageId::headless(1),
        url: url.to_string(),
        to: to.to_string(),
        status: 302,
        elapsed: Duration::from_millis(5),
        set_cookie: vec!["s=1".to_string()],
    }
}

fn loaded(url: &str) -> Msg {
    Msg::Loaded {
        id: PageId::headless(1),
        url: url.to_string(),
        status: 200,
        body: b"hi".to_vec(),
        elapsed: Duration::from_millis(7),
        content_type: None,
        set_cookie: Vec::new(),
        metadata: Vec::new(),
    }
}

#[test]
fn a_redirect_chain_is_followed_to_where_it_lands() {
    let mut chain = Chain::new(2);
    assert_eq!(chain.step(Msg::InputClosed, "loop"), Step::Wait);
    assert_eq!(chain.step(redirect("http://a/", "http://b/"), "loop"), Step::Follow);
    assert_eq!(chain.hops[0].to, "http://b/");
    assert_eq!(chain.hops[0].set_cookie, ["s=1"]);
    match chain.step(loaded("http://b/"), "loop") {
        Step::Landed(page) => {
            assert_eq!((page.url.as_str(), page.status), ("http://b/", 200));
            assert_eq!(page.body, b"hi");
            assert_eq!(chain.start_url(&page), "http://a/");
        }
        other => panic!("{other:?}"),
    }
}

#[test]
fn a_redirect_loop_ends_and_a_failure_names_its_place() {
    let mut chain = Chain::new(2);
    assert_eq!(chain.step(redirect("http://a/", "http://b/"), "too many"), Step::Follow);
    assert_eq!(chain.step(redirect("http://b/", "http://a/"), "too many"), Step::Follow);
    assert_eq!(
        chain.step(redirect("http://a/", "http://b/"), "too many"),
        Step::Fail("http://b/: too many".to_string())
    );
    assert_eq!(chain.hops.len(), 2);
    let failed = Msg::NetError {
        id: PageId::headless(1),
        url: "http://c/".to_string(),
        reason: "no such host".to_string(),
    };
    assert_eq!(chain.step(failed, "too many"), Step::Fail("http://c/: no such host".to_string()));
}

#[test]
fn a_landed_page_without_hops_started_where_it_landed() {
    let mut chain = Chain::new(0);
    match chain.step(loaded("http://a/"), "") {
        Step::Landed(page) => assert_eq!(chain.start_url(&page), "http://a/"),
        other => panic!("{other:?}"),
    }
}

#[test]
fn only_a_parsed_message_brings_a_tree() {
    assert!(parsed(loaded("http://a/")).is_none());
    let message =
        Msg::Parsed { id: PageId::headless(1), dom: Dom::new(), elapsed: Duration::from_millis(3) };
    let (dom, elapsed) = parsed(message).unwrap();
    assert_eq!(dom.node_count(), 1);
    assert_eq!(elapsed, Duration::from_millis(3));
}

#[test]
fn a_text_dump_drops_styles_and_ends_every_row() {
    let span = |text: &str| Span { text: text.to_string(), style: Style::default() };
    let lines = vec![
        Line { spans: vec![span("one "), span("two")] },
        Line::default(),
        Line { spans: vec![span("three")] },
    ];
    assert_eq!(dump_text(&lines), "one two\n\nthree\n");
}

#[test]
fn a_script_dump_counts_the_timers_that_wait() {
    let runs = vec!["ok 1".to_string(), "error: x".to_string()];
    let console = vec!["log hi".to_string()];
    assert_eq!(dump_scripts(&runs, &console, 0), "ok 1\nerror: x\nlog hi\n");
    assert_eq!(
        dump_scripts(&runs, &console, 120),
        "ok 1\nerror: x\nlog hi\ntimers pending 120\n"
    );
}
