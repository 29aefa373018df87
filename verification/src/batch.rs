//! Input coalescing: what a batch of messages asks of the event loop, merged
//! into one answer, so that a flood of events costs one redraw.

use std::time::Duration;

use vstd::prelude::*;

use crate::net::{CachedResponse, JsAsk, PageId, Request, TabId, TimerRequest};
use crate::views::views;

verus! {

broadcast use crate::views::group_views;

/// One document to get, from the network or from the cache.
#[derive(Debug, PartialEq, Eq)]
pub enum DocumentWork {
    Fetch(PageId, Request),
    Cached(PageId, String, CachedResponse, Duration),
}

impl DocumentWork {
    pub open spec fn for_tab(&self) -> TabId {
        match self {
            DocumentWork::Fetch(id, _) => id.tab,
            DocumentWork::Cached(id, _, _, _) => id.tab,
        }
    }

    pub fn tab(&self) -> (r: TabId)
        ensures
            r == self.for_tab(),
    {
        match self {
            DocumentWork::Fetch(id, _) => id.tab,
            DocumentWork::Cached(id, _, _, _) => id.tab,
        }
    }
}

/// What handling messages asks of the loop.
#[derive(Debug, PartialEq, Eq)]
pub struct Effect {
    /// Something on screen changed.
    pub dirty: bool,
    pub quit: bool,
    pub fetch: Option<(PageId, Request)>,
    pub cached: Option<(PageId, String, CachedResponse, Duration)>,
    /// Further documents, for tabs other than the newest request's.
    pub documents: Vec<DocumentWork>,
    pub sheets: Vec<(PageId, usize, Request)>,
    pub images: Vec<(PageId, Request)>,
    pub scripts: Vec<(PageId, usize, Request)>,
    pub fetches: Vec<(PageId, JsAsk)>,
    pub timers: Vec<TimerRequest>,
    /// Text for the clipboard.
    pub yank: Option<String>,
    pub run_scripts: Option<PageId>,
    pub tab: Option<TabId>,
}

/// The value of an [`Effect`].
pub struct EffectView {
    pub dirty: bool,
    pub quit: bool,
    pub fetch: Option<(PageId, Request)>,
    pub cached: Option<(PageId, String, CachedResponse, Duration)>,
    pub documents: Seq<DocumentWork>,
    pub sheets: Seq<(PageId, usize, Request)>,
    pub images: Seq<(PageId, Request)>,
    pub scripts: Seq<(PageId, usize, Request)>,
    pub fetches: Seq<(PageId, JsAsk)>,
    pub timers: Seq<TimerRequest>,
    pub yank: Option<String>,
    pub run_scripts: Option<PageId>,
    pub tab: Option<TabId>,
}

impl View for Effect {
    type V = EffectView;

    open spec fn view(&self) -> EffectView {
        EffectView {
            dirty: self.dirty,
            quit: self.quit,
            fetch: self.fetch,
            cached: self.cached,
            documents: self.documents@,
            sheets: self.sheets@,
            images: self.images@,
            scripts: self.scripts@,
            fetches: self.fetches@,
            timers: self.timers@,
            yank: self.yank,
            run_scripts: self.run_scripts,
            tab: self.tab,
        }
    }
}

/// Nothing to do.
pub open spec fn no_effect() -> EffectView {
    EffectView {
        dirty: false,
        quit: false,
        fetch: None,
        cached: None,
        documents: Seq::empty(),
        sheets: Seq::empty(),
        images: Seq::empty(),
        scripts: Seq::empty(),
        fetches: Seq::empty(),
        timers: Seq::empty(),
        yank: None,
        run_scripts: None,
        tab: None,
    }
}

impl Default for Effect {
    fn default() -> (r: Effect)
        ensures
            r@ == no_effect(),
    {
        Effect {
            dirty: false,
            quit: false,
            fetch: None,
            cached: None,
            documents: Vec::new(),
            sheets: Vec::new(),
            images: Vec::new(),
            scripts: Vec::new(),
            fetches: Vec::new(),
            timers: Vec::new(),
            yank: None,
            run_scripts: None,
            tab: None,
        }
    }
}

/// The first `n` documents without those of one tab.
pub open spec fn of_other_tabs(documents: Seq<DocumentWork>, n: int, tab: TabId) -> Seq<DocumentWork>
    decreases n,
{
    if n <= 0 {
        Seq::empty()
    } else if documents[n - 1].for_tab() == tab {
        of_other_tabs(documents, n - 1, tab)
    } else {
        of_other_tabs(documents, n - 1, tab).push(documents[n - 1])
    }
}

/// What is left of document work when a tab asks for another document: nothing
/// of that tab's, and all of every other's.
pub open spec fn other_tabs_kept(e: EffectView, incoming: TabId) -> EffectView {
    let documents = of_other_tabs(e.documents, e.documents.len() as int, incoming);
    let documents = match e.fetch {
        Some((id, request)) if id.tab != incoming => documents.push(
            DocumentWork::Fetch(id, request),
        ),
        _ => documents,
    };
    let documents = match e.cached {
        Some((id, url, response, elapsed)) if id.tab != incoming => documents.push(
            DocumentWork::Cached(id, url, response, elapsed),
        ),
        _ => documents,
    };
    EffectView { documents, fetch: None, cached: None, ..e }
}

/// Document work after one more message: the newest request of a tab replaces
/// what the batch had for it.
pub open spec fn documents_merged(all: EffectView, e: EffectView) -> EffectView {
    let all = match e.fetch {
        Some((id, _)) => EffectView { fetch: e.fetch, ..other_tabs_kept(all, id.tab) },
        None => all,
    };
    let all = match e.cached {
        Some((id, _, _, _)) => EffectView { cached: e.cached, ..other_tabs_kept(all, id.tab) },
        None => all,
    };
    EffectView { documents: all.documents + e.documents, ..all }
}

/// A batch's effect after one more message. What accumulates is kept in order;
/// of what only the newest matters, the newest is kept.
pub open spec fn merged(all: EffectView, e: EffectView) -> EffectView {
    let work = documents_merged(all, e);
    EffectView {
        dirty: all.dirty || e.dirty,
        quit: all.quit || e.quit,
        fetch: work.fetch,
        cached: work.cached,
        documents: work.documents,
        sheets: all.sheets + e.sheets,
        images: all.images + e.images,
        scripts: all.scripts + e.scripts,
        fetches: all.fetches + e.fetches,
        timers: all.timers + e.timers,
        yank: if e.yank is Some {
            e.yank
        } else {
            all.yank
        },
        run_scripts: if e.run_scripts is Some {
            e.run_scripts
        } else {
            all.run_scripts
        },
        tab: if e.tab is Some {
            e.tab
        } else {
            all.tab
        },
    }
}

fn drop_tab(documents: Vec<DocumentWork>, tab: TabId) -> (r: Vec<DocumentWork>)
    ensures
        r@ == of_other_tabs(documents@, documents@.len() as int, tab),
{
    let ghost all = documents@;
    let mut rest: Vec<DocumentWork> = documents;
    let mut backwards: Vec<DocumentWork> = Vec::new();
    let ghost mut kept: Seq<DocumentWork> = Seq::empty();
    while rest.len() > 0
        invariant
            rest@.len() <= all.len(),
            rest@ == all.take(rest@.len() as int),
            backwards@ == kept.reverse(),
            of_other_tabs(all, all.len() as int, tab) =~= of_other_tabs(
                all,
                rest@.len() as int,
                tab,
            ) + kept,
        decreases rest@.len(),
    {
        let ghost n = rest@.len() as int;
        match rest.pop() {
            None => {},
            Some(work) => {
                proof {
                    assert(work == all[n - 1]);
                    assert(rest@ =~= all.take(n - 1));
                }
                if work.tab() != tab {
                    proof {
                        let next = seq![work] + kept;
                        assert(of_other_tabs(all, n, tab) + kept =~= of_other_tabs(all, n - 1, tab)
                            + next);
                        assert(next.reverse() =~= backwards@.push(work));
                        kept = next;
                    }
                    backwards.push(work);
                }
            },
        }
    }
    proof {
        assert(of_other_tabs(all, 0, tab) + kept =~= kept);
    }
    let mut out: Vec<DocumentWork> = Vec::new();
    while backwards.len() > 0
        invariant
            backwards@.len() <= kept.len(),
            backwards@ =~= kept.reverse().take(backwards@.len() as int),
            out@ =~= kept.take(kept.len() - backwards@.len()),
        decreases backwards@.len(),
    {
        let ghost n = backwards@.len() as int;
        match backwards.pop() {
            None => {},
            Some(work) => {
                proof {
                    assert(work == kept.reverse()[n - 1]);
                    assert(work == kept[kept.len() - n]);
                }
                out.push(work);
            },
        }
    }
    proof {
        assert(out@ =~= kept);
    }
    out
}

/// Make room for a tab's newest document request. See [`other_tabs_kept`].
fn preserve_other_tab_document(effect: Effect, incoming: TabId) -> (r: Effect)
    ensures
        r@ == other_tabs_kept(effect@, incoming),
{
    let ghost start = effect@;
    let mut documents: Vec<DocumentWork> = drop_tab(effect.documents, incoming);
    match effect.fetch {
        Some((id, request)) => {
            if id.tab != incoming {
                documents.push(DocumentWork::Fetch(id, request));
            }
        },
        None => {},
    }
    match effect.cached {
        Some((id, url, response, elapsed)) => {
            if id.tab != incoming {
                documents.push(DocumentWork::Cached(id, url, response, elapsed));
            }
        },
        None => {},
    }
    Effect {
        dirty: effect.dirty,
        quit: effect.quit,
        fetch: None,
        cached: None,
        documents,
        sheets: effect.sheets,
        images: effect.images,
        scripts: effect.scripts,
        fetches: effect.fetches,
        timers: effect.timers,
        yank: effect.yank,
        run_scripts: effect.run_scripts,
        tab: effect.tab,
    }
}

/// Add what one message asks to what its batch has asked so far.
pub fn merge(all: Effect, e: Effect) -> (r: Effect)
    ensures
        r@ == merged(all@, e@),
{
    let mut all: Effect = all;
    let mut e: Effect = e;
    match e.fetch {
        Some((id, request)) => {
            all = preserve_other_tab_document(all, id.tab);
            all.fetch = Some((id, request));
        },
        None => {},
    }
    match e.cached {
        Some((id, url, response, elapsed)) => {
            all = preserve_other_tab_document(all, id.tab);
            all.cached = Some((id, url, response, elapsed));
        },
        None => {},
    }
    all.dirty = all.dirty || e.dirty;
    all.quit = all.quit || e.quit;
    all.documents.append(&mut e.documents);
    all.sheets.append(&mut e.sheets);
    all.images.append(&mut e.images);
    all.scripts.append(&mut e.scripts);
    all.fetches.append(&mut e.fetches);
    all.timers.append(&mut e.timers);
    if e.yank.is_some() {
        all.yank = e.yank;
    }
    if e.run_scripts.is_some() {
        all.run_scripts = e.run_scripts;
    }
    if e.tab.is_some() {
        all.tab = e.tab;
    }
    all
}

/// A batch of effects up to the first that quits, merged.
pub open spec fn batch_of(effects: Seq<EffectView>, n: int) -> EffectView
    decreases n,
{
    if n <= 0 {
        no_effect()
    } else {
        let before = batch_of(effects, n - 1);
        if before.quit {
            before
        } else {
            merged(before, effects[n - 1])
        }
    }
}

/// Merge what a batch's messages ask, in order. Quit short-circuits: nothing
/// after it matters.
pub fn merge_batch(effects: Vec<Effect>) -> (r: Effect)
    ensures
        r@ == batch_of(views(effects@), effects@.len() as int),
{
    let ghost all = views(effects@);
    let mut rest: Vec<Effect> = effects;
    let mut merged_so_far: Effect = Effect::default();
    let ghost mut n: int = 0;
    while rest.len() > 0 && !merged_so_far.quit
        invariant
            0 <= n <= all.len(),
            views(rest@) =~= all.subrange(n, all.len() as int),
            merged_so_far@ == batch_of(all, n),
        decreases rest@.len(),
    {
        let ghost before = rest@;
        let ghost left = views(before);
        proof {
            assert(left.len() == before.len());
            assert(left == all.subrange(n, all.len() as int));
        }
        let e: Effect = rest.remove(0);
        proof {
            assert(left[0] == e@);
            assert(all.subrange(n, all.len() as int)[0] == all[n]);
            assert forall|j: int| 0 <= j < rest@.len() implies #[trigger] views(rest@)[j] == all[n
                + 1 + j] by {
                assert(rest@[j] == before[j + 1]);
                assert(left[j + 1] == all.subrange(n, all.len() as int)[j + 1]);
            }
            assert(views(rest@) =~= all.subrange(n + 1, all.len() as int));
            n = n + 1;
        }
        merged_so_far = merge(merged_so_far, e);
    }
    proof {
        if merged_so_far.quit {
            nothing_after_quit_matters(all, n, all.len() as int);
        }
    }
    merged_so_far
}

/// What follows a quit in its batch changes nothing.
pub proof fn nothing_after_quit_matters(effects: Seq<EffectView>, n: int, m: int)
    requires
        0 <= n <= m <= effects.len(),
        batch_of(effects, n).quit,
    ensures
        batch_of(effects, m) == batch_of(effects, n),
    decreases m - n,
{
    if n < m {
        nothing_after_quit_matters(effects, n, m - 1);
    }
}

/// A batch redraws, or quits, exactly when one of its messages up to the quit
/// asks for it; until a message quits, each is merged.
pub proof fn a_batch_is_one_decision(effects: Seq<EffectView>, n: int)
    requires
        0 <= n <= effects.len(),
        forall|k: int| 0 <= k < n - 1 ==> !(#[trigger] effects[k]).quit,
    ensures
        batch_of(effects, n).dirty <==> exists|k: int| 0 <= k < n && (#[trigger] effects[k]).dirty,
        batch_of(effects, n).quit <==> n > 0 && effects[n - 1].quit,
    decreases n,
{
    if n > 0 {
        a_batch_is_one_decision(effects, n - 1);
        let before = batch_of(effects, n - 1);
        if before.dirty {
            let k = choose|k: int| 0 <= k < n - 1 && (#[trigger] effects[k]).dirty;
            assert(effects[k].dirty);
        }
        if n - 1 > 0 {
            assert(!effects[n - 2].quit);
        }
        assert(!before.quit);
        if effects[n - 1].dirty {
            assert(batch_of(effects, n).dirty);
        }
    }
}

/// Some document work of a tab's, wherever an effect holds it.
pub open spec fn has_work(e: EffectView, tab: TabId) -> bool {
    ||| e.fetch matches Some(f) && f.0.tab == tab
    ||| e.cached matches Some(c) && c.0.tab == tab
    ||| exists|k: int| 0 <= k < e.documents.len() && (#[trigger] e.documents[k]).for_tab() == tab
}

proof fn others_stay(documents: Seq<DocumentWork>, n: int, gone: TabId, tab: TabId)
    requires
        0 <= n <= documents.len(),
    ensures
        ({
            let left = of_other_tabs(documents, n, gone);
            (exists|k: int| 0 <= k < left.len() && (#[trigger] left[k]).for_tab() == tab) <==> tab
                != gone && exists|k: int|
                0 <= k < n && (#[trigger] documents[k]).for_tab() == tab
        }),
    decreases n,
{
    if n > 0 {
        others_stay(documents, n - 1, gone, tab);
        let before = of_other_tabs(documents, n - 1, gone);
        let left = of_other_tabs(documents, n, gone);
        let last = documents[n - 1];
        if exists|k: int| 0 <= k < before.len() && (#[trigger] before[k]).for_tab() == tab {
            let k = choose|k: int| 0 <= k < before.len() && (#[trigger] before[k]).for_tab() == tab;
            assert(left[k].for_tab() == tab);
        }
        if last.for_tab() == tab && tab != gone {
            assert(left[before.len() as int].for_tab() == tab);
        }
        if exists|k: int| 0 <= k < left.len() && (#[trigger] left[k]).for_tab() == tab {
            let k = choose|k: int| 0 <= k < left.len() && (#[trigger] left[k]).for_tab() == tab;
            if k < before.len() {
                assert(before[k].for_tab() == tab);
            } else {
                assert(documents[n - 1].for_tab() == tab);
            }
        }
        if tab != gone && exists|k: int|
            0 <= k < n && (#[trigger] documents[k]).for_tab() == tab {
            let k = choose|k: int| 0 <= k < n && (#[trigger] documents[k]).for_tab() == tab;
            if k < n - 1 {
                assert(documents[k].for_tab() == tab);
            }
        }
    }
}

/// When a tab asks for a new document, its older requests are gone, and no
/// other tab's work is lost or made up.
pub proof fn a_new_request_replaces_only_its_own_tab(e: EffectView, incoming: TabId, tab: TabId)
    ensures
        has_work(other_tabs_kept(e, incoming), tab) == (tab != incoming && has_work(e, tab)),
{
    let kept = other_tabs_kept(e, incoming);
    let n = e.documents.len() as int;
    let d0 = of_other_tabs(e.documents, n, incoming);
    others_stay(e.documents, n, incoming, tab);
    let d1 = match e.fetch {
        Some((id, request)) if id.tab != incoming => d0.push(DocumentWork::Fetch(id, request)),
        _ => d0,
    };
    assert(forall|k: int| 0 <= k < d0.len() ==> d1[k] == #[trigger] d0[k]);
    assert(forall|k: int| 0 <= k < d1.len() ==> kept.documents[k] == #[trigger] d1[k]);
    if tab != incoming && has_work(e, tab) {
        if e.fetch is Some && (e.fetch->0).0.tab == tab {
            assert(d1[d0.len() as int].for_tab() == tab);
            assert(kept.documents[d0.len() as int].for_tab() == tab);
        } else if e.cached is Some && (e.cached->0).0.tab == tab {
            assert(kept.documents[d1.len() as int].for_tab() == tab);
        } else {
            let k = choose|k: int| 0 <= k < d0.len() && (#[trigger] d0[k]).for_tab() == tab;
            assert(d1[k].for_tab() == tab);
            assert(kept.documents[k].for_tab() == tab);
        }
    }
    if has_work(kept, tab) {
        let k = choose|k: int|
            0 <= k < kept.documents.len() && (#[trigger] kept.documents[k]).for_tab() == tab;
        if k < d0.len() {
            assert(d0[k].for_tab() == tab);
        }
    }
}

/// What all the messages of a batch ask for, one after another.
pub open spec fn asked_in_turn<T>(of: spec_fn(EffectView) -> Seq<T>, effects: Seq<EffectView>, n: int) -> Seq<
    T,
>
    decreases n,
{
    if n <= 0 {
        Seq::empty()
    } else {
        asked_in_turn(of, effects, n - 1) + of(effects[n - 1])
    }
}

/// Until a message quits, a batch asks for all that its messages do, in their
/// order; of what only one can be done, it asks for the newest.
pub proof fn a_batch_forgets_nothing(effects: Seq<EffectView>, n: int, k: int)
    requires
        0 <= k < n <= effects.len(),
        forall|j: int| 0 <= j < n - 1 ==> !(#[trigger] effects[j]).quit,
    ensures
        ({
            let all = batch_of(effects, n);
            &&& all.sheets == asked_in_turn(|e: EffectView| e.sheets, effects, n)
            &&& all.images == asked_in_turn(|e: EffectView| e.images, effects, n)
            &&& all.scripts == asked_in_turn(|e: EffectView| e.scripts, effects, n)
            &&& all.fetches == asked_in_turn(|e: EffectView| e.fetches, effects, n)
            &&& all.timers == asked_in_turn(|e: EffectView| e.timers, effects, n)
            &&& effects[k].yank is Some && (forall|j: int|
                k < j < n ==> (#[trigger] effects[j]).yank is None) ==> all.yank == effects[k].yank
            &&& effects[k].run_scripts is Some && (forall|j: int|
                k < j < n ==> (#[trigger] effects[j]).run_scripts is None) ==> all.run_scripts
                == effects[k].run_scripts
            &&& effects[k].tab is Some && (forall|j: int|
                k < j < n ==> (#[trigger] effects[j]).tab is None) ==> all.tab == effects[k].tab
            &&& effects[k].fetch is Some && (forall|j: int|
                k < j < n ==> (#[trigger] effects[j]).fetch is None && effects[j].cached is None)
                && effects[k].cached is None ==> all.fetch == effects[k].fetch
        }),
    decreases n,
{
    a_batch_is_one_decision(effects, n - 1);
    let before = batch_of(effects, n - 1);
    if n >= 2 {
        assert(!effects[n - 2].quit);
    }
    assert(!before.quit);
    if n >= 2 {
        a_batch_forgets_nothing(
            effects,
            n - 1,
            if k < n - 1 {
                k
            } else {
                0
            },
        );
    }
    assert(batch_of(effects, 0) == no_effect());
    assert(asked_in_turn(|e: EffectView| e.sheets, effects, 0) =~= Seq::empty());
    assert(asked_in_turn(|e: EffectView| e.images, effects, 0) =~= Seq::empty());
    assert(asked_in_turn(|e: EffectView| e.scripts, effects, 0) =~= Seq::empty());
    assert(asked_in_turn(|e: EffectView| e.fetches, effects, 0) =~= Seq::empty());
    assert(asked_in_turn(|e: EffectView| e.timers, effects, 0) =~= Seq::empty());
    let all = batch_of(effects, n);
    assert(all == merged(before, effects[n - 1]));
}

} // verus!
