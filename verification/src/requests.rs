//! Saving, closing and deleting requests.
use crate::models;
use crate::models::{Endpoint, EndpointView};
use crate::sorting;
use crate::sorting::sort_endpoints;
use crate::tabs;
use crate::tabs::{find_endpoint, find_tab, first_id, RequestTab, TabView};
use crate::text;
use crate::text::{concat3, decimal_text, same_text};
use crate::urls;
use crate::urls::normalize_endpoint_url_and_query_params;
use crate::workspace;
use crate::workspace::{
    PendingRequestAction, PendingView, Workspace, WorkspaceView,
};
use vstd::prelude::*;

verus! {

// ---------------------------------------------------------------------------
// Bringing tabs up to date
// ---------------------------------------------------------------------------

/// The tab, brought up to date with the saved endpoints, if it stays open.
pub open spec fn synced_tab(tab: TabView, endpoints: Seq<EndpointView>) -> Option<TabView> {
    if tabs::outlives(tab.is_dirty, tab.saved_endpoint_id, endpoints) {
        Some(
            TabView {
                draft: tabs::current_draft(
                    tab.is_dirty,
                    tab.saved_endpoint_id,
                    tab.draft,
                    endpoints,
                ),
                ..tab
            },
        )
    } else {
        None
    }
}

pub open spec fn synced_tabs(open: Seq<TabView>, endpoints: Seq<EndpointView>) -> Seq<TabView> {
    open.filter_map(|tab: TabView| synced_tab(tab, endpoints))
}

/// The workspace with its tabs brought up to date with the saved endpoints.
pub open spec fn synced(ws: WorkspaceView) -> WorkspaceView {
    workspace::with_selection(
        WorkspaceView {
            open_request_tabs: synced_tabs(ws.open_request_tabs, ws.saved_endpoints),
            ..ws
        },
    )
}

fn sync_tab(tab: RequestTab, endpoints: &Vec<Endpoint>) -> (r: Option<RequestTab>)
    ensures
        match r {
            Some(after) => synced_tab(tab@, text::views(endpoints@)) == Some(after@),
            None => synced_tab(tab@, text::views(endpoints@)) is None,
        },
{
    let mut tab = tab;
    if !tab.is_dirty {
        let saved = match &tab.saved_endpoint_id {
            Some(id) => match find_endpoint(endpoints, id.as_str()) {
                Some(endpoint) => endpoint.clone(),
                None => {
                    return None;
                },
            },
            None => {
                return Some(tab);
            },
        };
        tab.draft = saved;
    }
    Some(tab)
}

fn sync_tabs(open: Vec<RequestTab>, endpoints: &Vec<Endpoint>) -> (r: Vec<RequestTab>)
    ensures
        text::views(r@) == synced_tabs(text::views(open@), text::views(endpoints@)),
{
    let ghost given = open@;
    let ghost all = text::views(given);
    let ghost saved = text::views(endpoints@);
    let ghost f = |tab: TabView| synced_tab(tab, saved);
    let mut r: Vec<RequestTab> = Vec::new();
    assert(text::views(r@) =~= all.take(0).filter_map(f));
    for tab in it: open
        invariant
            it.seq() == given,
            all == text::views(given),
            saved == text::views(endpoints@),
            f == (|tab: TabView| synced_tab(tab, saved)),
            text::views(r@) == all.take(it.index() as int).filter_map(f),
    {
        proof {
            assert(tab == given[it.index() as int]);
            assert(all[it.index() as int] == tab@);
            all.lemma_filter_map_take_succ(f, it.index() as int);
        }
        match sync_tab(tab, endpoints) {
            Some(after) => {
                proof {
                    text::lemma_views_push(r@, after);
                }
                r.push(after);
            },
            None => {},
        }
    }
    assert(all.take(all.len() as int) =~= all);
    r
}

impl Workspace {
    /// Brings the tabs without unsaved changes up to date with the saved endpoints, and closes
    /// those whose endpoint is gone.
    pub fn sync_clean_tabs_from_saved_endpoints(&mut self)
        ensures
            final(self)@ == synced(old(self)@),
    {
        let mut open: Vec<RequestTab> = Vec::new();
        std::mem::swap(&mut self.open_request_tabs, &mut open);
        self.open_request_tabs = sync_tabs(open, &self.saved_endpoints);
        self.ensure_selected_ids();
    }
}

/// A tab with unsaved changes stays open as it is when tabs are brought up to date.
pub proof fn law_unsaved_changes_stay(ws: WorkspaceView, i: int)
    requires
        0 <= i < ws.open_request_tabs.len(),
        ws.open_request_tabs[i].is_dirty,
    ensures
        synced(ws).open_request_tabs.contains(ws.open_request_tabs[i]),
{
    let open = ws.open_request_tabs;
    let f = |tab: TabView| synced_tab(tab, ws.saved_endpoints);
    assert(f(open[i]) == Some(open[i]));
    text::lemma_filter_map_holds(open, f, i, open[i]);
}

proof fn lemma_synced_is_current(open: Seq<TabView>, endpoints: Seq<EndpointView>)
    ensures
        synced_tabs(synced_tabs(open, endpoints), endpoints) == synced_tabs(open, endpoints),
    decreases open.len(),
{
    let f = |tab: TabView| synced_tab(tab, endpoints);
    reveal(Seq::filter_map);
    if open.len() > 0 {
        let rest = open.drop_last();
        lemma_synced_is_current(rest, endpoints);
        let before = synced_tabs(rest, endpoints);
        match f(open.last()) {
            Some(tab) => {
                assert(synced_tabs(open, endpoints) =~= before.push(tab));
                assert(before.push(tab).drop_last() =~= before);
                assert(before.push(tab).last() == tab);
                assert(f(tab) == Some(tab));
            },
            None => {
                assert(synced_tabs(open, endpoints) =~= before);
            },
        }
    }
}

/// Bringing tabs up to date is done once.
pub proof fn law_tabs_are_synced_once(ws: WorkspaceView)
    ensures
        synced(synced(ws)) == synced(ws),
{
    lemma_synced_is_current(ws.open_request_tabs, ws.saved_endpoints);
    let once = WorkspaceView {
        open_request_tabs: synced_tabs(ws.open_request_tabs, ws.saved_endpoints),
        ..ws
    };
    workspace::law_selection_is_mended(once);
    workspace::law_selection_is_mended(workspace::with_selection(once));
}

/// The tab as it is opened again: no answer to it is awaited.
pub open spec fn restored(tab: TabView) -> TabView {
    tabs::with_caches(TabView { inflight_environment_id: None, ..tab })
}

proof fn lemma_current_tabs_are_reopened(open: Seq<TabView>, endpoints: Seq<EndpointView>)
    ensures
        tabs::reopened_tabs(
            synced_tabs(open, endpoints).map_values(|tab: TabView| tabs::kept(tab)),
            endpoints,
        ) == synced_tabs(open, endpoints).map_values(|tab: TabView| restored(tab)),
    decreases open.len(),
{
    let f = |tab: TabView| synced_tab(tab, endpoints);
    let g = |tab: models::PersistedTabView| tabs::reopened(tab, endpoints);
    let keep = |tab: TabView| tabs::kept(tab);
    let restore = |tab: TabView| restored(tab);
    if open.len() == 0 {
        assert(synced_tabs(open, endpoints).map_values(keep) =~= Seq::empty());
        assert(synced_tabs(open, endpoints).map_values(restore) =~= Seq::empty());
    } else {
        let rest = open.drop_last();
        lemma_current_tabs_are_reopened(rest, endpoints);
        let before = synced_tabs(rest, endpoints);
        match f(open.last()) {
            Some(tab) => {
                let all = synced_tabs(open, endpoints);
                assert(all =~= before.push(tab));
                assert(all.map_values(keep).drop_last() =~= before.map_values(keep));
                assert(all.map_values(keep).last() == tabs::kept(tab));
                assert(g(tabs::kept(tab)) == Some(restored(tab)));
                assert(all.map_values(restore) =~= before.map_values(restore).push(restored(tab)));
                assert(before.map_values(restore).push(restored(tab)) =~= before.map_values(restore)
                    + seq![restored(tab)]);
            },
            None => {
                assert(synced_tabs(open, endpoints) =~= before);
            },
        }
    }
}

/// The open tabs are restored: what is kept of tabs that are up to date gives back the same tabs.
pub proof fn law_open_tabs_are_restored(ws: WorkspaceView)
    ensures
        ({
            let before = synced(ws);
            let kept = tabs::kept_tabs(before.open_request_tabs, before.active_request_tab_id);
            tabs::reopened_tabs(kept.open_tabs, before.saved_endpoints)
                == before.open_request_tabs.map_values(|tab: TabView| restored(tab))
        }),
{
    lemma_current_tabs_are_reopened(ws.open_request_tabs, ws.saved_endpoints);
}

// ---------------------------------------------------------------------------
// Saving
// ---------------------------------------------------------------------------

/// Where the last endpoint with the id stands; -1 where there is none.
pub open spec fn last_with_id(endpoints: Seq<EndpointView>, id: Seq<char>) -> int
    decreases endpoints.len(),
{
    if endpoints.len() == 0 {
        -1
    } else if endpoints.last().id == id {
        endpoints.len() - 1
    } else {
        last_with_id(endpoints.drop_last(), id)
    }
}

proof fn lemma_last_with_id(endpoints: Seq<EndpointView>, id: Seq<char>)
    ensures
        -1 <= last_with_id(endpoints, id) < endpoints.len(),
        last_with_id(endpoints, id) >= 0 ==> endpoints[last_with_id(endpoints, id)].id == id,
    decreases endpoints.len(),
{
    if endpoints.len() > 0 && endpoints.last().id != id {
        lemma_last_with_id(endpoints.drop_last(), id);
    }
}

/// The endpoints with one saved: in place of the one with its id, or behind all.
pub open spec fn placed(endpoints: Seq<EndpointView>, endpoint: EndpointView) -> Seq<EndpointView> {
    let at = last_with_id(endpoints, endpoint.id);
    if 0 <= at < endpoints.len() {
        endpoints.update(at, endpoint)
    } else {
        endpoints.push(endpoint)
    }
}

fn place_endpoint(endpoints: &mut Vec<Endpoint>, endpoint: Endpoint)
    ensures
        text::views(final(endpoints)@) == placed(text::views(old(endpoints)@), endpoint@),
{
    let ghost all = text::views(endpoints@);
    let mut i: usize = endpoints.len();
    assert(all.take(i as int) =~= all);
    while i > 0
        invariant
            i <= endpoints@.len(),
            all == text::views(endpoints@),
            all == text::views(old(endpoints)@),
            last_with_id(all, endpoint.id@) == last_with_id(all.take(i as int), endpoint.id@),
        decreases i,
    {
        i -= 1;
        proof {
            let part = all.take(i + 1);
            assert(part.last() == endpoints@[i as int]@);
            assert(part.drop_last() =~= all.take(i as int));
        }
        if same_text(endpoints[i].id.as_str(), endpoint.id.as_str()) {
            proof {
                text::lemma_views_update(endpoints@, i as int, endpoint);
            }
            endpoints.set(i, endpoint);
            return;
        }
    }
    proof {
        text::lemma_views_push(endpoints@, endpoint);
    }
    endpoints.push(endpoint);
}

/// The tab once its draft was saved.
pub open spec fn saved_as(tab: TabView) -> TabView {
    let draft = urls::with_query_apart(tab.draft);
    TabView { draft, saved_endpoint_id: Some(draft.id), is_dirty: false, ..tab }
}

/// Endpoints and tabs after the drafts of the tabs with the ids were saved, one after the other,
/// and how many were.
pub open spec fn saved(
    endpoints: Seq<EndpointView>,
    open: Seq<TabView>,
    ids: Seq<Seq<char>>,
) -> (Seq<EndpointView>, Seq<TabView>, nat)
    decreases ids.len(),
{
    if ids.len() == 0 {
        (endpoints, open, 0)
    } else {
        let before = saved(endpoints, open, ids.drop_last());
        let i = tabs::tab_index(before.1, ids.last());
        if i < before.1.len() {
            let tab = saved_as(before.1[i]);
            (placed(before.0, tab.draft), before.1.update(i, tab), before.2 + 1)
        } else {
            before
        }
    }
}

/// The workspace after the drafts of the tabs with the ids were saved.
pub open spec fn with_saved(ws: WorkspaceView, ids: Seq<Seq<char>>, now: u64) -> WorkspaceView {
    if ids.len() == 0 {
        ws
    } else {
        let after = saved(ws.saved_endpoints, ws.open_request_tabs, ids);
        workspace::ui_touched(
            synced(
                WorkspaceView {
                    saved_endpoints: sorting::sorted_endpoints(after.0),
                    open_request_tabs: after.1,
                    ..ws
                },
            ),
            now,
        )
    }
}

/// The ids of the tabs with unsaved changes.
pub open spec fn dirty_ids(open: Seq<TabView>) -> Seq<Seq<char>> {
    open.filter_map(
        |tab: TabView|
            if tab.is_dirty {
                Some(tab.id)
            } else {
                None
            },
    )
}

impl Workspace {
    /// Saves the drafts of the tabs with the ids, and says how many were.
    pub fn save_request_tabs(&mut self, tab_ids: &Vec<String>, now: u64) -> (changed: usize)
        ensures
            final(self)@ == with_saved(old(self)@, text::views(tab_ids@), now),
            changed == saved(
                old(self)@.saved_endpoints,
                old(self)@.open_request_tabs,
                text::views(tab_ids@),
            ).2,
    {
        if tab_ids.is_empty() {
            return 0;
        }
        let ghost ids = text::views(tab_ids@);
        let ghost start = self@;
        let mut changed: usize = 0;
        let mut n: usize = 0;
        while n < tab_ids.len()
            invariant
                n <= tab_ids@.len(),
                ids == text::views(tab_ids@),
                changed <= n,
                ({
                    let after = saved(
                        start.saved_endpoints,
                        start.open_request_tabs,
                        ids.take(n as int),
                    );
                    &&& changed == after.2
                    &&& self@ == WorkspaceView {
                        saved_endpoints: after.0,
                        open_request_tabs: after.1,
                        ..start
                    }
                }),
            decreases tab_ids@.len() - n,
        {
            proof {
                assert(ids.take(n + 1).drop_last() =~= ids.take(n as int));
                assert(ids.take(n + 1).last() == tab_ids@[n as int]@);
            }
            let i = find_tab(&self.open_request_tabs, tab_ids[n].as_str());
            if i < self.open_request_tabs.len() {
                let ghost before = self.open_request_tabs@;
                let mut tab = self.open_request_tabs.remove(i);
                normalize_endpoint_url_and_query_params(&mut tab.draft);
                place_endpoint(&mut self.saved_endpoints, tab.draft.clone());
                tab.saved_endpoint_id = Some(tab.draft.id.clone());
                tab.is_dirty = false;
                self.open_request_tabs.insert(i, tab);
                assert(self.open_request_tabs@ =~= before.update(i as int, tab));
                proof {
                    text::lemma_views_update(before, i as int, tab);
                }
                changed += 1;
            }
            n += 1;
        }
        assert(ids.take(ids.len() as int) =~= ids);
        self.saved_endpoints = sort_endpoints(&self.saved_endpoints);
        self.sync_clean_tabs_from_saved_endpoints();
        self.mark_workspace_ui_dirty(now);
        changed
    }

    fn dirty_tab_ids(&self) -> (r: Vec<String>)
        ensures
            text::views(r@) == dirty_ids(self@.open_request_tabs),
    {
        let ghost all = self@.open_request_tabs;
        let ghost f = |tab: TabView|
            if tab.is_dirty {
                Some(tab.id)
            } else {
                None
            };
        let mut r: Vec<String> = Vec::new();
        let mut i: usize = 0;
        assert(text::views(r@) =~= all.take(0).filter_map(f));
        while i < self.open_request_tabs.len()
            invariant
                i <= self.open_request_tabs@.len(),
                all == text::views(self.open_request_tabs@),
                f == (|tab: TabView|
                    if tab.is_dirty {
                        Some(tab.id)
                    } else {
                        None
                    }),
                text::views(r@) == all.take(i as int).filter_map(f),
            decreases self.open_request_tabs@.len() - i,
        {
            proof {
                all.lemma_filter_map_take_succ(f, i as int);
            }
            let tab = &self.open_request_tabs[i];
            if tab.is_dirty {
                let id = tab.id.clone();
                proof {
                    text::lemma_views_push(r@, id);
                }
                r.push(id);
            }
            i += 1;
        }
        assert(all.take(all.len() as int) =~= all);
        r
    }

    /// Saves the drafts of all tabs with unsaved changes.
    pub fn save_all_dirty_request_tabs(&mut self, now: u64) -> (changed: usize)
        ensures
            final(self)@ == with_saved(old(self)@, dirty_ids(old(self)@.open_request_tabs), now),
            changed == saved(
                old(self)@.saved_endpoints,
                old(self)@.open_request_tabs,
                dirty_ids(old(self)@.open_request_tabs),
            ).2,
    {
        let ids = self.dirty_tab_ids();
        self.save_request_tabs(&ids, now)
    }
}

proof fn lemma_placed_is_there(endpoints: Seq<EndpointView>, endpoint: EndpointView)
    ensures
        placed(endpoints, endpoint).contains(endpoint),
{
    let at = last_with_id(endpoints, endpoint.id);
    if 0 <= at < endpoints.len() {
        assert(placed(endpoints, endpoint)[at] == endpoint);
    } else {
        assert(placed(endpoints, endpoint)[endpoints.len() as int] == endpoint);
    }
}

proof fn lemma_placed_keeps(
    endpoints: Seq<EndpointView>,
    endpoint: EndpointView,
    other: EndpointView,
)
    requires
        endpoints.contains(other),
        other.id != endpoint.id,
    ensures
        placed(endpoints, endpoint).contains(other),
{
    lemma_last_with_id(endpoints, endpoint.id);
    let k = choose|k: int| 0 <= k < endpoints.len() && endpoints[k] == other;
    assert(placed(endpoints, endpoint)[k] == other);
}

proof fn lemma_same_tab_index(a: Seq<TabView>, b: Seq<TabView>, id: Seq<char>)
    requires
        a.len() == b.len(),
        forall|k: int| 0 <= k < a.len() ==> (#[trigger] a[k]).id == b[k].id,
    ensures
        tabs::tab_index(a, id) == tabs::tab_index(b, id),
    decreases a.len(),
{
    if a.len() > 0 && a[0].id != id {
        assert forall|k: int| 0 <= k < a.drop_first().len() implies (
        #[trigger] a.drop_first()[k]).id == b.drop_first()[k].id by {
            assert(a[k + 1].id == b[k + 1].id);
        }
        lemma_same_tab_index(a.drop_first(), b.drop_first(), id);
    }
}

/// The draft of the tab with the id, as it is saved.
pub open spec fn draft_to_save(open: Seq<TabView>, id: Seq<char>) -> EndpointView {
    urls::with_query_apart(open[tabs::tab_index(open, id)].draft)
}

/// Whether the ids are those of open tabs with drafts of different endpoints.
pub open spec fn have_own_drafts(open: Seq<TabView>, ids: Seq<Seq<char>>) -> bool {
    &&& forall|i: int| 0 <= i < ids.len() ==> tabs::has_tab(open, #[trigger] ids[i])
    &&& forall|i: int, j: int|
        0 <= i < j < ids.len() ==> draft_to_save(open, #[trigger] ids[i]).id != draft_to_save(
            open,
            #[trigger] ids[j],
        ).id
}

proof fn lemma_saved(endpoints: Seq<EndpointView>, open: Seq<TabView>, ids: Seq<Seq<char>>)
    requires
        have_own_drafts(open, ids),
    ensures
        ({
            let after = saved(endpoints, open, ids);
            &&& after.2 == ids.len()
            &&& after.1.len() == open.len()
            &&& forall|k: int| 0 <= k < open.len() ==> (#[trigger] after.1[k]).id == open[k].id
            &&& forall|k: int|
                0 <= k < open.len() && (forall|i: int|
                    0 <= i < ids.len() ==> tabs::tab_index(open, #[trigger] ids[i]) != k)
                    ==> #[trigger] after.1[k] == open[k]
            &&& forall|i: int|
                0 <= i < ids.len() ==> after.0.contains(draft_to_save(open, #[trigger] ids[i]))
        }),
    decreases ids.len(),
{
    if ids.len() > 0 {
        let rest = ids.drop_last();
        assert forall|i: int| 0 <= i < rest.len() implies tabs::has_tab(
            open,
            #[trigger] rest[i],
        ) by {
            assert(rest[i] == ids[i]);
        }
        assert forall|i: int, j: int| 0 <= i < j < rest.len() implies draft_to_save(
            open,
            #[trigger] rest[i],
        ).id != draft_to_save(open, #[trigger] rest[j]).id by {
            assert(rest[i] == ids[i] && rest[j] == ids[j]);
        }
        lemma_saved(endpoints, open, rest);
        let before = saved(endpoints, open, rest);
        let after = saved(endpoints, open, ids);
        let last = ids.last();
        assert(last == ids[ids.len() - 1]);
        lemma_same_tab_index(before.1, open, last);
        tabs::lemma_tab_index(open, last);
        let at = tabs::tab_index(open, last);
        assert forall|i: int| 0 <= i < rest.len() implies tabs::tab_index(
            open,
            #[trigger] rest[i],
        ) != at by {
            assert(rest[i] == ids[i]);
        }
        assert(before.1[at] == open[at]);
        let draft = draft_to_save(open, last);
        assert(after.0 == placed(before.0, draft));
        lemma_placed_is_there(before.0, draft);
        assert forall|i: int| 0 <= i < ids.len() implies after.0.contains(
            draft_to_save(open, #[trigger] ids[i]),
        ) by {
            if i < rest.len() {
                assert(rest[i] == ids[i]);
                lemma_placed_keeps(before.0, draft, draft_to_save(open, ids[i]));
            }
        }
        assert forall|k: int|
            0 <= k < open.len() && (forall|i: int|
                0 <= i < ids.len() ==> tabs::tab_index(open, #[trigger] ids[i])
                    != k) implies #[trigger] after.1[k] == open[k] by {
            assert forall|i: int| 0 <= i < rest.len() implies tabs::tab_index(
                open,
                #[trigger] rest[i],
            ) != k by {
                assert(rest[i] == ids[i]);
            }
            assert(tabs::tab_index(open, ids[ids.len() - 1]) != k);
            assert(before.1[k] == open[k]);
        }
    }
}

/// Saving tabs stores the draft of each, where they are drafts of different endpoints.
pub proof fn law_saving_stores_the_drafts(ws: WorkspaceView, ids: Seq<Seq<char>>, now: u64)
    requires
        have_own_drafts(ws.open_request_tabs, ids),
    ensures
        forall|i: int|
            0 <= i < ids.len() ==> with_saved(ws, ids, now).saved_endpoints.contains(
                draft_to_save(ws.open_request_tabs, #[trigger] ids[i]),
            ),
{
    let open = ws.open_request_tabs;
    lemma_saved(ws.saved_endpoints, open, ids);
    let after = saved(ws.saved_endpoints, open, ids);
    assert forall|i: int| 0 <= i < ids.len() implies with_saved(
        ws,
        ids,
        now,
    ).saved_endpoints.contains(draft_to_save(open, #[trigger] ids[i])) by {
        sorting::law_sorting_keeps_endpoints(after.0, draft_to_save(open, ids[i]));
    }
}

// ---------------------------------------------------------------------------
// Closing and deleting
// ---------------------------------------------------------------------------

/// The workspace without the tabs that have no unsaved changes.
pub open spec fn with_saved_closed(ws: WorkspaceView, now: u64) -> WorkspaceView {
    let left = ws.open_request_tabs.filter(|tab: TabView| tab.is_dirty);
    WorkspaceView {
        status_line: "Closed "@ + text::decimal(
            (ws.open_request_tabs.len() - left.len()) as nat,
        ) + " saved tabs."@,
        ..workspace::ui_touched(
            workspace::with_selection(WorkspaceView { open_request_tabs: left, ..ws }),
            now,
        )
    }
}

/// The tabs without those whose ids are given.
pub open spec fn without_tabs(open: Seq<TabView>, ids: Seq<Seq<char>>) -> Seq<TabView> {
    open.filter(|tab: TabView| !ids.contains(tab.id))
}

/// The workspace without the tabs whose ids are given.
pub open spec fn with_closed(ws: WorkspaceView, ids: Seq<Seq<char>>) -> WorkspaceView {
    let left = without_tabs(ws.open_request_tabs, ids);
    WorkspaceView {
        open_request_tabs: left,
        active_request_tab_id: match ws.active_request_tab_id {
            Some(id) => if ids.contains(id) {
                tabs::first_tab_id(left)
            } else {
                Some(id)
            },
            None => None,
        },
        ..ws
    }
}

/// The saved endpoints that the tabs with the ids show.
pub open spec fn shown_ids(open: Seq<TabView>, ids: Seq<Seq<char>>) -> Seq<Seq<char>> {
    open.filter_map(
        |tab: TabView|
            if ids.contains(tab.id) {
                tab.saved_endpoint_id
            } else {
                None
            },
    )
}

pub open spec fn without_endpoints(endpoints: Seq<EndpointView>, ids: Seq<Seq<char>>) -> Seq<
    EndpointView,
> {
    endpoints.filter(|endpoint: EndpointView| !ids.contains(endpoint.id))
}

/// The tabs that a pending action is about.
pub open spec fn targets(
    action: PendingView,
    open: Seq<TabView>,
    active: Option<Seq<char>>,
) -> Seq<Seq<char>> {
    match action {
        PendingView::CloseTab { tab_id } => seq![tab_id],
        PendingView::CloseAll => open.map_values(|tab: TabView| tab.id),
        PendingView::DeleteAll => open.map_values(|tab: TabView| tab.id),
        PendingView::DeleteActive => match active {
            Some(id) => seq![id],
            None => Seq::empty(),
        },
    }
}

/// Those of the tabs with the ids that have unsaved changes.
pub open spec fn dirty_among(open: Seq<TabView>, ids: Seq<Seq<char>>) -> Seq<Seq<char>> {
    open.filter_map(
        |tab: TabView|
            if ids.contains(tab.id) && tab.is_dirty {
                Some(tab.id)
            } else {
                None
            },
    )
}

/// The workspace once an action on the tabs with the ids was carried out.
pub open spec fn carried_out(
    ws: WorkspaceView,
    action: PendingView,
    ids: Seq<Seq<char>>,
    now: u64,
) -> WorkspaceView {
    let after = match action {
        PendingView::CloseTab { .. } => with_closed(ws, ids),
        PendingView::CloseAll => with_closed(ws, ids),
        PendingView::DeleteActive => with_closed(
            WorkspaceView {
                saved_endpoints: without_endpoints(
                    ws.saved_endpoints,
                    shown_ids(ws.open_request_tabs, ids),
                ),
                ..ws
            },
            ids,
        ),
        PendingView::DeleteAll => WorkspaceView {
            saved_endpoints: Seq::empty(),
            open_request_tabs: Seq::empty(),
            active_request_tab_id: None,
            ..ws
        },
    };
    workspace::ui_touched(workspace::with_selection(synced(after)), now)
}

/// What is to be done for a pending action.
pub struct PendingPlan {
    pub action: PendingRequestAction,
    /// The tabs that the action is about.
    pub target_tab_ids: Vec<String>,
    /// Those of them with unsaved changes.
    pub dirty_tab_ids: Vec<String>,
}

fn has_text(items: &Vec<String>, content: &str) -> (r: bool)
    ensures
        r == text::views(items@).contains(content@),
{
    let mut i: usize = 0;
    while i < items.len()
        invariant
            i <= items@.len(),
            forall|j: int| 0 <= j < i ==> (#[trigger] items@[j])@ != content@,
        decreases items@.len() - i,
    {
        if same_text(items[i].as_str(), content) {
            assert(text::views(items@)[i as int] == content@);
            return true;
        }
        i += 1;
    }
    assert forall|j: int| 0 <= j < text::views(items@).len() implies text::views(items@)[j]
        != content@ by {
        assert(text::views(items@)[j] == items@[j]@);
    }
    false
}

fn keep_tabs_where(open: Vec<RequestTab>, ids: &Vec<String>) -> (r: Vec<RequestTab>)
    ensures
        text::views(r@) == without_tabs(text::views(open@), text::views(ids@)),
{
    let ghost given = open@;
    let ghost all = text::views(given);
    let ghost closed = text::views(ids@);
    let ghost p = |tab: TabView| !closed.contains(tab.id);
    let mut r: Vec<RequestTab> = Vec::new();
    reveal(Seq::filter);
    assert(text::views(r@) =~= all.take(0).filter(p));
    for tab in it: open
        invariant
            it.seq() == given,
            all == text::views(given),
            closed == text::views(ids@),
            p == (|tab: TabView| !closed.contains(tab.id)),
            text::views(r@) == all.take(it.index() as int).filter(p),
    {
        proof {
            let n = it.index() as int;
            assert(tab == given[n]);
            assert(all.take(n + 1).drop_last() =~= all.take(n));
            assert(all.take(n + 1).last() == tab@);
            text::lemma_views_push(r@, tab);
            reveal(Seq::filter);
        }
        if !has_text(ids, tab.id.as_str()) {
            r.push(tab);
        }
    }
    assert(all.take(all.len() as int) =~= all);
    r
}

fn keep_dirty_tabs(open: Vec<RequestTab>) -> (r: Vec<RequestTab>)
    ensures
        text::views(r@) == text::views(open@).filter(|tab: TabView| tab.is_dirty),
{
    let ghost given = open@;
    let ghost all = text::views(given);
    let ghost p = |tab: TabView| tab.is_dirty;
    let mut r: Vec<RequestTab> = Vec::new();
    reveal(Seq::filter);
    assert(text::views(r@) =~= all.take(0).filter(p));
    for tab in it: open
        invariant
            it.seq() == given,
            all == text::views(given),
            p == (|tab: TabView| tab.is_dirty),
            text::views(r@) == all.take(it.index() as int).filter(p),
    {
        proof {
            let n = it.index() as int;
            assert(tab == given[n]);
            assert(all.take(n + 1).drop_last() =~= all.take(n));
            assert(all.take(n + 1).last() == tab@);
            text::lemma_views_push(r@, tab);
            reveal(Seq::filter);
        }
        if tab.is_dirty {
            r.push(tab);
        }
    }
    assert(all.take(all.len() as int) =~= all);
    r
}

fn keep_endpoints_where(endpoints: Vec<Endpoint>, ids: &Vec<String>) -> (r: Vec<Endpoint>)
    ensures
        text::views(r@) == without_endpoints(text::views(endpoints@), text::views(ids@)),
{
    let ghost given = endpoints@;
    let ghost all = text::views(given);
    let ghost deleted = text::views(ids@);
    let ghost p = |endpoint: EndpointView| !deleted.contains(endpoint.id);
    let mut r: Vec<Endpoint> = Vec::new();
    reveal(Seq::filter);
    assert(text::views(r@) =~= all.take(0).filter(p));
    for endpoint in it: endpoints
        invariant
            it.seq() == given,
            all == text::views(given),
            deleted == text::views(ids@),
            p == (|endpoint: EndpointView| !deleted.contains(endpoint.id)),
            text::views(r@) == all.take(it.index() as int).filter(p),
    {
        proof {
            let n = it.index() as int;
            assert(endpoint == given[n]);
            assert(all.take(n + 1).drop_last() =~= all.take(n));
            assert(all.take(n + 1).last() == endpoint@);
            text::lemma_views_push(r@, endpoint);
            reveal(Seq::filter);
        }
        if !has_text(ids, endpoint.id.as_str()) {
            r.push(endpoint);
        }
    }
    assert(all.take(all.len() as int) =~= all);
    r
}

fn tab_ids(open: &Vec<RequestTab>) -> (r: Vec<String>)
    ensures
        text::views(r@) == text::views(open@).map_values(|tab: TabView| tab.id),
{
    let mut r: Vec<String> = Vec::new();
    let mut i: usize = 0;
    while i < open.len()
        invariant
            i <= open@.len(),
            r@.len() == i,
            forall|j: int| 0 <= j < i ==> (#[trigger] r@[j])@ == open@[j].id@,
        decreases open@.len() - i,
    {
        r.push(open[i].id.clone());
        i += 1;
    }
    assert(text::views(r@) =~= text::views(open@).map_values(|tab: TabView| tab.id));
    r
}

fn find_dirty_among(open: &Vec<RequestTab>, ids: &Vec<String>) -> (r: Vec<String>)
    ensures
        text::views(r@) == dirty_among(text::views(open@), text::views(ids@)),
{
    let ghost all = text::views(open@);
    let ghost wanted = text::views(ids@);
    let ghost f = |tab: TabView|
        if wanted.contains(tab.id) && tab.is_dirty {
            Some(tab.id)
        } else {
            None
        };
    let mut r: Vec<String> = Vec::new();
    let mut i: usize = 0;
    assert(text::views(r@) =~= all.take(0).filter_map(f));
    while i < open.len()
        invariant
            i <= open@.len(),
            all == text::views(open@),
            wanted == text::views(ids@),
            f == (|tab: TabView|
                if wanted.contains(tab.id) && tab.is_dirty {
                    Some(tab.id)
                } else {
                    None
                }),
            text::views(r@) == all.take(i as int).filter_map(f),
        decreases open@.len() - i,
    {
        proof {
            all.lemma_filter_map_take_succ(f, i as int);
        }
        if open[i].is_dirty && has_text(ids, open[i].id.as_str()) {
            let id = open[i].id.clone();
            proof {
                text::lemma_views_push(r@, id);
            }
            r.push(id);
        }
        i += 1;
    }
    assert(all.take(all.len() as int) =~= all);
    r
}

fn find_shown(open: &Vec<RequestTab>, ids: &Vec<String>) -> (r: Vec<String>)
    ensures
        text::views(r@) == shown_ids(text::views(open@), text::views(ids@)),
{
    let ghost all = text::views(open@);
    let ghost wanted = text::views(ids@);
    let ghost f = |tab: TabView|
        if wanted.contains(tab.id) {
            tab.saved_endpoint_id
        } else {
            None
        };
    let mut r: Vec<String> = Vec::new();
    let mut i: usize = 0;
    assert(text::views(r@) =~= all.take(0).filter_map(f));
    while i < open.len()
        invariant
            i <= open@.len(),
            all == text::views(open@),
            wanted == text::views(ids@),
            f == (|tab: TabView|
                if wanted.contains(tab.id) {
                    tab.saved_endpoint_id
                } else {
                    None
                }),
            text::views(r@) == all.take(i as int).filter_map(f),
        decreases open@.len() - i,
    {
        proof {
            all.lemma_filter_map_take_succ(f, i as int);
        }
        if has_text(ids, open[i].id.as_str()) {
            match &open[i].saved_endpoint_id {
                Some(id) => {
                    let id = id.clone();
                    proof {
                        text::lemma_views_push(r@, id);
                    }
                    r.push(id);
                },
                None => {},
            }
        }
        i += 1;
    }
    assert(all.take(all.len() as int) =~= all);
    r
}

impl Workspace {
    /// Closes the tabs that have no unsaved changes.
    pub fn close_all_saved_tabs(&mut self, now: u64)
        ensures
            final(self)@ == with_saved_closed(old(self)@, now),
    {
        let before: usize = self.open_request_tabs.len();
        let mut open: Vec<RequestTab> = Vec::new();
        std::mem::swap(&mut self.open_request_tabs, &mut open);
        proof {
            old(self)@.open_request_tabs.lemma_filter_len(|tab: TabView| tab.is_dirty);
        }
        self.open_request_tabs = keep_dirty_tabs(open);
        let closed: usize = before - self.open_request_tabs.len();
        self.ensure_selected_ids();
        self.mark_workspace_ui_dirty(now);
        self.status_line = concat3(
            "Closed ",
            decimal_text(closed as u64).as_str(),
            " saved tabs.",
        );
    }

    fn close_tabs(&mut self, ids: &Vec<String>)
        ensures
            final(self)@ == with_closed(old(self)@, text::views(ids@)),
    {
        let mut open: Vec<RequestTab> = Vec::new();
        std::mem::swap(&mut self.open_request_tabs, &mut open);
        self.open_request_tabs = keep_tabs_where(open, ids);
        let closed = match &self.active_request_tab_id {
            Some(id) => has_text(ids, id.as_str()),
            None => false,
        };
        if closed {
            self.active_request_tab_id = first_id(&self.open_request_tabs);
        }
    }

    /// Asks to delete the request of the active tab.
    pub fn delete_selected_endpoint(&mut self)
        ensures
            final(self)@ == (match old(self)@.active_request_tab_id {
                Some(id) => if tabs::has_tab(old(self)@.open_request_tabs, id) {
                    WorkspaceView {
                        pending_request_action: Some(PendingView::DeleteActive),
                        ..old(self)@
                    }
                } else {
                    old(self)@
                },
                None => old(self)@,
            }),
    {
        let open = match &self.active_request_tab_id {
            Some(id) => find_tab(&self.open_request_tabs, id.as_str())
                < self.open_request_tabs.len(),
            None => false,
        };
        if open {
            self.pending_request_action = Some(PendingRequestAction::DeleteActive);
        }
    }

    /// Asks to delete all requests.
    pub fn delete_all_requests(&mut self)
        ensures
            final(self)@ == (WorkspaceView {
                pending_request_action: Some(PendingView::DeleteAll),
                ..old(self)@
            }),
    {
        self.pending_request_action = Some(PendingRequestAction::DeleteAll);
    }

    /// The tabs that the pending action is about.
    pub fn pending_request_action_target_tab_ids(&self) -> (r: Vec<String>)
        ensures
            text::views(r@) == (match self@.pending_request_action {
                Some(action) => targets(
                    action,
                    self@.open_request_tabs,
                    self@.active_request_tab_id,
                ),
                None => Seq::empty(),
            }),
    {
        let mut one: Vec<String> = Vec::new();
        let ghost none = text::views(one@);
        assert(none =~= Seq::empty());
        match &self.pending_request_action {
            Some(PendingRequestAction::CloseTab { tab_id }) => {
                one.push(tab_id.clone());
                assert(text::views(one@) =~= seq![tab_id@]);
            },
            Some(PendingRequestAction::CloseAll) => {
                return tab_ids(&self.open_request_tabs);
            },
            Some(PendingRequestAction::DeleteAll) => {
                return tab_ids(&self.open_request_tabs);
            },
            Some(PendingRequestAction::DeleteActive) => {
                match &self.active_request_tab_id {
                    Some(id) => {
                        one.push(id.clone());
                        assert(text::views(one@) =~= seq![id@]);
                    },
                    None => {},
                }
            },
            None => {},
        }
        one
    }

    /// Those of the tabs that the pending action is about that have unsaved changes.
    pub fn pending_request_action_dirty_tab_ids(&self) -> (r: Vec<String>)
        ensures
            text::views(r@) == (match self@.pending_request_action {
                Some(action) => dirty_among(
                    self@.open_request_tabs,
                    targets(action, self@.open_request_tabs, self@.active_request_tab_id),
                ),
                None => dirty_among(self@.open_request_tabs, Seq::empty()),
            }),
    {
        let ids = self.pending_request_action_target_tab_ids();
        find_dirty_among(&self.open_request_tabs, &ids)
    }

    /// Begins to carry out the pending action: what it is about is settled, and the unsaved
    /// changes of those tabs are saved if they are to be. Nothing is done where none is pending.
    pub fn begin_pending_request_action(&mut self, save_dirty: bool, now: u64) -> (r: Option<
        PendingPlan,
    >)
        ensures
            ({
                let before = old(self)@;
                match before.pending_request_action {
                    Some(action) => {
                        let ids = targets(
                            action,
                            before.open_request_tabs,
                            before.active_request_tab_id,
                        );
                        let dirty = dirty_among(before.open_request_tabs, ids);
                        &&& r matches Some(plan) && plan.action@ == action && text::views(
                            plan.target_tab_ids@,
                        ) == ids && text::views(plan.dirty_tab_ids@) == dirty
                        &&& final(self)@ == (if save_dirty {
                            with_saved(before, dirty, now)
                        } else {
                            before
                        })
                    },
                    None => r is None && final(self)@ == before,
                }
            }),
    {
        let action = match &self.pending_request_action {
            Some(action) => action.clone(),
            None => {
                return None;
            },
        };
        let target_tab_ids = self.pending_request_action_target_tab_ids();
        let dirty_tab_ids = find_dirty_among(&self.open_request_tabs, &target_tab_ids);
        if save_dirty {
            let _ = self.save_request_tabs(&dirty_tab_ids, now);
        }
        Some(PendingPlan { action, target_tab_ids, dirty_tab_ids })
    }

    /// Carries out what was pending. It stays pending until the outcome is stored.
    pub fn resolve_pending_request_action(&mut self, plan: &PendingPlan, now: u64)
        ensures
            final(self)@ == carried_out(
                old(self)@,
                plan.action@,
                text::views(plan.target_tab_ids@),
                now,
            ),
    {
        match &plan.action {
            PendingRequestAction::CloseTab { tab_id: _ } => {
                self.close_tabs(&plan.target_tab_ids);
            },
            PendingRequestAction::CloseAll => {
                self.close_tabs(&plan.target_tab_ids);
            },
            PendingRequestAction::DeleteActive => {
                let shown = find_shown(&self.open_request_tabs, &plan.target_tab_ids);
                let mut endpoints: Vec<Endpoint> = Vec::new();
                std::mem::swap(&mut self.saved_endpoints, &mut endpoints);
                self.saved_endpoints = keep_endpoints_where(endpoints, &shown);
                self.close_tabs(&plan.target_tab_ids);
            },
            PendingRequestAction::DeleteAll => {
                self.saved_endpoints = Vec::new();
                self.open_request_tabs = Vec::new();
                self.active_request_tab_id = None;
                assert(text::views(self.saved_endpoints@) =~= Seq::empty());
                assert(text::views(self.open_request_tabs@) =~= Seq::empty());
            },
        }
        self.sync_clean_tabs_from_saved_endpoints();
        self.ensure_selected_ids();
        self.mark_workspace_ui_dirty(now);
    }

    /// Notes that requests and tabs were stored.
    pub fn finish_request_save(&mut self)
        ensures
            final(self)@ == (WorkspaceView { workspace_ui_dirty: false, ..old(self)@ }),
    {
        self.workspace_ui_dirty = false;
    }

    /// Notes that what was pending is done or given up.
    pub fn clear_pending_request_action(&mut self)
        ensures
            final(self)@ == (WorkspaceView { pending_request_action: None, ..old(self)@ }),
    {
        self.pending_request_action = None;
    }
}

proof fn lemma_kept_tab(open: Seq<TabView>, ids: Seq<Seq<char>>, i: int)
    requires
        0 <= i < open.len(),
        !ids.contains(open[i].id),
    ensures
        without_tabs(open, ids).contains(open[i]),
{
    open.lemma_filter_contains(|tab: TabView| !ids.contains(tab.id), i);
}

/// Closing tabs leaves the others open, with their unsaved changes, and deletes no saved request.
pub proof fn law_closing_leaves_the_others(
    ws: WorkspaceView,
    tab_id: Seq<char>,
    i: int,
    now: u64,
)
    requires
        0 <= i < ws.open_request_tabs.len(),
        ws.open_request_tabs[i].id != tab_id,
        ws.open_request_tabs[i].is_dirty,
    ensures
        ({
            let after = carried_out(ws, PendingView::CloseTab { tab_id }, seq![tab_id], now);
            &&& after.saved_endpoints == ws.saved_endpoints
            &&& after.open_request_tabs.contains(ws.open_request_tabs[i])
        }),
{
    let ids = seq![tab_id];
    let tab = ws.open_request_tabs[i];
    lemma_kept_tab(ws.open_request_tabs, ids, i);
    let closed = with_closed(ws, ids);
    let k = choose|k: int|
        0 <= k < closed.open_request_tabs.len() && closed.open_request_tabs[k] == tab;
    law_unsaved_changes_stay(closed, k);
}

/// Deleting all requests leaves none, saved or open.
pub proof fn law_deleting_all_leaves_none(ws: WorkspaceView, ids: Seq<Seq<char>>, now: u64)
    ensures
        ({
            let after = carried_out(ws, PendingView::DeleteAll, ids, now);
            &&& after.saved_endpoints.len() == 0
            &&& after.open_request_tabs.len() == 0
            &&& after.active_request_tab_id is None
        }),
{
}

/// Whatever is carried out, the selection is valid after it.
pub proof fn law_actions_keep_the_selection_valid(
    ws: WorkspaceView,
    action: PendingView,
    ids: Seq<Seq<char>>,
    now: u64,
)
    ensures
        workspace::selection_is_valid(carried_out(ws, action, ids, now)),
        ids.len() > 0 ==> workspace::selection_is_valid(with_saved(ws, ids, now)),
{
    let after = saved(ws.saved_endpoints, ws.open_request_tabs, ids);
    let stored = WorkspaceView {
        saved_endpoints: sorting::sorted_endpoints(after.0),
        open_request_tabs: after.1,
        ..ws
    };
    workspace::law_selection_is_mended(
        WorkspaceView {
            open_request_tabs: synced_tabs(stored.open_request_tabs, stored.saved_endpoints),
            ..stored
        },
    );
    let done = match action {
        PendingView::CloseTab { .. } => with_closed(ws, ids),
        PendingView::CloseAll => with_closed(ws, ids),
        PendingView::DeleteActive => with_closed(
            WorkspaceView {
                saved_endpoints: without_endpoints(
                    ws.saved_endpoints,
                    shown_ids(ws.open_request_tabs, ids),
                ),
                ..ws
            },
            ids,
        ),
        PendingView::DeleteAll => WorkspaceView {
            saved_endpoints: Seq::empty(),
            open_request_tabs: Seq::empty(),
            active_request_tab_id: None,
            ..ws
        },
    };
    workspace::law_selection_is_mended(synced(done));
}

// ---------------------------------------------------------------------------
// Asking for confirmation
// ---------------------------------------------------------------------------

impl PendingRequestAction {
    /// The title under which the action is confirmed.
    pub fn title(&self) -> (r: &'static str)
        ensures
            r@ == (match self@ {
                PendingView::CloseTab { .. } => "Close Request Tab"@,
                PendingView::CloseAll => "Close All Tabs"@,
                PendingView::DeleteActive => "Delete Request"@,
                PendingView::DeleteAll => "Delete All Requests"@,
            }),
    {
        match self {
            PendingRequestAction::CloseTab { tab_id: _ } => "Close Request Tab",
            PendingRequestAction::CloseAll => "Close All Tabs",
            PendingRequestAction::DeleteActive => "Delete Request",
            PendingRequestAction::DeleteAll => "Delete All Requests",
        }
    }

    /// The label of the button that saves before the action is carried out.
    pub fn save_label(&self) -> (r: &'static str)
        ensures
            r@ == (if self@ is CloseTab {
                "Save"@
            } else {
                "Save All"@
            }),
    {
        match self {
            PendingRequestAction::CloseTab { tab_id: _ } => "Save",
            _ => "Save All",
        }
    }
}

/// What is asked before an action on so many tabs with unsaved changes.
pub fn pending_question(dirty_count: usize) -> (r: &'static str)
    ensures
        r@ == (if dirty_count == 0 {
            "This action will apply immediately."@
        } else if dirty_count == 1 {
            "There is 1 dirty request tab. Save it before continuing?"@
        } else {
            "There are dirty request tabs. Save them before continuing?"@
        }),
{
    if dirty_count == 0 {
        "This action will apply immediately."
    } else if dirty_count == 1 {
        "There is 1 dirty request tab. Save it before continuing?"
    } else {
        "There are dirty request tabs. Save them before continuing?"
    }
}

/// What is said once drafts were saved.
pub fn saved_message(saved: usize) -> (r: String)
    ensures
        r@ == (if saved == 0 {
            "No dirty request tabs to save."@
        } else {
            "Saved "@ + text::decimal(saved as nat) + " request tab(s)."@
        }),
{
    if saved == 0 {
        "No dirty request tabs to save.".to_owned()
    } else {
        concat3("Saved ", decimal_text(saved as u64).as_str(), " request tab(s).")
    }
}

/// A tab whose draft was saved has no unsaved changes any more and shows the saved request.
pub proof fn law_saved_tabs_are_clean(ws: WorkspaceView, ids: Seq<Seq<char>>, i: int, now: u64)
    requires
        have_own_drafts(ws.open_request_tabs, ids),
        0 <= i < ids.len(),
    ensures
        exists|k: int|
            0 <= k < with_saved(ws, ids, now).open_request_tabs.len() && {
                let tab = #[trigger] with_saved(ws, ids, now).open_request_tabs[k];
                &&& tab.id == ids[i]
                &&& !tab.is_dirty
                &&& tab.saved_endpoint_id == Some(draft_to_save(ws.open_request_tabs, ids[i]).id)
            },
{
    let open = ws.open_request_tabs;
    let at = tabs::tab_index(open, ids[i]);
    let draft = draft_to_save(open, ids[i]);
    tabs::lemma_tab_index(open, ids[i]);
    assert(tabs::has_tab(open, ids[i]));
    lemma_saved(ws.saved_endpoints, open, ids);
    lemma_saved_tab(ws.saved_endpoints, open, ids, i);
    let after = saved(ws.saved_endpoints, open, ids);
    let stored = sorting::sorted_endpoints(after.0);
    sorting::law_sorting_keeps_endpoints(after.0, draft);
    assert(after.0.contains(draft_to_save(open, ids[i])));
    let j = choose|j: int| 0 <= j < stored.len() && stored[j] == draft;
    tabs::lemma_some_endpoint_is_found(stored, draft.id, j);
    let f = |tab: TabView| synced_tab(tab, stored);
    let tab = f(after.1[at])->0;
    text::lemma_filter_map_holds(after.1, f, at, tab);
    let shown = with_saved(ws, ids, now).open_request_tabs;
    assert(shown == synced_tabs(after.1, stored));
    let k = choose|k: int| 0 <= k < shown.len() && shown[k] == tab;
    assert(shown[k].id == ids[i]);
}

proof fn lemma_saved_tab(
    endpoints: Seq<EndpointView>,
    open: Seq<TabView>,
    ids: Seq<Seq<char>>,
    i: int,
)
    requires
        have_own_drafts(open, ids),
        0 <= i < ids.len(),
    ensures
        ({
            let at = tabs::tab_index(open, ids[i]);
            let after = saved(endpoints, open, ids).1;
            &&& 0 <= at < after.len()
            &&& after[at] == saved_as(open[at])
        }),
    decreases ids.len(),
{
    let rest = ids.drop_last();
    assert forall|k: int| 0 <= k < rest.len() implies tabs::has_tab(open, #[trigger] rest[k]) by {
        assert(rest[k] == ids[k]);
    }
    assert forall|k: int, j: int| 0 <= k < j < rest.len() implies draft_to_save(
        open,
        #[trigger] rest[k],
    ).id != draft_to_save(open, #[trigger] rest[j]).id by {
        assert(rest[k] == ids[k] && rest[j] == ids[j]);
    }
    lemma_saved(endpoints, open, rest);
    let before = saved(endpoints, open, rest);
    let last = ids.last();
    let n = ids.len() - 1;
    assert(last == ids[n]);
    lemma_same_tab_index(before.1, open, last);
    tabs::lemma_tab_index(open, last);
    assert(tabs::has_tab(open, ids[i]));
    tabs::lemma_tab_index(open, ids[i]);
    assert(tabs::has_tab(open, ids[n]));
    let at = tabs::tab_index(open, last);
    if i < n {
        assert(rest[i] == ids[i]);
        lemma_saved_tab(endpoints, open, rest, i);
        assert(draft_to_save(open, ids[i]).id != draft_to_save(open, ids[n]).id);
    } else {
        assert forall|k: int| 0 <= k < rest.len() implies tabs::tab_index(open, #[trigger] rest[k])
            != at by {
            assert(rest[k] == ids[k]);
            assert(draft_to_save(open, ids[k]).id != draft_to_save(open, ids[n]).id);
        }
        assert(before.1[at] == open[at]);
    }
}

/// A saved request stays as it is when drafts of others are saved.
pub proof fn law_saving_keeps_the_other_requests(
    ws: WorkspaceView,
    ids: Seq<Seq<char>>,
    other: EndpointView,
    now: u64,
)
    requires
        have_own_drafts(ws.open_request_tabs, ids),
        ws.saved_endpoints.contains(other),
        forall|i: int|
            0 <= i < ids.len() ==> draft_to_save(ws.open_request_tabs, #[trigger] ids[i]).id
                != other.id,
    ensures
        with_saved(ws, ids, now).saved_endpoints.contains(other),
{
    if ids.len() > 0 {
        lemma_other_endpoint_stays(ws.saved_endpoints, ws.open_request_tabs, ids, other);
        let after = saved(ws.saved_endpoints, ws.open_request_tabs, ids);
        sorting::law_sorting_keeps_endpoints(after.0, other);
    }
}

proof fn lemma_other_endpoint_stays(
    endpoints: Seq<EndpointView>,
    open: Seq<TabView>,
    ids: Seq<Seq<char>>,
    other: EndpointView,
)
    requires
        have_own_drafts(open, ids),
        endpoints.contains(other),
        forall|i: int|
            0 <= i < ids.len() ==> draft_to_save(open, #[trigger] ids[i]).id != other.id,
    ensures
        saved(endpoints, open, ids).0.contains(other),
    decreases ids.len(),
{
    if ids.len() > 0 {
        let rest = ids.drop_last();
        assert forall|k: int| 0 <= k < rest.len() implies tabs::has_tab(
            open,
            #[trigger] rest[k],
        ) && draft_to_save(open, rest[k]).id != other.id by {
            assert(rest[k] == ids[k]);
        }
        assert forall|k: int, j: int| 0 <= k < j < rest.len() implies draft_to_save(
            open,
            #[trigger] rest[k],
        ).id != draft_to_save(open, #[trigger] rest[j]).id by {
            assert(rest[k] == ids[k] && rest[j] == ids[j]);
        }
        lemma_other_endpoint_stays(endpoints, open, rest, other);
        lemma_saved(endpoints, open, rest);
        let before = saved(endpoints, open, rest);
        let n = ids.len() - 1;
        let last = ids.last();
        assert(last == ids[n]);
        lemma_same_tab_index(before.1, open, last);
        tabs::lemma_tab_index(open, last);
        assert(tabs::has_tab(open, ids[n]));
        let at = tabs::tab_index(open, last);
        assert forall|k: int| 0 <= k < rest.len() implies tabs::tab_index(open, #[trigger] rest[k])
            != at by {
            assert(rest[k] == ids[k]);
            assert(draft_to_save(open, ids[k]).id != draft_to_save(open, ids[n]).id);
        }
        assert(before.1[at] == open[at]);
        lemma_placed_keeps(before.0, draft_to_save(open, last), other);
    }
}

/// A tab without unsaved changes shows its request as it is saved now, and is closed where that
/// is gone.
pub proof fn law_clean_tabs_follow_the_saved_request(
    ws: WorkspaceView,
    i: int,
    id: Seq<char>,
    at: int,
)
    requires
        0 <= i < ws.open_request_tabs.len(),
        !ws.open_request_tabs[i].is_dirty,
        ws.open_request_tabs[i].saved_endpoint_id == Some(id),
        -1 <= at < ws.saved_endpoints.len(),
        at >= 0 ==> ws.saved_endpoints[at].id == id,
        forall|k: int|
            at < k < ws.saved_endpoints.len() ==> (#[trigger] ws.saved_endpoints[k]).id != id,
    ensures
        at >= 0 ==> synced(ws).open_request_tabs.contains(
            TabView { draft: ws.saved_endpoints[at], ..ws.open_request_tabs[i] },
        ),
        at < 0 ==> forall|k: int|
            0 <= k < synced(ws).open_request_tabs.len() ==> {
                let tab = #[trigger] synced(ws).open_request_tabs[k];
                tab.is_dirty || tab.saved_endpoint_id != Some(id)
            },
{
    let open = ws.open_request_tabs;
    let endpoints = ws.saved_endpoints;
    let f = |tab: TabView| synced_tab(tab, endpoints);
    tabs::law_endpoint_is_found(endpoints, id, at);
    if at >= 0 {
        let tab = TabView { draft: endpoints[at], ..open[i] };
        assert(f(open[i]) == Some(tab));
        text::lemma_filter_map_holds(open, f, i, tab);
    } else {
        let shown = synced_tabs(open, endpoints);
        assert forall|k: int| 0 <= k < shown.len() implies {
            let tab = #[trigger] shown[k];
            tab.is_dirty || tab.saved_endpoint_id != Some(id)
        } by {
            assert(shown.contains(shown[k]));
            open.lemma_filter_map_contains(f, shown[k]);
            let tab = choose|tab: TabView|
                #[trigger] open.contains(tab) && f(tab) == Some(shown[k]);
            assert(synced_tab(tab, endpoints) == Some(shown[k]));
        }
    }
}

/// A tab that is closed is gone, whatever changes it had, and no tab of that id is open.
pub proof fn law_closed_tab_is_gone(ws: WorkspaceView, tab_id: Seq<char>, now: u64)
    ensures
        ({
            let after = carried_out(ws, PendingView::CloseTab { tab_id }, seq![tab_id], now);
            forall|k: int|
                0 <= k < after.open_request_tabs.len() ==> (
                #[trigger] after.open_request_tabs[k]).id != tab_id
        }),
{
    let closed = with_closed(ws, seq![tab_id]);
    let left = closed.open_request_tabs;
    assert(seq![tab_id].contains(seq![tab_id][0]));
    let p = |tab: TabView| !seq![tab_id].contains(tab.id);
    let after = carried_out(ws, PendingView::CloseTab { tab_id }, seq![tab_id], now);
    let f = |tab: TabView| synced_tab(tab, ws.saved_endpoints);
    assert(after.open_request_tabs == synced_tabs(left, ws.saved_endpoints));
    assert forall|k: int| 0 <= k < after.open_request_tabs.len() implies (
    #[trigger] after.open_request_tabs[k]).id != tab_id by {
        let shown = after.open_request_tabs[k];
        assert(after.open_request_tabs.contains(shown));
        left.lemma_filter_map_contains(f, shown);
        let tab = choose|tab: TabView| #[trigger] left.contains(tab) && f(tab) == Some(shown);
        assert(synced_tab(tab, ws.saved_endpoints) == Some(shown));
        ws.open_request_tabs.lemma_filter_contains_rev(p, tab);
        let j = choose|j: int| 0 <= j < left.len() && left[j] == tab;
        ws.open_request_tabs.lemma_filter_pred(p, j);
    }
}

/// Deleting the request of a tab deletes the saved request that it shows, and no other.
pub proof fn law_deleting_deletes_the_shown_request(
    ws: WorkspaceView,
    i: int,
    id: Seq<char>,
    other: EndpointView,
    now: u64,
)
    requires
        0 <= i < ws.open_request_tabs.len(),
        ws.open_request_tabs[i].saved_endpoint_id == Some(id),
        forall|k: int|
            0 <= k < ws.open_request_tabs.len() && k != i ==> (
            #[trigger] ws.open_request_tabs[k]).id != ws.open_request_tabs[i].id,
    ensures
        ({
            let ids = seq![ws.open_request_tabs[i].id];
            let after = carried_out(ws, PendingView::DeleteActive, ids, now);
            &&& forall|k: int|
                0 <= k < after.saved_endpoints.len() ==> (#[trigger] after.saved_endpoints[k]).id
                    != id
            &&& ws.saved_endpoints.contains(other) && other.id != id
                ==> after.saved_endpoints.contains(other)
        }),
{
    let open = ws.open_request_tabs;
    let ids = seq![open[i].id];
    let f = |tab: TabView|
        if ids.contains(tab.id) {
            tab.saved_endpoint_id
        } else {
            None
        };
    assert(ids.contains(ids[0]));
    text::lemma_filter_map_holds(open, f, i, id);
    let shown = shown_ids(open, ids);
    let p = |endpoint: EndpointView| !shown.contains(endpoint.id);
    let after = carried_out(ws, PendingView::DeleteActive, ids, now);
    assert(after.saved_endpoints == ws.saved_endpoints.filter(p));
    assert forall|k: int| 0 <= k < after.saved_endpoints.len() implies (
    #[trigger] after.saved_endpoints[k]).id != id by {
        ws.saved_endpoints.lemma_filter_pred(p, k);
    }
    if ws.saved_endpoints.contains(other) && other.id != id {
        if shown.contains(other.id) {
            open.lemma_filter_map_contains(f, other.id);
            let tab = choose|tab: TabView| #[trigger] open.contains(tab) && f(tab) == Some(
                other.id,
            );
            let k = choose|k: int| 0 <= k < open.len() && open[k] == tab;
            assert(open[k].id == open[i].id);
        }
        let k = choose|k: int| 0 <= k < ws.saved_endpoints.len() && ws.saved_endpoints[k] == other;
        ws.saved_endpoints.lemma_filter_contains(p, k);
    }
}

/// Closing the tabs without unsaved changes leaves those with some, all of them, and no other.
pub proof fn law_tabs_with_changes_stay_open(ws: WorkspaceView, i: int, now: u64)
    requires
        0 <= i < ws.open_request_tabs.len(),
    ensures
        ({
            let after = with_saved_closed(ws, now);
            &&& ws.open_request_tabs[i].is_dirty ==> after.open_request_tabs.contains(
                ws.open_request_tabs[i],
            )
            &&& forall|k: int|
                0 <= k < after.open_request_tabs.len() ==> (
                #[trigger] after.open_request_tabs[k]).is_dirty
            &&& after.saved_endpoints == ws.saved_endpoints
        }),
{
    let p = |tab: TabView| tab.is_dirty;
    let after = with_saved_closed(ws, now);
    if p(ws.open_request_tabs[i]) {
        ws.open_request_tabs.lemma_filter_contains(p, i);
    }
    assert forall|k: int| 0 <= k < after.open_request_tabs.len() implies (
    #[trigger] after.open_request_tabs[k]).is_dirty by {
        ws.open_request_tabs.lemma_filter_pred(p, k);
    }
}

/// The tabs with unsaved changes are those that are asked about and saved: all of them among the
/// tabs that an action is about, and no others.
pub proof fn law_unsaved_changes_are_asked_about(open: Seq<TabView>, ids: Seq<Seq<char>>, i: int)
    requires
        0 <= i < open.len(),
        open[i].is_dirty,
    ensures
        dirty_ids(open).contains(open[i].id),
        ids.contains(open[i].id) ==> dirty_among(open, ids).contains(open[i].id),
        forall|k: int|
            0 <= k < dirty_among(open, ids).len() ==> ids.contains(
                #[trigger] dirty_among(open, ids)[k],
            ),
{
    let f = |tab: TabView|
        if tab.is_dirty {
            Some(tab.id)
        } else {
            None
        };
    text::lemma_filter_map_holds(open, f, i, open[i].id);
    let g = |tab: TabView|
        if ids.contains(tab.id) && tab.is_dirty {
            Some(tab.id)
        } else {
            None
        };
    if ids.contains(open[i].id) {
        text::lemma_filter_map_holds(open, g, i, open[i].id);
    }
    let asked = dirty_among(open, ids);
    assert forall|k: int| 0 <= k < asked.len() implies ids.contains(#[trigger] asked[k]) by {
        assert(asked.contains(asked[k]));
        open.lemma_filter_map_contains(g, asked[k]);
    }
}

/// An action is about the tab that it names, the active one, or all of them.
pub proof fn law_actions_have_their_tabs(
    open: Seq<TabView>,
    active: Option<Seq<char>>,
    tab_id: Seq<char>,
    i: int,
)
    requires
        0 <= i < open.len(),
    ensures
        targets(PendingView::CloseTab { tab_id }, open, active) == seq![tab_id],
        targets(PendingView::CloseAll, open, active).contains(open[i].id),
        targets(PendingView::DeleteAll, open, active).contains(open[i].id),
        active == Some(tab_id) ==> targets(PendingView::DeleteActive, open, active) == seq![tab_id],
        active is None ==> targets(PendingView::DeleteActive, open, active).len() == 0,
{
    let all = open.map_values(|tab: TabView| tab.id);
    assert(all[i] == open[i].id);
}

/// Closing tabs closes those and no others. The active tab stays active, unless it is closed: then
/// the first that is left becomes active.
pub proof fn law_closing_keeps_the_active_tab(
    ws: WorkspaceView,
    ids: Seq<Seq<char>>,
    id: Seq<char>,
    tab: TabView,
)
    requires
        ws.active_request_tab_id == Some(id),
    ensures
        ({
            let after = with_closed(ws, ids);
            let left = after.open_request_tabs;
            &&& !ids.contains(id) ==> after.active_request_tab_id == Some(id)
            &&& ids.contains(id) && left.len() > 0 ==> after.active_request_tab_id == Some(
                left[0].id,
            )
            &&& ids.contains(id) && left.len() == 0 ==> after.active_request_tab_id is None
            &&& left.contains(tab) <==> ws.open_request_tabs.contains(tab) && !ids.contains(tab.id)
            &&& after.saved_endpoints == ws.saved_endpoints
            &&& after.environments == ws.environments
        }),
{
    let p = |tab: TabView| !ids.contains(tab.id);
    let open = ws.open_request_tabs;
    let left = with_closed(ws, ids).open_request_tabs;
    if left.contains(tab) {
        open.lemma_filter_contains_rev(p, tab);
        let j = choose|j: int| 0 <= j < left.len() && left[j] == tab;
        open.lemma_filter_pred(p, j);
    }
    if open.contains(tab) && !ids.contains(tab.id) {
        let i = choose|i: int| 0 <= i < open.len() && open[i] == tab;
        open.lemma_filter_contains(p, i);
    }
}

} // verus!
