//! Request tabs.
use crate::defaults;
use crate::defaults::create_id;
use crate::display;
use crate::display::chunk_response_body;
use crate::json;
use crate::json::{read_json, Json, JsonTree};
use crate::models;
use crate::models::{
    Endpoint, EndpointView, PersistedRequestTab, PersistedTabView, RequestEditorTab,
    ResponseState, ResponseView, ResponseViewTab, WorkspaceUiState, WorkspaceUiView,
};
use crate::text;
use crate::text::{blank, concat2, copy_opt, same_text, trimmed};
use vstd::prelude::*;

verus! {

/// An open request: a draft of an endpoint, and the last response to it.
pub struct RequestTab {
    pub id: String,
    /// The saved endpoint that the tab shows; `None` for one that was never saved.
    pub saved_endpoint_id: Option<String>,
    pub draft: Endpoint,
    /// Whether the draft differs from what was saved.
    pub is_dirty: bool,
    pub editor_tab: RequestEditorTab,
    pub response_view_tab: ResponseViewTab,
    pub response: ResponseState,
    /// The chunks in which the body of the response is shown.
    pub response_raw_chunks: Vec<String>,
    /// The body of the response, where it is JSON.
    pub parsed_response_json: Option<Json>,
    /// Why the body of the response is not JSON.
    pub parsed_response_json_error: Option<String>,
    pub scripts_ran: usize,
    /// The environment that was selected when the request was sent.
    pub inflight_environment_id: Option<String>,
}

#[verifier::ext_equal]
pub struct TabView {
    pub id: Seq<char>,
    pub saved_endpoint_id: Option<Seq<char>>,
    pub draft: EndpointView,
    pub is_dirty: bool,
    pub editor_tab: RequestEditorTab,
    pub response_view_tab: ResponseViewTab,
    pub response: ResponseView,
    pub response_raw_chunks: Seq<Seq<char>>,
    pub parsed_response_json: Option<JsonTree>,
    pub parsed_response_json_error: Option<Seq<char>>,
    pub scripts_ran: usize,
    pub inflight_environment_id: Option<Seq<char>>,
}

pub open spec fn json_opt(value: Option<Json>) -> Option<JsonTree> {
    match value {
        Some(value) => Some(value@),
        None => None,
    }
}

impl View for RequestTab {
    type V = TabView;

    open spec fn view(&self) -> TabView {
        TabView {
            id: self.id@,
            saved_endpoint_id: text::opt(self.saved_endpoint_id),
            draft: self.draft@,
            is_dirty: self.is_dirty,
            editor_tab: self.editor_tab,
            response_view_tab: self.response_view_tab,
            response: self.response@,
            response_raw_chunks: text::views(self.response_raw_chunks@),
            parsed_response_json: json_opt(self.parsed_response_json),
            parsed_response_json_error: text::opt(self.parsed_response_json_error),
            scripts_ran: self.scripts_ran,
            inflight_environment_id: text::opt(self.inflight_environment_id),
        }
    }
}

/// The tab without anything that was read from a response.
pub open spec fn without_caches(tab: TabView) -> TabView {
    TabView {
        response_raw_chunks: Seq::empty(),
        parsed_response_json: None,
        parsed_response_json_error: None,
        ..tab
    }
}

/// The tab with what is read from its response: the chunks of the body, and the body as JSON.
pub open spec fn with_caches(tab: TabView) -> TabView {
    let body = tab.response.body;
    TabView {
        response_raw_chunks: display::body_chunks(body),
        parsed_response_json: if text::is_blank(body) {
            None
        } else {
            json::parsed_json(text::trim(body))
        },
        parsed_response_json_error: if text::is_blank(body) {
            None
        } else {
            match json::json_reading(text::trim(body)) {
                Ok(_) => None,
                Err(message) => Some(message),
            }
        },
        ..tab
    }
}

/// The tab that was kept.
pub open spec fn opened(kept: PersistedTabView) -> TabView {
    with_caches(
        TabView {
            id: kept.id,
            saved_endpoint_id: kept.saved_endpoint_id,
            draft: kept.draft,
            is_dirty: kept.is_dirty,
            editor_tab: kept.editor_tab,
            response_view_tab: kept.response_view_tab,
            response: kept.response,
            response_raw_chunks: Seq::empty(),
            parsed_response_json: None,
            parsed_response_json_error: None,
            scripts_ran: kept.scripts_ran,
            inflight_environment_id: None,
        },
    )
}

/// What is kept of the tab.
pub open spec fn kept(tab: TabView) -> PersistedTabView {
    PersistedTabView {
        id: tab.id,
        saved_endpoint_id: tab.saved_endpoint_id,
        draft: tab.draft,
        is_dirty: tab.is_dirty,
        editor_tab: tab.editor_tab,
        response_view_tab: tab.response_view_tab,
        response: tab.response,
        scripts_ran: tab.scripts_ran,
    }
}

/// A new tab for a saved endpoint.
pub open spec fn saved_tab(id: Seq<char>, endpoint: EndpointView) -> TabView {
    opened(
        PersistedTabView {
            id,
            saved_endpoint_id: Some(endpoint.id),
            draft: endpoint,
            is_dirty: false,
            editor_tab: RequestEditorTab::Params,
            response_view_tab: ResponseViewTab::Pretty,
            response: models::blank_response(Seq::empty()),
            scripts_ran: 0,
        },
    )
}

/// The tab without a response.
pub open spec fn without_response(tab: TabView) -> TabView {
    without_caches(
        TabView {
            response: models::blank_response(Seq::empty()),
            scripts_ran: 0,
            inflight_environment_id: None,
            ..tab
        },
    )
}

impl RequestTab {
    /// A new tab for a saved endpoint.
    pub fn from_saved(endpoint: Endpoint) -> (r: Self)
        ensures
            defaults::is_id(r@.id, "tab"@),
            r@ == saved_tab(r@.id, endpoint@),
    {
        RequestTab::from_persisted(
            PersistedRequestTab {
                id: create_id("tab"),
                saved_endpoint_id: Some(endpoint.id.clone()),
                draft: endpoint,
                is_dirty: false,
                editor_tab: RequestEditorTab::Params,
                response_view_tab: ResponseViewTab::Pretty,
                response: ResponseState::default(),
                scripts_ran: 0,
            },
        )
    }

    pub fn from_persisted(tab: PersistedRequestTab) -> (r: Self)
        ensures
            r@ == opened(tab@),
    {
        let mut runtime = RequestTab {
            id: tab.id,
            saved_endpoint_id: tab.saved_endpoint_id,
            draft: tab.draft,
            is_dirty: tab.is_dirty,
            editor_tab: tab.editor_tab,
            response_view_tab: tab.response_view_tab,
            response: tab.response,
            response_raw_chunks: Vec::new(),
            parsed_response_json: None,
            parsed_response_json_error: None,
            scripts_ran: tab.scripts_ran,
            inflight_environment_id: None,
        };
        assert(text::views(runtime.response_raw_chunks@) =~= Seq::empty());
        runtime.rebuild_response_caches();
        runtime
    }

    pub fn to_persisted(&self) -> (r: PersistedRequestTab)
        ensures
            r@ == kept(self@),
    {
        PersistedRequestTab {
            id: self.id.clone(),
            saved_endpoint_id: copy_opt(&self.saved_endpoint_id),
            draft: self.draft.clone(),
            is_dirty: self.is_dirty,
            editor_tab: self.editor_tab,
            response_view_tab: self.response_view_tab,
            response: self.response.clone(),
            scripts_ran: self.scripts_ran,
        }
    }

    /// Reads the response anew.
    pub fn rebuild_response_caches(&mut self)
        ensures
            final(self)@ == with_caches(old(self)@),
    {
        self.response_raw_chunks = chunk_response_body(self.response.body.as_str());
        if blank(self.response.body.as_str()) {
            self.parsed_response_json = None;
            self.parsed_response_json_error = None;
            return;
        }
        match read_json(trimmed(self.response.body.as_str()).as_str()) {
            Ok(value) => {
                self.parsed_response_json = Some(value);
                self.parsed_response_json_error = None;
            },
            Err(message) => {
                self.parsed_response_json = None;
                self.parsed_response_json_error = Some(message);
            },
        }
    }

    /// Forgets what was read from a response.
    pub fn clear_response_caches(&mut self)
        ensures
            final(self)@ == without_caches(old(self)@),
    {
        self.response_raw_chunks = Vec::new();
        self.parsed_response_json = None;
        self.parsed_response_json_error = None;
        assert(text::views(self.response_raw_chunks@) =~= Seq::empty());
    }

    /// Forgets the response.
    pub fn clear_for_request_switch(&mut self)
        ensures
            final(self)@ == without_response(old(self)@),
    {
        self.response = ResponseState::default();
        self.scripts_ran = 0;
        self.inflight_environment_id = None;
        self.clear_response_caches();
    }
}

/// A tab that is kept and opened again is the same, but that no answer to it is awaited: what is
/// shown of its response is read anew.
pub proof fn law_kept_tab_is_restored(tab: TabView)
    ensures
        kept(opened(kept(tab))) == kept(tab),
        opened(kept(tab)) == with_caches(TabView { inflight_environment_id: None, ..tab }),
{
}

// ---------------------------------------------------------------------------
// Saved endpoints
// ---------------------------------------------------------------------------

/// The last of the endpoints with the id.
pub open spec fn endpoint_with_id(endpoints: Seq<EndpointView>, id: Seq<char>) -> Option<
    EndpointView,
>
    decreases endpoints.len(),
{
    if endpoints.len() == 0 {
        None
    } else if endpoints.last().id == id {
        Some(endpoints.last())
    } else {
        endpoint_with_id(endpoints.drop_last(), id)
    }
}

/// The last of the endpoints with the id.
pub fn find_endpoint<'a>(endpoints: &'a Vec<Endpoint>, id: &str) -> (r: Option<&'a Endpoint>)
    ensures
        match r {
            Some(endpoint) => endpoint_with_id(text::views(endpoints@), id@) == Some(endpoint@),
            None => endpoint_with_id(text::views(endpoints@), id@) is None,
        },
{
    let ghost all = text::views(endpoints@);
    let mut i: usize = endpoints.len();
    assert(all.take(i as int) =~= all);
    while i > 0
        invariant
            i <= endpoints@.len(),
            all == text::views(endpoints@),
            endpoint_with_id(all, id@) == endpoint_with_id(all.take(i as int), id@),
        decreases i,
    {
        i -= 1;
        proof {
            let part = all.take(i + 1);
            assert(part.last() == endpoints@[i as int]@);
            assert(part.drop_last() =~= all.take(i as int));
        }
        if same_text(endpoints[i].id.as_str(), id) {
            return Some(&endpoints[i]);
        }
    }
    None
}

/// Whether a tab stays open when endpoints were deleted: one with unsaved changes does, one that
/// shows a saved endpoint only as long as there is one.
pub open spec fn outlives(
    is_dirty: bool,
    saved_endpoint_id: Option<Seq<char>>,
    endpoints: Seq<EndpointView>,
) -> bool {
    is_dirty || match saved_endpoint_id {
        Some(id) => endpoint_with_id(endpoints, id) is Some,
        None => true,
    }
}

/// The draft of a tab, brought up to date: unsaved changes stay.
pub open spec fn current_draft(
    is_dirty: bool,
    saved_endpoint_id: Option<Seq<char>>,
    draft: EndpointView,
    endpoints: Seq<EndpointView>,
) -> EndpointView {
    match saved_endpoint_id {
        Some(id) => match endpoint_with_id(endpoints, id) {
            Some(endpoint) => if is_dirty {
                draft
            } else {
                endpoint
            },
            None => draft,
        },
        None => draft,
    }
}

fn saved_endpoint<'a>(endpoints: &'a Vec<Endpoint>, id: &Option<String>) -> (r: Option<
    &'a Endpoint,
>)
    ensures
        match (r, text::opt(*id)) {
            (Some(endpoint), Some(id)) => endpoint_with_id(text::views(endpoints@), id) == Some(
                endpoint@,
            ),
            (Some(_), None) => false,
            (None, Some(id)) => endpoint_with_id(text::views(endpoints@), id) is None,
            (None, None) => true,
        },
{
    match id {
        Some(id) => find_endpoint(endpoints, id.as_str()),
        None => None,
    }
}

/// The tab that is opened again, if it is.
pub open spec fn reopened(kept: PersistedTabView, endpoints: Seq<EndpointView>) -> Option<TabView> {
    if outlives(kept.is_dirty, kept.saved_endpoint_id, endpoints) {
        Some(
            opened(
                PersistedTabView {
                    draft: current_draft(
                        kept.is_dirty,
                        kept.saved_endpoint_id,
                        kept.draft,
                        endpoints,
                    ),
                    ..kept
                },
            ),
        )
    } else {
        None
    }
}

fn reopen(tab: PersistedRequestTab, endpoints: &Vec<Endpoint>) -> (r: Option<RequestTab>)
    ensures
        match r {
            Some(opened) => reopened(tab@, text::views(endpoints@)) == Some(opened@),
            None => reopened(tab@, text::views(endpoints@)) is None,
        },
{
    let mut tab = tab;
    if !tab.is_dirty {
        match saved_endpoint(endpoints, &tab.saved_endpoint_id) {
            Some(endpoint) => {
                tab.draft = endpoint.clone();
            },
            None => {
                if tab.saved_endpoint_id.is_some() {
                    return None;
                }
            },
        }
    }
    Some(RequestTab::from_persisted(tab))
}

pub open spec fn reopened_tabs(kept: Seq<PersistedTabView>, endpoints: Seq<EndpointView>) -> Seq<
    TabView,
> {
    kept.filter_map(|tab: PersistedTabView| reopened(tab, endpoints))
}

pub open spec fn has_tab(tabs: Seq<TabView>, id: Seq<char>) -> bool {
    exists|i: int| 0 <= i < tabs.len() && (#[trigger] tabs[i]).id == id
}

pub open spec fn first_tab_id(tabs: Seq<TabView>) -> Option<Seq<char>> {
    if tabs.len() > 0 {
        Some(tabs[0].id)
    } else {
        None
    }
}

/// The active tab: the given one where it is open, else the first.
pub open spec fn active_among(tabs: Seq<TabView>, id: Option<Seq<char>>) -> Option<Seq<char>> {
    match id {
        Some(id) => if has_tab(tabs, id) {
            Some(id)
        } else {
            first_tab_id(tabs)
        },
        None => first_tab_id(tabs),
    }
}

pub fn first_id(tabs: &Vec<RequestTab>) -> (r: Option<String>)
    ensures
        text::opt(r) == first_tab_id(text::views(tabs@)),
{
    if tabs.len() > 0 {
        Some(tabs[0].id.clone())
    } else {
        None
    }
}

/// Where the tab with the id first stands; their number where there is none.
pub open spec fn tab_index(tabs: Seq<TabView>, id: Seq<char>) -> int
    decreases tabs.len(),
{
    if tabs.len() == 0 || tabs[0].id == id {
        0
    } else {
        1 + tab_index(tabs.drop_first(), id)
    }
}

pub proof fn lemma_tab_index(tabs: Seq<TabView>, id: Seq<char>)
    ensures
        0 <= tab_index(tabs, id) <= tabs.len(),
        forall|j: int| 0 <= j < tab_index(tabs, id) ==> (#[trigger] tabs[j]).id != id,
        tab_index(tabs, id) < tabs.len() ==> tabs[tab_index(tabs, id)].id == id,
        has_tab(tabs, id) == (tab_index(tabs, id) < tabs.len()),
    decreases tabs.len(),
{
    if tabs.len() == 0 || tabs[0].id == id {
    } else {
        let rest = tabs.drop_first();
        lemma_tab_index(rest, id);
        assert forall|j: int| 0 <= j < tab_index(tabs, id) implies (#[trigger] tabs[j]).id
            != id by {
            if j > 0 {
                assert(rest[j - 1] == tabs[j]);
            }
        }
        if has_tab(tabs, id) {
            let i = choose|i: int| 0 <= i < tabs.len() && (#[trigger] tabs[i]).id == id;
            assert(i >= tab_index(tabs, id));
        }
    }
}

/// Where the tab with the id first stands; their number where there is none.
pub fn find_tab(tabs: &Vec<RequestTab>, id: &str) -> (r: usize)
    ensures
        r == tab_index(text::views(tabs@), id@),
        r <= tabs@.len(),
        (r < tabs@.len()) == has_tab(text::views(tabs@), id@),
        r < tabs@.len() ==> tabs@[r as int].id@ == id@,
{
    let ghost all = text::views(tabs@);
    let mut i: usize = 0;
    assert(all.skip(0) =~= all);
    while i < tabs.len() && !same_text(tabs[i].id.as_str(), id)
        invariant
            i <= tabs@.len(),
            all == text::views(tabs@),
            tab_index(all, id@) == i + tab_index(all.skip(i as int), id@),
        decreases tabs@.len() - i,
    {
        assert(all.skip(i as int)[0] == tabs@[i as int]@);
        assert(all.skip(i as int).drop_first() =~= all.skip(i + 1));
        i += 1;
    }
    proof {
        if i < tabs@.len() {
            assert(all.skip(i as int)[0] == tabs@[i as int]@);
        }
        lemma_tab_index(all, id@);
    }
    i
}

/// The active tab: the given one where it is open, else the first.
pub fn choose_active(tabs: &Vec<RequestTab>, id: &Option<String>) -> (r: Option<String>)
    ensures
        text::opt(r) == active_among(text::views(tabs@), text::opt(*id)),
{
    match id {
        Some(id) => if find_tab(tabs, id.as_str()) < tabs.len() {
            Some(id.clone())
        } else {
            first_id(tabs)
        },
        None => first_id(tabs),
    }
}

/// The first of the endpoints with the id.
pub open spec fn first_with_id(endpoints: Seq<EndpointView>, id: Seq<char>) -> Option<EndpointView>
    decreases endpoints.len(),
{
    if endpoints.len() == 0 {
        None
    } else if endpoints[0].id == id {
        Some(endpoints[0])
    } else {
        first_with_id(endpoints.drop_first(), id)
    }
}

/// The first of the endpoints with the id.
pub fn find_first_endpoint<'a>(endpoints: &'a Vec<Endpoint>, id: &str) -> (r: Option<&'a Endpoint>)
    ensures
        match r {
            Some(endpoint) => first_with_id(text::views(endpoints@), id@) == Some(endpoint@),
            None => first_with_id(text::views(endpoints@), id@) is None,
        },
{
    let ghost all = text::views(endpoints@);
    let mut i: usize = 0;
    assert(all.skip(0) =~= all);
    while i < endpoints.len()
        invariant
            i <= endpoints@.len(),
            all == text::views(endpoints@),
            first_with_id(all, id@) == first_with_id(all.skip(i as int), id@),
        decreases endpoints@.len() - i,
    {
        assert(all.skip(i as int)[0] == endpoints@[i as int]@);
        if same_text(endpoints[i].id.as_str(), id) {
            return Some(&endpoints[i]);
        }
        assert(all.skip(i as int).drop_first() =~= all.skip(i + 1));
        i += 1;
    }
    None
}

/// The endpoint that is shown where no tab was kept: the one that was selected, else the first.
pub open spec fn fallback_endpoint(
    endpoints: Seq<EndpointView>,
    selected: Option<Seq<char>>,
) -> Option<EndpointView> {
    let first = if endpoints.len() > 0 {
        Some(endpoints[0])
    } else {
        None
    };
    match selected {
        Some(id) => match first_with_id(endpoints, id) {
            Some(endpoint) => Some(endpoint),
            None => first,
        },
        None => first,
    }
}

/// Whether these are the tabs that are open where none was kept, and the active one of them.
pub open spec fn are_fallback_tabs(
    tabs: Seq<TabView>,
    active: Option<Seq<char>>,
    endpoints: Seq<EndpointView>,
    selected: Option<Seq<char>>,
) -> bool {
    match fallback_endpoint(endpoints, selected) {
        Some(endpoint) => {
            &&& tabs.len() == 1
            &&& defaults::is_id(tabs[0].id, "tab"@)
            &&& tabs[0] == saved_tab(tabs[0].id, endpoint)
            &&& active == Some(tabs[0].id)
        },
        None => tabs.len() == 0 && active is None,
    }
}

pub fn fallback_request_tabs(
    saved_endpoints: &Vec<Endpoint>,
    legacy_selected_endpoint_id: &Option<String>,
) -> (r: (Vec<RequestTab>, Option<String>))
    ensures
        are_fallback_tabs(
            text::views(r.0@),
            text::opt(r.1),
            text::views(saved_endpoints@),
            text::opt(*legacy_selected_endpoint_id),
        ),
{
    let mut chosen: Option<&Endpoint> = match legacy_selected_endpoint_id {
        Some(id) => find_first_endpoint(saved_endpoints, id.as_str()),
        None => None,
    };
    if chosen.is_none() && saved_endpoints.len() > 0 {
        chosen = Some(&saved_endpoints[0]);
    }
    let mut tabs: Vec<RequestTab> = Vec::new();
    match chosen {
        Some(endpoint) => {
            tabs.push(RequestTab::from_saved(endpoint.clone()));
            assert(text::views(tabs@)[0] == tabs@[0]@);
        },
        None => {},
    }
    let active = first_id(&tabs);
    (tabs, active)
}

/// Whether these are the tabs that are open at the start, and the active one of them: those that
/// were kept, or where none of them is left the fallback.
pub open spec fn are_first_tabs(
    tabs: Seq<TabView>,
    active: Option<Seq<char>>,
    endpoints: Seq<EndpointView>,
    ui: Option<WorkspaceUiView>,
    selected: Option<Seq<char>>,
) -> bool {
    match ui {
        Some(ui) => {
            let left = reopened_tabs(ui.open_tabs, endpoints);
            if left.len() > 0 {
                tabs == left && active == active_among(left, ui.active_tab_id)
            } else {
                are_fallback_tabs(tabs, active, endpoints, selected)
            }
        },
        None => are_fallback_tabs(tabs, active, endpoints, selected),
    }
}

pub open spec fn ui_opt(ui: Option<WorkspaceUiState>) -> Option<WorkspaceUiView> {
    match ui {
        Some(ui) => Some(ui@),
        None => None,
    }
}

/// The tabs that are open at the start, and the active one.
pub fn restore_request_tabs(
    saved_endpoints: &Vec<Endpoint>,
    workspace_ui: Option<WorkspaceUiState>,
    legacy_selected_endpoint_id: &Option<String>,
) -> (r: (Vec<RequestTab>, Option<String>))
    ensures
        are_first_tabs(
            text::views(r.0@),
            text::opt(r.1),
            text::views(saved_endpoints@),
            ui_opt(workspace_ui),
            text::opt(*legacy_selected_endpoint_id),
        ),
{
    match workspace_ui {
        Some(ui) => {
            let ghost given = ui.open_tabs@;
            let ghost all = text::views(given);
            let ghost endpoints = text::views(saved_endpoints@);
            let ghost f = |tab: PersistedTabView| reopened(tab, endpoints);
            let mut tabs: Vec<RequestTab> = Vec::new();
            assert(text::views(tabs@) =~= all.take(0).filter_map(f));
            for kept in it: ui.open_tabs
                invariant
                    it.seq() == given,
                    all == text::views(given),
                    endpoints == text::views(saved_endpoints@),
                    f == (|tab: PersistedTabView| reopened(tab, endpoints)),
                    text::views(tabs@) == all.take(it.index() as int).filter_map(f),
            {
                proof {
                    assert(kept == given[it.index() as int]);
                    assert(all[it.index() as int] == kept@);
                    all.lemma_filter_map_take_succ(f, it.index() as int);
                }
                match reopen(kept, saved_endpoints) {
                    Some(tab) => {
                        proof {
                            text::lemma_views_push(tabs@, tab);
                        }
                        tabs.push(tab);
                    },
                    None => {},
                }
            }
            assert(all.take(all.len() as int) =~= all);
            if tabs.len() == 0 {
                return fallback_request_tabs(saved_endpoints, legacy_selected_endpoint_id);
            }
            let active = choose_active(&tabs, &ui.active_tab_id);
            (tabs, active)
        },
        None => fallback_request_tabs(saved_endpoints, legacy_selected_endpoint_id),
    }
}

/// What is kept of the open tabs.
pub open spec fn kept_tabs(tabs: Seq<TabView>, active: Option<Seq<char>>) -> WorkspaceUiView {
    WorkspaceUiView {
        active_tab_id: active,
        open_tabs: tabs.map_values(|tab: TabView| kept(tab)),
    }
}

pub fn keep_tabs(tabs: &Vec<RequestTab>, active: &Option<String>) -> (r: WorkspaceUiState)
    ensures
        r@ == kept_tabs(text::views(tabs@), text::opt(*active)),
{
    let mut open_tabs: Vec<PersistedRequestTab> = Vec::new();
    let mut i: usize = 0;
    while i < tabs.len()
        invariant
            i <= tabs@.len(),
            open_tabs@.len() == i,
            forall|j: int| 0 <= j < i ==> (#[trigger] open_tabs@[j])@ == kept(tabs@[j]@),
        decreases tabs@.len() - i,
    {
        open_tabs.push(tabs[i].to_persisted());
        i += 1;
    }
    assert(text::views(open_tabs@) =~= text::views(tabs@).map_values(|tab: TabView| kept(tab)));
    WorkspaceUiState { active_tab_id: copy_opt(active), open_tabs }
}

// ---------------------------------------------------------------------------
// The pretty view
// ---------------------------------------------------------------------------

/// What the pretty view of a response shows.
pub enum PrettyView {
    /// The value that the body holds.
    Tree,
    /// Why the body is not JSON.
    Failure(String),
    /// That there is nothing to show.
    Notice(&'static str),
}

pub enum PrettyKind {
    Tree,
    Failure(Seq<char>),
    Notice(Seq<char>),
}

impl View for PrettyView {
    type V = PrettyKind;

    open spec fn view(&self) -> PrettyKind {
        match *self {
            PrettyView::Tree => PrettyKind::Tree,
            PrettyView::Failure(message) => PrettyKind::Failure(message@),
            PrettyView::Notice(message) => PrettyKind::Notice(message@),
        }
    }
}

/// What the pretty view of a tab shows.
pub open spec fn pretty(tab: TabView) -> PrettyKind {
    if tab.parsed_response_json is Some {
        PrettyKind::Tree
    } else if tab.parsed_response_json_error is Some {
        PrettyKind::Failure("Not valid JSON: "@ + tab.parsed_response_json_error->0)
    } else if text::is_blank(tab.response.body) {
        PrettyKind::Notice("No response body."@)
    } else {
        PrettyKind::Notice("Pretty view is only available for JSON responses."@)
    }
}

impl RequestTab {
    /// What the pretty view of the response shows.
    pub fn pretty_view(&self) -> (r: PrettyView)
        ensures
            r@ == pretty(self@),
    {
        if self.parsed_response_json.is_some() {
            return PrettyView::Tree;
        }
        match &self.parsed_response_json_error {
            Some(message) => PrettyView::Failure(concat2("Not valid JSON: ", message.as_str())),
            None => if blank(self.response.body.as_str()) {
                PrettyView::Notice("No response body.")
            } else {
                PrettyView::Notice("Pretty view is only available for JSON responses.")
            },
        }
    }
}

/// Once a response was read, the pretty view shows its value, why there is none, or that there is
/// no body.
pub proof fn law_pretty_view_fits_the_body(tab: TabView)
    ensures
        pretty(with_caches(tab)) == (if text::is_blank(tab.response.body) {
            PrettyKind::Notice("No response body."@)
        } else {
            match json::json_reading(text::trim(tab.response.body)) {
                Ok(_) => PrettyKind::Tree,
                Err(message) => PrettyKind::Failure("Not valid JSON: "@ + message),
            }
        }),
{
}

/// An endpoint is found by its id, the last one that has it; none is found where none has it.
pub proof fn law_endpoint_is_found(endpoints: Seq<EndpointView>, id: Seq<char>, at: int)
    requires
        -1 <= at < endpoints.len(),
        at >= 0 ==> endpoints[at].id == id,
        forall|k: int| at < k < endpoints.len() ==> (#[trigger] endpoints[k]).id != id,
    ensures
        endpoint_with_id(endpoints, id) == (if at >= 0 {
            Some(endpoints[at])
        } else {
            None
        }),
    decreases endpoints.len(),
{
    if endpoints.len() > 0 {
        let n = endpoints.len() - 1;
        assert(endpoints[n] == endpoints.last());
        if at < n {
            let rest = endpoints.drop_last();
            assert(endpoints[n].id != id);
            assert forall|k: int| at < k < rest.len() implies (#[trigger] rest[k]).id != id by {
                assert(rest[k] == endpoints[k]);
            }
            law_endpoint_is_found(rest, id, at);
        }
    }
}

/// An endpoint that is there is found by its id.
pub proof fn lemma_some_endpoint_is_found(endpoints: Seq<EndpointView>, id: Seq<char>, i: int)
    requires
        0 <= i < endpoints.len(),
        endpoints[i].id == id,
    ensures
        endpoint_with_id(endpoints, id) matches Some(endpoint) && endpoint.id == id
            && endpoints.contains(endpoint),
    decreases endpoints.len(),
{
    let n = endpoints.len() - 1;
    if endpoints.last().id != id {
        let rest = endpoints.drop_last();
        assert(rest[i] == endpoints[i]);
        lemma_some_endpoint_is_found(rest, id, i);
        let found = endpoint_with_id(rest, id)->0;
        let k = choose|k: int| 0 <= k < rest.len() && rest[k] == found;
        assert(endpoints[k] == found);
    } else {
        assert(endpoints[n] == endpoints.last());
    }
}

/// Where no tab was kept, the request that was selected is shown, or else the first; nothing is
/// where there are no requests.
pub proof fn law_first_request_is_shown(endpoints: Seq<EndpointView>, id: Seq<char>, at: int)
    requires
        0 <= at < endpoints.len(),
    ensures
        endpoints[at].id == id && (forall|k: int| 0 <= k < at ==> (#[trigger] endpoints[k]).id != id)
            ==> fallback_endpoint(endpoints, Some(id)) == Some(endpoints[at]),
        (forall|k: int| 0 <= k < endpoints.len() ==> (#[trigger] endpoints[k]).id != id)
            ==> fallback_endpoint(endpoints, Some(id)) == Some(endpoints[0]),
        fallback_endpoint(endpoints, None) == Some(endpoints[0]),
        fallback_endpoint(Seq::empty(), Some(id)) is None,
{
    if endpoints[at].id == id && (forall|k: int|
        0 <= k < at ==> (#[trigger] endpoints[k]).id != id) {
        lemma_first_found(endpoints, id, at);
    }
    if forall|k: int| 0 <= k < endpoints.len() ==> (#[trigger] endpoints[k]).id != id {
        lemma_none_found(endpoints, id);
    }
}

proof fn lemma_first_found(endpoints: Seq<EndpointView>, id: Seq<char>, at: int)
    requires
        0 <= at < endpoints.len(),
        endpoints[at].id == id,
        forall|k: int| 0 <= k < at ==> (#[trigger] endpoints[k]).id != id,
    ensures
        first_with_id(endpoints, id) == Some(endpoints[at]),
    decreases at,
{
    if at > 0 {
        let rest = endpoints.drop_first();
        assert(endpoints[0].id != id);
        assert forall|k: int| 0 <= k < at - 1 implies (#[trigger] rest[k]).id != id by {
            assert(rest[k] == endpoints[k + 1]);
        }
        lemma_first_found(rest, id, at - 1);
    }
}

proof fn lemma_none_found(endpoints: Seq<EndpointView>, id: Seq<char>)
    requires
        forall|k: int| 0 <= k < endpoints.len() ==> (#[trigger] endpoints[k]).id != id,
    ensures
        first_with_id(endpoints, id) is None,
    decreases endpoints.len(),
{
    if endpoints.len() > 0 {
        let rest = endpoints.drop_first();
        assert(endpoints[0].id != id);
        assert forall|k: int| 0 <= k < rest.len() implies (#[trigger] rest[k]).id != id by {
            assert(rest[k] == endpoints[k + 1]);
        }
        lemma_none_found(rest, id);
    }
}

/// A tab for a saved request shows it as it is saved, without changes and without an answer.
pub proof fn law_tab_shows_the_saved_request(id: Seq<char>, endpoint: EndpointView)
    ensures
        ({
            let tab = saved_tab(id, endpoint);
            &&& tab.id == id
            &&& tab.draft == endpoint
            &&& tab.saved_endpoint_id == Some(endpoint.id)
            &&& !tab.is_dirty
            &&& tab.response.body.len() == 0
            &&& tab.response.status_code is None
            &&& tab.scripts_ran == 0
            &&& tab.inflight_environment_id is None
        }),
{
}

/// A kept tab is opened again with its unsaved changes; without any it shows what is saved, and
/// is not opened where its request is gone.
pub proof fn law_kept_tabs_are_opened(
    tab: PersistedTabView,
    endpoints: Seq<EndpointView>,
    id: Seq<char>,
    at: int,
)
    requires
        tab.saved_endpoint_id == Some(id),
        -1 <= at < endpoints.len(),
        at >= 0 ==> endpoints[at].id == id,
        forall|k: int| at < k < endpoints.len() ==> (#[trigger] endpoints[k]).id != id,
    ensures
        tab.is_dirty ==> (reopened(tab, endpoints) matches Some(after) && after.draft == tab.draft
            && after.is_dirty && after.id == tab.id && after.response == tab.response),
        !tab.is_dirty && at >= 0 ==> (reopened(tab, endpoints) matches Some(after) && after.draft
            == endpoints[at] && !after.is_dirty && after.id == tab.id && after.response
            == tab.response),
        !tab.is_dirty && at < 0 ==> reopened(tab, endpoints) is None,
{
    law_endpoint_is_found(endpoints, id, at);
}

/// A tab whose request was never saved is always opened again as it was.
pub proof fn law_unsaved_tabs_are_opened(tab: PersistedTabView, endpoints: Seq<EndpointView>)
    requires
        tab.saved_endpoint_id is None,
    ensures
        reopened(tab, endpoints) matches Some(after) && after.draft == tab.draft && after.is_dirty
            == tab.is_dirty && after.id == tab.id && after.response == tab.response,
{
}

/// Without tabs kept from an earlier run, the selected request is shown in a tab of its own, or
/// else the first; without requests no tab is open.
pub proof fn law_some_request_is_shown(
    open: Seq<TabView>,
    active: Option<Seq<char>>,
    endpoints: Seq<EndpointView>,
    id: Seq<char>,
)
    requires
        are_first_tabs(open, active, endpoints, None, Some(id)),
    ensures
        endpoints.len() > 0 ==> open.len() == 1 && active == Some(open[0].id)
            && !open[0].is_dirty && open[0].saved_endpoint_id == Some(open[0].draft.id)
            && endpoints.contains(open[0].draft),
        endpoints.len() == 0 ==> open.len() == 0 && active is None,
        (forall|k: int| 0 <= k < endpoints.len() ==> (#[trigger] endpoints[k]).id != id)
            && endpoints.len() > 0 ==> open[0].draft == endpoints[0],
{
    if endpoints.len() == 0 {
        lemma_none_found(endpoints, id);
    } else {
        law_first_request_is_shown(endpoints, id, 0);
        if exists|k: int| 0 <= k < endpoints.len() && (#[trigger] endpoints[k]).id == id {
            let at = lemma_first_place(endpoints, id);
            law_first_request_is_shown(endpoints, id, at);
        }
    }
}

proof fn lemma_first_place(endpoints: Seq<EndpointView>, id: Seq<char>) -> (at: int)
    requires
        exists|k: int| 0 <= k < endpoints.len() && (#[trigger] endpoints[k]).id == id,
    ensures
        0 <= at < endpoints.len(),
        endpoints[at].id == id,
        forall|k: int| 0 <= k < at ==> (#[trigger] endpoints[k]).id != id,
    decreases endpoints.len(),
{
    let rest = endpoints.drop_last();
    let last = endpoints.len() - 1;
    if exists|k: int| 0 <= k < rest.len() && (#[trigger] rest[k]).id == id {
        let at = lemma_first_place(rest, id);
        assert(endpoints[at] == rest[at]);
        assert forall|k: int| 0 <= k < at implies (#[trigger] endpoints[k]).id != id by {
            assert(rest[k] == endpoints[k]);
        }
        at
    } else {
        let k = choose|k: int| 0 <= k < endpoints.len() && (#[trigger] endpoints[k]).id == id;
        if k < last {
            assert(rest[k].id == id);
        }
        assert forall|k: int| 0 <= k < last implies (#[trigger] endpoints[k]).id != id by {
            assert(rest[k] == endpoints[k]);
        }
        last
    }
}

/// A tab that is open stays active; in place of one that is not, the first becomes active.
pub proof fn law_active_tab_is_open(open: Seq<TabView>, id: Seq<char>, i: int)
    requires
        0 <= i < open.len(),
    ensures
        open[i].id == id ==> active_among(open, Some(id)) == Some(id),
        (forall|k: int| 0 <= k < open.len() ==> (#[trigger] open[k]).id != id) ==> active_among(
            open,
            Some(id),
        ) == Some(open[0].id),
        active_among(open, None) == Some(open[0].id),
        active_among(Seq::empty(), Some(id)) is None,
{
}

} // verus!
