//! The state of an open workspace, and what its tabs go through.
use crate::defaults;
use crate::defaults::create_id;
use crate::models;
use crate::models::{
    AppConfig, AppConfigView, Endpoint, EndpointView, Environment, EnvironmentIndexEntry,
    EnvironmentIndexView, EnvironmentView, KeyValue, RequestEditorTab, ResponseState,
    ResponseViewTab, WorkspaceUiState,
};
use crate::security::KeyMaterial;
use crate::table::TextMap;
use crate::tabs;
use crate::tabs::{
    choose_active, find_first_endpoint, find_tab, keep_tabs, RequestTab, TabView,
};
use crate::text;
use crate::text::{concat2, copy_opt, is_text, same_opt, same_text, trimmed};
use crate::urls;
use crate::urls::normalize_endpoint_url_and_query_params;
use vstd::prelude::*;

verus! {

/// How far a workspace has been opened.
#[derive(Clone, Copy, Debug, PartialEq, Eq, Structural)]
pub enum AppPhase {
    SetupPassword,
    UnlockPassword,
    Ready,
}

/// Something that is done to requests once it was confirmed.
#[derive(Debug, PartialEq, Eq)]
pub enum PendingRequestAction {
    CloseTab { tab_id: String },
    CloseAll,
    DeleteActive,
    DeleteAll,
}

pub enum PendingView {
    CloseTab { tab_id: Seq<char> },
    CloseAll,
    DeleteActive,
    DeleteAll,
}

impl View for PendingRequestAction {
    type V = PendingView;

    open spec fn view(&self) -> PendingView {
        match self {
            PendingRequestAction::CloseTab { tab_id } => PendingView::CloseTab { tab_id: tab_id@ },
            PendingRequestAction::CloseAll => PendingView::CloseAll,
            PendingRequestAction::DeleteActive => PendingView::DeleteActive,
            PendingRequestAction::DeleteAll => PendingView::DeleteAll,
        }
    }
}

impl Clone for PendingRequestAction {
    fn clone(&self) -> (r: Self)
        ensures
            r@ == self@,
    {
        match self {
            PendingRequestAction::CloseTab { tab_id } => PendingRequestAction::CloseTab {
                tab_id: tab_id.clone(),
            },
            PendingRequestAction::CloseAll => PendingRequestAction::CloseAll,
            PendingRequestAction::DeleteActive => PendingRequestAction::DeleteActive,
            PendingRequestAction::DeleteAll => PendingRequestAction::DeleteAll,
        }
    }
}

/// An open workspace. Times are in milliseconds of a clock that does not go back.
pub struct Workspace {
    pub phase: AppPhase,
    pub key_material: Option<KeyMaterial>,
    pub saved_endpoints: Vec<Endpoint>,
    pub open_request_tabs: Vec<RequestTab>,
    pub pending_environment_index: Vec<EnvironmentIndexEntry>,
    pub environments: Vec<Environment>,
    pub active_request_tab_id: Option<String>,
    pub selected_environment_id: Option<String>,
    pub config: AppConfig,
    pub status_line: String,
    /// Whether the configuration or the environments are to be saved.
    pub dirty: bool,
    pub last_mutation: u64,
    /// Whether the tabs are to be saved.
    pub workspace_ui_dirty: bool,
    pub workspace_ui_last_mutation: u64,
    /// The tab whose request was sent and not answered yet.
    pub in_flight_tab_id: Option<String>,
    /// Whether the list of requests is to be unfolded where the active request stands.
    pub expand_to_selection: bool,
    pub pending_request_action: Option<PendingRequestAction>,
}

#[verifier::ext_equal]
pub struct WorkspaceView {
    pub phase: AppPhase,
    pub key_material: Option<KeyMaterial>,
    pub saved_endpoints: Seq<EndpointView>,
    pub open_request_tabs: Seq<TabView>,
    pub pending_environment_index: Seq<EnvironmentIndexView>,
    pub environments: Seq<EnvironmentView>,
    pub active_request_tab_id: Option<Seq<char>>,
    pub selected_environment_id: Option<Seq<char>>,
    pub config: AppConfigView,
    pub status_line: Seq<char>,
    pub dirty: bool,
    pub last_mutation: u64,
    pub workspace_ui_dirty: bool,
    pub workspace_ui_last_mutation: u64,
    pub in_flight_tab_id: Option<Seq<char>>,
    pub expand_to_selection: bool,
    pub pending_request_action: Option<PendingView>,
}

pub open spec fn pending_opt(action: Option<PendingRequestAction>) -> Option<PendingView> {
    match action {
        Some(action) => Some(action@),
        None => None,
    }
}

impl View for Workspace {
    type V = WorkspaceView;

    open spec fn view(&self) -> WorkspaceView {
        WorkspaceView {
            phase: self.phase,
            key_material: self.key_material,
            saved_endpoints: text::views(self.saved_endpoints@),
            open_request_tabs: text::views(self.open_request_tabs@),
            pending_environment_index: text::views(self.pending_environment_index@),
            environments: text::views(self.environments@),
            active_request_tab_id: text::opt(self.active_request_tab_id),
            selected_environment_id: text::opt(self.selected_environment_id),
            config: self.config@,
            status_line: self.status_line@,
            dirty: self.dirty,
            last_mutation: self.last_mutation,
            workspace_ui_dirty: self.workspace_ui_dirty,
            workspace_ui_last_mutation: self.workspace_ui_last_mutation,
            in_flight_tab_id: text::opt(self.in_flight_tab_id),
            expand_to_selection: self.expand_to_selection,
            pending_request_action: pending_opt(self.pending_request_action),
        }
    }
}

// ---------------------------------------------------------------------------
// Saving
// ---------------------------------------------------------------------------

/// The workspace, to be saved.
pub open spec fn touched(ws: WorkspaceView, now: u64) -> WorkspaceView {
    WorkspaceView { dirty: true, last_mutation: now, ..ws }
}

/// The workspace, its tabs to be saved.
pub open spec fn ui_touched(ws: WorkspaceView, now: u64) -> WorkspaceView {
    WorkspaceView { workspace_ui_dirty: true, workspace_ui_last_mutation: now, ..ws }
}

/// How many milliseconds pass between a change and its being saved.
pub const SAVE_DELAY: u64 = 350;

/// Whether a change that was made at a time is to be saved now.
pub open spec fn is_due(ws: WorkspaceView, changed: bool, since: u64, now: u64) -> bool {
    ws.phase == AppPhase::Ready && changed && now - since >= SAVE_DELAY
}

impl Workspace {
    pub fn mark_dirty(&mut self, now: u64)
        ensures
            final(self)@ == touched(old(self)@, now),
    {
        self.dirty = true;
        self.last_mutation = now;
    }

    pub fn mark_workspace_ui_dirty(&mut self, now: u64)
        ensures
            final(self)@ == ui_touched(old(self)@, now),
    {
        self.workspace_ui_dirty = true;
        self.workspace_ui_last_mutation = now;
    }

    /// Whether configuration and environments are to be saved now. The configuration is brought
    /// up to date for it.
    pub fn try_auto_save(&mut self, now: u64) -> (due: bool)
        ensures
            due == is_due(old(self)@, old(self)@.dirty, old(self)@.last_mutation, now),
            final(self)@ == (if due {
                WorkspaceView {
                    config: AppConfigView {
                        selected_environment_id: old(self)@.selected_environment_id,
                        ..old(self)@.config
                    },
                    ..old(self)@
                }
            } else {
                old(self)@
            }),
    {
        if self.phase != AppPhase::Ready || !self.dirty {
            return false;
        }
        if now < self.last_mutation || now - self.last_mutation < SAVE_DELAY {
            return false;
        }
        self.config.selected_environment_id = copy_opt(&self.selected_environment_id);
        true
    }

    /// What comes of saving configuration and environments.
    pub fn finish_auto_save(&mut self, failure: Option<String>)
        ensures
            final(self)@ == (match text::opt(failure) {
                Some(message) => WorkspaceView {
                    status_line: "Save failed: "@ + message,
                    ..old(self)@
                },
                None => WorkspaceView { dirty: false, ..old(self)@ },
            }),
    {
        match failure {
            Some(message) => {
                self.status_line = concat2("Save failed: ", message.as_str());
            },
            None => {
                self.dirty = false;
            },
        }
    }

    /// Whether the tabs are to be saved now.
    pub fn try_auto_save_workspace_ui(&self, now: u64) -> (due: bool)
        ensures
            due == is_due(
                self@,
                self@.workspace_ui_dirty,
                self@.workspace_ui_last_mutation,
                now,
            ),
    {
        self.phase == AppPhase::Ready && self.workspace_ui_dirty && now
            >= self.workspace_ui_last_mutation && now - self.workspace_ui_last_mutation
            >= SAVE_DELAY
    }

    /// What comes of saving the tabs.
    pub fn finish_auto_save_workspace_ui(&mut self, failure: Option<String>)
        ensures
            final(self)@ == (match text::opt(failure) {
                Some(message) => WorkspaceView {
                    status_line: "Failed to persist tabs: "@ + message,
                    ..old(self)@
                },
                None => WorkspaceView { workspace_ui_dirty: false, ..old(self)@ },
            }),
    {
        match failure {
            Some(message) => {
                self.status_line = concat2("Failed to persist tabs: ", message.as_str());
            },
            None => {
                self.workspace_ui_dirty = false;
            },
        }
    }

    /// What is kept of the open tabs.
    pub fn current_workspace_ui_state(&self) -> (r: WorkspaceUiState)
        ensures
            r@ == tabs::kept_tabs(self@.open_request_tabs, self@.active_request_tab_id),
    {
        keep_tabs(&self.open_request_tabs, &self.active_request_tab_id)
    }
}

// ---------------------------------------------------------------------------
// Selection
// ---------------------------------------------------------------------------

/// Where the environment with the id first stands; their number where there is none.
pub open spec fn environment_at(environments: Seq<EnvironmentView>, id: Seq<char>) -> int
    decreases environments.len(),
{
    if environments.len() == 0 || environments[0].id == id {
        0
    } else {
        1 + environment_at(environments.drop_first(), id)
    }
}

pub proof fn lemma_environment_at(environments: Seq<EnvironmentView>, id: Seq<char>)
    ensures
        0 <= environment_at(environments, id) <= environments.len(),
        environment_at(environments, id) < environments.len() ==> environments[environment_at(
            environments,
            id,
        )].id == id,
    decreases environments.len(),
{
    if environments.len() == 0 || environments[0].id == id {
    } else {
        lemma_environment_at(environments.drop_first(), id);
    }
}

pub fn find_environment(environments: &Vec<Environment>, id: &str) -> (r: usize)
    ensures
        r == environment_at(text::views(environments@), id@),
        r <= environments@.len(),
{
    let ghost all = text::views(environments@);
    let mut i: usize = 0;
    assert(all.skip(0) =~= all);
    while i < environments.len() && !same_text(environments[i].id.as_str(), id)
        invariant
            i <= environments@.len(),
            all == text::views(environments@),
            environment_at(all, id@) == i + environment_at(all.skip(i as int), id@),
        decreases environments@.len() - i,
    {
        assert(all.skip(i as int)[0] == environments@[i as int]@);
        assert(all.skip(i as int).drop_first() =~= all.skip(i + 1));
        i += 1;
    }
    if i < environments.len() {
        assert(all.skip(i as int)[0] == environments@[i as int]@);
    }
    i
}

pub open spec fn first_environment_id(environments: Seq<EnvironmentView>) -> Option<Seq<char>> {
    if environments.len() > 0 {
        Some(environments[0].id)
    } else {
        None
    }
}

/// The selected environment: the given one where there is one, else the first.
pub open spec fn environment_among(
    environments: Seq<EnvironmentView>,
    id: Option<Seq<char>>,
) -> Option<Seq<char>> {
    match id {
        Some(id) => if environment_at(environments, id) < environments.len() {
            Some(id)
        } else {
            first_environment_id(environments)
        },
        None => first_environment_id(environments),
    }
}

fn first_environment(environments: &Vec<Environment>) -> (r: Option<String>)
    ensures
        text::opt(r) == first_environment_id(text::views(environments@)),
{
    if environments.len() > 0 {
        Some(environments[0].id.clone())
    } else {
        None
    }
}

/// The workspace with an open tab active and an environment selected, as far as there are any.
pub open spec fn with_selection(ws: WorkspaceView) -> WorkspaceView {
    WorkspaceView {
        active_request_tab_id: tabs::active_among(ws.open_request_tabs, ws.active_request_tab_id),
        selected_environment_id: environment_among(ws.environments, ws.selected_environment_id),
        ..ws
    }
}

/// Whether the active tab is an open one, and the selected environment is there; none is chosen
/// only where there is none.
pub open spec fn selection_is_valid(ws: WorkspaceView) -> bool {
    &&& match ws.active_request_tab_id {
        Some(id) => tabs::has_tab(ws.open_request_tabs, id),
        None => ws.open_request_tabs.len() == 0,
    }
    &&& match ws.selected_environment_id {
        Some(id) => environment_at(ws.environments, id) < ws.environments.len(),
        None => ws.environments.len() == 0,
    }
}

/// Choosing makes the selection valid, and leaves a valid one alone.
pub proof fn law_selection_is_mended(ws: WorkspaceView)
    ensures
        selection_is_valid(with_selection(ws)),
        selection_is_valid(ws) ==> with_selection(ws) == ws,
{
    if ws.open_request_tabs.len() > 0 {
        assert(tabs::has_tab(ws.open_request_tabs, ws.open_request_tabs[0].id));
    }
}

/// The variables that the pairs set, later ones before earlier ones.
pub open spec fn variables_of(pairs: Seq<(Seq<char>, Seq<char>)>) -> Map<Seq<char>, Seq<char>>
    decreases pairs.len(),
{
    if pairs.len() == 0 {
        Map::empty()
    } else {
        let before = variables_of(pairs.drop_last());
        let key = text::trim(pairs.last().0);
        if key.len() == 0 {
            before
        } else {
            before.insert(key, pairs.last().1)
        }
    }
}

/// The variables of the selected environment.
pub open spec fn selected_variables(ws: WorkspaceView) -> Map<Seq<char>, Seq<char>> {
    match ws.selected_environment_id {
        Some(id) => {
            let at = environment_at(ws.environments, id);
            if at < ws.environments.len() {
                variables_of(ws.environments[at].variables)
            } else {
                Map::empty()
            }
        },
        None => Map::empty(),
    }
}

/// The name of the selected environment.
pub open spec fn selected_name(ws: WorkspaceView) -> Seq<char> {
    match ws.selected_environment_id {
        Some(id) => {
            let at = environment_at(ws.environments, id);
            if at < ws.environments.len() {
                ws.environments[at].name
            } else {
                "None"@
            }
        },
        None => "None"@,
    }
}

fn collect_variables(pairs: &Vec<KeyValue>) -> (r: TextMap<String>)
    ensures
        r@ == variables_of(text::views(pairs@)),
{
    let ghost all = text::views(pairs@);
    let mut variables: TextMap<String> = TextMap::new();
    let mut i: usize = 0;
    while i < pairs.len()
        invariant
            i <= pairs@.len(),
            all == text::views(pairs@),
            variables@ == variables_of(all.take(i as int)),
        decreases pairs@.len() - i,
    {
        proof {
            assert(all.take(i + 1).drop_last() =~= all.take(i as int));
            assert(all.take(i + 1).last() == pairs@[i as int]@);
        }
        let key = trimmed(pairs[i].key.as_str());
        if !key.as_str().is_empty() {
            variables.insert(key, pairs[i].value.clone());
        }
        i += 1;
    }
    assert(all.take(all.len() as int) =~= all);
    variables
}

impl Workspace {
    /// Chooses a tab and an environment where what was chosen is gone.
    pub fn ensure_selected_ids(&mut self)
        ensures
            final(self)@ == with_selection(old(self)@),
    {
        self.active_request_tab_id =
            choose_active(&self.open_request_tabs, &self.active_request_tab_id);
        self.selected_environment_id = match &self.selected_environment_id {
            Some(id) => if find_environment(&self.environments, id.as_str())
                < self.environments.len() {
                Some(id.clone())
            } else {
                first_environment(&self.environments)
            },
            None => first_environment(&self.environments),
        };
    }

    pub fn active_request_tab_index(&self) -> (r: Option<usize>)
        ensures
            match r {
                Some(i) => self@.active_request_tab_id matches Some(id) && i == tabs::tab_index(
                    self@.open_request_tabs,
                    id,
                ) && i < self@.open_request_tabs.len(),
                None => match self@.active_request_tab_id {
                    Some(id) => tabs::tab_index(self@.open_request_tabs, id)
                        == self@.open_request_tabs.len(),
                    None => true,
                },
            },
    {
        match &self.active_request_tab_id {
            Some(id) => {
                let i = find_tab(&self.open_request_tabs, id.as_str());
                if i < self.open_request_tabs.len() {
                    Some(i)
                } else {
                    None
                }
            },
            None => None,
        }
    }

    pub fn selected_environment_index(&self) -> (r: Option<usize>)
        ensures
            match r {
                Some(i) => self@.selected_environment_id matches Some(id) && i == environment_at(
                    self@.environments,
                    id,
                ) && i < self@.environments.len(),
                None => match self@.selected_environment_id {
                    Some(id) => environment_at(self@.environments, id) == self@.environments.len(),
                    None => true,
                },
            },
    {
        match &self.selected_environment_id {
            Some(id) => {
                let i = find_environment(&self.environments, id.as_str());
                if i < self.environments.len() {
                    Some(i)
                } else {
                    None
                }
            },
            None => None,
        }
    }

    /// The variables of the selected environment.
    pub fn selected_environment_variables(&self) -> (r: TextMap<String>)
        ensures
            r@ == selected_variables(self@),
    {
        match self.selected_environment_index() {
            Some(i) => collect_variables(&self.environments[i].variables),
            None => TextMap::new(),
        }
    }

    /// The name of the selected environment.
    pub fn selected_environment_name(&self) -> (r: String)
        ensures
            r@ == selected_name(self@),
    {
        match self.selected_environment_index() {
            Some(i) => self.environments[i].name.clone(),
            None => "None".to_owned(),
        }
    }

    pub fn is_request_in_flight(&self, tab_id: &str) -> (r: bool)
        ensures
            r == (self@.in_flight_tab_id == Some(tab_id@)),
    {
        is_text(&self.in_flight_tab_id, tab_id)
    }
}

// ---------------------------------------------------------------------------
// Opening and editing
// ---------------------------------------------------------------------------

/// The workspace with a tab made active.
pub open spec fn activated(ws: WorkspaceView, tab_id: Option<Seq<char>>, now: u64) -> WorkspaceView {
    if ws.active_request_tab_id == tab_id {
        ws
    } else {
        ui_touched(
            WorkspaceView { active_request_tab_id: tab_id, expand_to_selection: true, ..ws },
            now,
        )
    }
}

/// The workspace with one more tab, which is made active.
pub open spec fn with_tab(ws: WorkspaceView, tab: TabView, now: u64) -> WorkspaceView {
    ui_touched(
        activated(
            WorkspaceView { open_request_tabs: ws.open_request_tabs.push(tab), ..ws },
            Some(tab.id),
            now,
        ),
        now,
    )
}

/// Where the tab that shows the saved endpoint first stands; their number where there is none.
pub open spec fn showing_at(open: Seq<TabView>, endpoint_id: Seq<char>) -> int
    decreases open.len(),
{
    if open.len() == 0 || open[0].saved_endpoint_id == Some(endpoint_id) {
        0
    } else {
        1 + showing_at(open.drop_first(), endpoint_id)
    }
}

fn find_showing(open: &Vec<RequestTab>, endpoint_id: &str) -> (r: usize)
    ensures
        r == showing_at(text::views(open@), endpoint_id@),
        r <= open@.len(),
{
    let ghost all = text::views(open@);
    let mut i: usize = 0;
    assert(all.skip(0) =~= all);
    while i < open.len() && !is_text(&open[i].saved_endpoint_id, endpoint_id)
        invariant
            i <= open@.len(),
            all == text::views(open@),
            showing_at(all, endpoint_id@) == i + showing_at(all.skip(i as int), endpoint_id@),
        decreases open@.len() - i,
    {
        assert(all.skip(i as int)[0] == open@[i as int]@);
        assert(all.skip(i as int).drop_first() =~= all.skip(i + 1));
        i += 1;
    }
    if i < open.len() {
        assert(all.skip(i as int)[0] == open@[i as int]@);
    }
    i
}

/// A request that was never saved.
pub open spec fn new_request(id: Seq<char>) -> EndpointView {
    EndpointView {
        id,
        source_request_id: Seq::empty(),
        source_collection_id: Seq::empty(),
        source_folder_id: Seq::empty(),
        name: "New Request"@,
        collection: "General"@,
        folder_path: Seq::empty(),
        method: "GET"@,
        url: "https://${api_host}/v1/health"@,
        query_params: Seq::empty(),
        headers: Seq::empty(),
        body_mode: "none"@,
        body: Seq::empty(),
        scripts: Seq::empty(),
    }
}

/// The tab of a request that was never saved.
pub open spec fn new_tab(id: Seq<char>, endpoint_id: Seq<char>) -> TabView {
    TabView {
        id,
        saved_endpoint_id: None,
        draft: new_request(endpoint_id),
        is_dirty: true,
        editor_tab: RequestEditorTab::Params,
        response_view_tab: ResponseViewTab::Pretty,
        response: models::blank_response(Seq::empty()),
        response_raw_chunks: Seq::empty(),
        parsed_response_json: None,
        parsed_response_json_error: None,
        scripts_ran: 0,
        inflight_environment_id: None,
    }
}

/// The tab after an edit.
pub open spec fn edited_tab(tab: TabView) -> TabView {
    TabView { is_dirty: true, draft: urls::with_query_apart(tab.draft), ..tab }
}

/// The workspace after an edit of the active tab.
pub open spec fn edited(ws: WorkspaceView, now: u64) -> WorkspaceView {
    let open = ws.open_request_tabs;
    ui_touched(
        WorkspaceView {
            open_request_tabs: match ws.active_request_tab_id {
                Some(id) => {
                    let i = tabs::tab_index(open, id);
                    if i < open.len() {
                        open.update(i, edited_tab(open[i]))
                    } else {
                        open
                    }
                },
                None => open,
            },
            ..ws
        },
        now,
    )
}

/// The workspace with a tab renamed; as it was where the tab is not open.
pub open spec fn renamed(
    ws: WorkspaceView,
    tab_id: Seq<char>,
    name: Seq<char>,
    now: u64,
) -> WorkspaceView {
    let open = ws.open_request_tabs;
    let i = tabs::tab_index(open, tab_id);
    if i < open.len() {
        let tab = TabView {
            is_dirty: true,
            draft: EndpointView { name: text::trim(name), ..open[i].draft },
            ..open[i]
        };
        ui_touched(WorkspaceView { open_request_tabs: open.update(i, tab), ..ws }, now)
    } else {
        ws
    }
}

/// The place that a tab is moved to: the given one, or the last where there is no such.
pub open spec fn bounded(target: nat, count: nat) -> int {
    if target < count {
        target as int
    } else {
        count - 1
    }
}

/// The workspace with a tab moved.
pub open spec fn moved(
    ws: WorkspaceView,
    tab_id: Seq<char>,
    target: nat,
    now: u64,
) -> WorkspaceView {
    let open = ws.open_request_tabs;
    let from = tabs::tab_index(open, tab_id);
    let to = bounded(target, open.len());
    if from >= open.len() || from == to {
        ws
    } else {
        ui_touched(
            WorkspaceView { open_request_tabs: open.remove(from).insert(to, open[from]), ..ws },
            now,
        )
    }
}

/// Moving a tab keeps all tabs: none is lost and none appears, and the tab stands where it was
/// moved to.
pub proof fn law_moving_keeps_tabs(ws: WorkspaceView, tab_id: Seq<char>, target: nat, now: u64)
    ensures
        moved(ws, tab_id, target, now).open_request_tabs.to_multiset()
            == ws.open_request_tabs.to_multiset(),
        moved(ws, tab_id, target, now).open_request_tabs.len() == ws.open_request_tabs.len(),
        tabs::has_tab(ws.open_request_tabs, tab_id) ==> moved(
            ws,
            tab_id,
            target,
            now,
        ).open_request_tabs[bounded(target, ws.open_request_tabs.len())].id == tab_id,
{
    let open = ws.open_request_tabs;
    let from = tabs::tab_index(open, tab_id);
    let to = bounded(target, open.len());
    tabs::lemma_tab_index(open, tab_id);
    if from < open.len() && from != to {
        let rest = open.remove(from);
        vstd::seq_lib::to_multiset_remove(open, from);
        vstd::seq_lib::to_multiset_insert(rest, to, open[from]);
        open.to_multiset_ensures();
        assert(open.to_multiset().count(open[from]) > 0);
        assert(open.to_multiset().remove(open[from]).insert(open[from]) =~= open.to_multiset());
    }
}

impl Workspace {
    pub fn activate_request_tab(&mut self, tab_id: Option<String>, now: u64)
        ensures
            final(self)@ == activated(old(self)@, text::opt(tab_id), now),
    {
        if same_opt(&self.active_request_tab_id, &tab_id) {
            return;
        }
        self.active_request_tab_id = tab_id;
        self.expand_to_selection = true;
        self.mark_workspace_ui_dirty(now);
    }

    fn push_tab(&mut self, tab: RequestTab, now: u64)
        ensures
            final(self)@ == with_tab(old(self)@, tab@, now),
    {
        let tab_id = tab.id.clone();
        proof {
            text::lemma_views_push(self.open_request_tabs@, tab);
        }
        self.open_request_tabs.push(tab);
        self.activate_request_tab(Some(tab_id), now);
        self.mark_workspace_ui_dirty(now);
    }

    /// Shows a saved endpoint: in the tab that it is open in, else in a new one. Nothing happens
    /// where there is no such endpoint.
    pub fn open_saved_request_in_tab(&mut self, endpoint_id: &str, now: u64)
        ensures
            ({
                let open = old(self)@.open_request_tabs;
                let at = showing_at(open, endpoint_id@);
                if at < open.len() {
                    final(self)@ == activated(old(self)@, Some(open[at].id), now)
                } else {
                    match tabs::first_with_id(old(self)@.saved_endpoints, endpoint_id@) {
                        Some(endpoint) => {
                            let tab = final(self)@.open_request_tabs.last();
                            &&& defaults::is_id(tab.id, "tab"@)
                            &&& tab == tabs::saved_tab(tab.id, endpoint)
                            &&& final(self)@ == with_tab(old(self)@, tab, now)
                        },
                        None => final(self)@ == old(self)@,
                    }
                }
            }),
    {
        let at = find_showing(&self.open_request_tabs, endpoint_id);
        if at < self.open_request_tabs.len() {
            let tab_id = self.open_request_tabs[at].id.clone();
            self.activate_request_tab(Some(tab_id), now);
            return;
        }
        let endpoint = match find_first_endpoint(&self.saved_endpoints, endpoint_id) {
            Some(endpoint) => endpoint.clone(),
            None => {
                return;
            },
        };
        let tab = RequestTab::from_saved(endpoint);
        self.push_tab(tab, now);
    }

    /// Opens a tab for a request that was never saved.
    pub fn add_endpoint(&mut self, now: u64)
        ensures
            ({
                let tab = final(self)@.open_request_tabs.last();
                &&& defaults::is_id(tab.id, "tab"@)
                &&& defaults::is_id(tab.draft.id, "ep"@)
                &&& tab == new_tab(tab.id, tab.draft.id)
                &&& final(self)@ == with_tab(old(self)@, tab, now)
            }),
    {
        let draft = Endpoint {
            id: create_id("ep"),
            source_request_id: String::new(),
            source_collection_id: String::new(),
            source_folder_id: String::new(),
            name: "New Request".to_owned(),
            collection: "General".to_owned(),
            folder_path: String::new(),
            method: "GET".to_owned(),
            url: "https://${api_host}/v1/health".to_owned(),
            query_params: Vec::new(),
            headers: Vec::new(),
            body_mode: "none".to_owned(),
            body: String::new(),
            scripts: Vec::new(),
        };
        let tab = RequestTab {
            id: create_id("tab"),
            saved_endpoint_id: None,
            draft,
            is_dirty: true,
            editor_tab: RequestEditorTab::Params,
            response_view_tab: ResponseViewTab::Pretty,
            response: ResponseState::default(),
            response_raw_chunks: Vec::new(),
            parsed_response_json: None,
            parsed_response_json_error: None,
            scripts_ran: 0,
            inflight_environment_id: None,
        };
        assert(tab@ =~= new_tab(tab@.id, tab@.draft.id));
        self.push_tab(tab, now);
    }

    /// Notes that the draft of the active tab was edited.
    pub fn mark_active_request_dirty(&mut self, now: u64)
        ensures
            final(self)@ == edited(old(self)@, now),
    {
        match self.active_request_tab_index() {
            Some(i) => {
                let ghost before = self.open_request_tabs@;
                let mut tab = self.open_request_tabs.remove(i);
                tab.is_dirty = true;
                normalize_endpoint_url_and_query_params(&mut tab.draft);
                self.open_request_tabs.insert(i, tab);
                assert(self.open_request_tabs@ =~= before.update(i as int, tab));
                proof {
                    text::lemma_views_update(before, i as int, tab);
                }
            },
            None => {},
        }
        self.mark_workspace_ui_dirty(now);
    }

    pub fn rename_request_tab(&mut self, tab_id: &str, name: &str, now: u64)
        ensures
            final(self)@ == renamed(old(self)@, tab_id@, name@, now),
    {
        let i = find_tab(&self.open_request_tabs, tab_id);
        if i < self.open_request_tabs.len() {
            let ghost before = self.open_request_tabs@;
            let mut tab = self.open_request_tabs.remove(i);
            tab.draft.name = trimmed(name);
            tab.is_dirty = true;
            self.open_request_tabs.insert(i, tab);
            assert(self.open_request_tabs@ =~= before.update(i as int, tab));
            proof {
                text::lemma_views_update(before, i as int, tab);
            }
            self.mark_workspace_ui_dirty(now);
        }
    }

    pub fn move_request_tab(&mut self, tab_id: &str, target_index: usize, now: u64)
        ensures
            final(self)@ == moved(old(self)@, tab_id@, target_index as nat, now),
    {
        let from = find_tab(&self.open_request_tabs, tab_id);
        let count: usize = self.open_request_tabs.len();
        if from >= count {
            return;
        }
        let to = if target_index < count {
            target_index
        } else {
            count - 1
        };
        if from == to {
            return;
        }
        let ghost before = self.open_request_tabs@;
        let tab = self.open_request_tabs.remove(from);
        self.open_request_tabs.insert(to, tab);
        assert(text::views(self.open_request_tabs@) =~= text::views(before).remove(
            from as int,
        ).insert(to as int, text::views(before)[from as int]));
        self.mark_workspace_ui_dirty(now);
    }
}

// ---------------------------------------------------------------------------
// Environments
// ---------------------------------------------------------------------------

/// A new environment.
pub open spec fn new_environment(id: Seq<char>, name: Seq<char>) -> EnvironmentView {
    EnvironmentView {
        id,
        name,
        file_name: id + ".json"@,
        variables: seq![
            ("api_host"@, "localhost:8080"@),
            ("token"@, "replace-me"@),
        ],
    }
}

/// The workspace without the selected environment. The last one stays.
pub open spec fn without_selected_environment(ws: WorkspaceView, now: u64) -> WorkspaceView {
    if ws.environments.len() <= 1 {
        WorkspaceView { status_line: "At least one environment must exist."@, ..ws }
    } else {
        match ws.selected_environment_id {
            Some(id) => {
                let at = environment_at(ws.environments, id);
                if at < ws.environments.len() {
                    let rest = ws.environments.remove(at);
                    touched(
                        WorkspaceView {
                            environments: rest,
                            selected_environment_id: first_environment_id(rest),
                            ..ws
                        },
                        now,
                    )
                } else {
                    ws
                }
            },
            None => ws,
        }
    }
}

impl Workspace {
    /// Adds an environment and selects it.
    pub fn add_environment(&mut self, name: String, now: u64)
        ensures
            ({
                let environment = final(self)@.environments.last();
                &&& defaults::is_id(environment.id, "env"@)
                &&& environment == new_environment(environment.id, name@)
                &&& final(self)@ == touched(
                    WorkspaceView {
                        environments: old(self)@.environments.push(environment),
                        selected_environment_id: Some(environment.id),
                        ..old(self)@
                    },
                    now,
                )
            }),
    {
        let id = create_id("env");
        let mut variables: Vec<KeyValue> = Vec::new();
        variables.push(KeyValue::new("api_host", "localhost:8080"));
        variables.push(KeyValue::new("token", "replace-me"));
        let environment = Environment {
            id: id.clone(),
            name,
            file_name: concat2(id.as_str(), ".json"),
            variables,
        };
        assert(environment@ =~= new_environment(environment@.id, name@));
        proof {
            text::lemma_views_push(self.environments@, environment);
        }
        self.environments.push(environment);
        self.selected_environment_id = Some(id);
        self.mark_dirty(now);
    }

    pub fn delete_selected_environment(&mut self, now: u64)
        ensures
            final(self)@ == without_selected_environment(old(self)@, now),
    {
        if self.environments.len() <= 1 {
            self.status_line = "At least one environment must exist.".to_owned();
            return;
        }
        match self.selected_environment_index() {
            Some(i) => {
                let ghost before = self.environments@;
                let _ = self.environments.remove(i);
                assert(text::views(self.environments@) =~= text::views(before).remove(i as int));
                self.selected_environment_id = first_environment(&self.environments);
                self.mark_dirty(now);
            },
            None => {},
        }
    }

    pub fn select_environment(&mut self, id: String, now: u64)
        ensures
            final(self)@ == touched(
                WorkspaceView { selected_environment_id: Some(id@), ..old(self)@ },
                now,
            ),
    {
        self.selected_environment_id = Some(id);
        self.mark_dirty(now);
    }

    /// Notes the size of the window.
    pub fn sync_window_resolution(&mut self, width: u32, height: u32, now: u64)
        ensures
            ({
                let config = old(self)@.config;
                let sized = WorkspaceView {
                    config: AppConfigView {
                        window_width: Some(width),
                        window_height: Some(height),
                        ..config
                    },
                    ..old(self)@
                };
                final(self)@ == (if config.window_width == Some(width) && config.window_height
                    == Some(height) {
                    old(self)@
                } else if old(self)@.phase == AppPhase::Ready {
                    touched(sized, now)
                } else {
                    sized
                })
            }),
    {
        let known = match (self.config.window_width, self.config.window_height) {
            (Some(w), Some(h)) => w == width && h == height,
            _ => false,
        };
        if known {
            return;
        }
        self.config.window_width = Some(width);
        self.config.window_height = Some(height);
        if self.phase == AppPhase::Ready {
            self.mark_dirty(now);
        }
    }
}

// ---------------------------------------------------------------------------
// Laws
// ---------------------------------------------------------------------------

/// A variable has the value of the last pair that has its name, surrounding white space not
/// counting; a pair without a name sets nothing, and no other variable is set.
pub proof fn law_last_pair_sets_the_variable(
    pairs: Seq<(Seq<char>, Seq<char>)>,
    name: Seq<char>,
    i: int,
)
    requires
        -1 <= i < pairs.len(),
        name.len() > 0,
        i >= 0 ==> text::trim(pairs[i].0) == name,
        forall|j: int| i < j < pairs.len() ==> text::trim((#[trigger] pairs[j]).0) != name,
    ensures
        i >= 0 ==> variables_of(pairs).dom().contains(name) && variables_of(pairs)[name]
            == pairs[i].1,
        i < 0 ==> !variables_of(pairs).dom().contains(name),
        !variables_of(pairs).dom().contains(Seq::empty()),
    decreases pairs.len(),
{
    if pairs.len() > 0 {
        let rest = pairs.drop_last();
        let n = pairs.len() - 1;
        assert(pairs[n] == pairs.last());
        if i == n {
            law_no_empty_name(pairs);
        } else {
            assert forall|j: int| i < j < rest.len() implies text::trim((#[trigger] rest[j]).0)
                != name by {
                assert(rest[j] == pairs[j]);
            }
            assert(text::trim(pairs[n].0) != name);
            law_last_pair_sets_the_variable(rest, name, i);
        }
    }
}

/// No variable has an empty name.
pub proof fn law_no_empty_name(pairs: Seq<(Seq<char>, Seq<char>)>)
    ensures
        !variables_of(pairs).dom().contains(Seq::empty()),
    decreases pairs.len(),
{
    if pairs.len() > 0 {
        law_no_empty_name(pairs.drop_last());
    }
}

/// Whether the environment is the first that has the id.
pub open spec fn is_first_with_id(
    environments: Seq<EnvironmentView>,
    id: Seq<char>,
    at: int,
) -> bool {
    &&& 0 <= at < environments.len()
    &&& environments[at].id == id
    &&& forall|k: int| 0 <= k < at ==> (#[trigger] environments[k]).id != id
}

proof fn lemma_first_with_id(environments: Seq<EnvironmentView>, id: Seq<char>, at: int)
    requires
        is_first_with_id(environments, id, at),
    ensures
        environment_at(environments, id) == at,
    decreases at,
{
    if at > 0 {
        let rest = environments.drop_first();
        assert(environments[0].id != id);
        assert forall|k: int| 0 <= k < at - 1 implies (#[trigger] rest[k]).id != id by {
            assert(rest[k] == environments[k + 1]);
        }
        lemma_first_with_id(rest, id, at - 1);
    }
}

/// The variables that a request is resolved with are those of the environment that is selected,
/// and its name is shown; where none is, there are no variables.
pub proof fn law_selected_environment_counts(ws: WorkspaceView, id: Seq<char>, at: int)
    ensures
        ws.selected_environment_id == Some(id) && is_first_with_id(ws.environments, id, at)
            ==> selected_variables(ws) == variables_of(ws.environments[at].variables)
            && selected_name(ws) == ws.environments[at].name,
        ws.selected_environment_id is None ==> selected_variables(ws) == Map::<
            Seq<char>,
            Seq<char>,
        >::empty() && selected_name(ws) == "None"@,
{
    if is_first_with_id(ws.environments, id, at) {
        lemma_first_with_id(ws.environments, id, at);
    }
}

/// A change is saved once it has been left alone for the delay, and not before; nothing is saved
/// while the workspace is locked or unchanged.
pub proof fn law_changes_are_saved_after_a_while(
    ws: WorkspaceView,
    changed: bool,
    since: u64,
    now: u64,
)
    ensures
        ws.phase == AppPhase::Ready && changed && now >= since + 350 ==> is_due(
            ws,
            changed,
            since,
            now,
        ),
        now < since + 350 || !changed || ws.phase != AppPhase::Ready ==> !is_due(
            ws,
            changed,
            since,
            now,
        ),
{
}

/// A tab that is opened comes behind the others and is the active one; the others stay.
pub proof fn law_new_tab_is_active(ws: WorkspaceView, tab: TabView, now: u64)
    ensures
        ({
            let after = with_tab(ws, tab, now);
            &&& after.open_request_tabs == ws.open_request_tabs.push(tab)
            &&& after.active_request_tab_id == Some(tab.id)
            &&& after.workspace_ui_dirty && after.workspace_ui_last_mutation == now
            &&& after.saved_endpoints == ws.saved_endpoints
            &&& after.environments == ws.environments
            &&& after.dirty == ws.dirty
        }),
{
}

/// A tab that is made active is the active one, and the list unfolds to it; the tabs stay.
pub proof fn law_chosen_tab_is_active(ws: WorkspaceView, tab_id: Seq<char>, now: u64)
    ensures
        ({
            let after = activated(ws, Some(tab_id), now);
            &&& after.active_request_tab_id == Some(tab_id)
            &&& after.open_request_tabs == ws.open_request_tabs
            &&& ws.active_request_tab_id == Some(tab_id) ==> after == ws
            &&& ws.active_request_tab_id != Some(tab_id) ==> after.expand_to_selection
                && after.workspace_ui_dirty && after.workspace_ui_last_mutation == now
        }),
{
}

/// Whether the tab is the first that has the id.
pub open spec fn is_first_tab(open: Seq<TabView>, id: Seq<char>, at: int) -> bool {
    &&& 0 <= at < open.len()
    &&& open[at].id == id
    &&& forall|k: int| 0 <= k < at ==> (#[trigger] open[k]).id != id
}

/// The first tab with the id is found.
pub proof fn lemma_first_tab(open: Seq<TabView>, id: Seq<char>, at: int)
    requires
        is_first_tab(open, id, at),
    ensures
        tabs::tab_index(open, id) == at,
    decreases at,
{
    if at > 0 {
        let rest = open.drop_first();
        assert(open[0].id != id);
        assert forall|k: int| 0 <= k < at - 1 implies (#[trigger] rest[k]).id != id by {
            assert(rest[k] == open[k + 1]);
        }
        lemma_first_tab(rest, id, at - 1);
    }
}

/// An edit leaves unsaved changes in the active tab, whose draft stays but for the query, which
/// is set apart from its URL. Nothing else changes, and the tabs are to be saved.
pub proof fn law_edit_marks_the_active_tab(ws: WorkspaceView, id: Seq<char>, at: int, now: u64)
    requires
        ws.active_request_tab_id == Some(id),
        is_first_tab(ws.open_request_tabs, id, at),
    ensures
        ({
            let after = edited(ws, now);
            let tab = ws.open_request_tabs[at];
            &&& after.open_request_tabs.len() == ws.open_request_tabs.len()
            &&& after.open_request_tabs[at] == (TabView {
                is_dirty: true,
                draft: urls::with_query_apart(tab.draft),
                ..tab
            })
            &&& forall|k: int|
                0 <= k < ws.open_request_tabs.len() && k != at
                    ==> #[trigger] after.open_request_tabs[k] == ws.open_request_tabs[k]
            &&& after.saved_endpoints == ws.saved_endpoints
            &&& after.workspace_ui_dirty && after.workspace_ui_last_mutation == now
        }),
{
    lemma_first_tab(ws.open_request_tabs, id, at);
}

/// A tab that is renamed has the new name, without surrounding white space, as an unsaved change.
pub proof fn law_renamed_tab_has_the_name(
    ws: WorkspaceView,
    id: Seq<char>,
    at: int,
    name: Seq<char>,
    now: u64,
)
    requires
        is_first_tab(ws.open_request_tabs, id, at),
    ensures
        ({
            let after = renamed(ws, id, name, now);
            let tab = ws.open_request_tabs[at];
            &&& after.open_request_tabs.len() == ws.open_request_tabs.len()
            &&& after.open_request_tabs[at] == (TabView {
                is_dirty: true,
                draft: EndpointView { name: text::trim(name), ..tab.draft },
                ..tab
            })
            &&& forall|k: int|
                0 <= k < ws.open_request_tabs.len() && k != at
                    ==> #[trigger] after.open_request_tabs[k] == ws.open_request_tabs[k]
            &&& after.saved_endpoints == ws.saved_endpoints
            &&& after.workspace_ui_dirty && after.workspace_ui_last_mutation == now
        }),
{
    lemma_first_tab(ws.open_request_tabs, id, at);
}

/// A tab that is moved stands at the place that was asked for, or last; the others keep their
/// order.
pub proof fn law_moved_tab_stands_there(
    ws: WorkspaceView,
    id: Seq<char>,
    from: int,
    target: nat,
    now: u64,
)
    requires
        is_first_tab(ws.open_request_tabs, id, from),
    ensures
        ({
            let open = ws.open_request_tabs;
            let to = if target < open.len() {
                target as int
            } else {
                open.len() - 1
            };
            let after = moved(ws, id, target, now).open_request_tabs;
            &&& after.len() == open.len()
            &&& after[to] == open[from]
            &&& after.remove(to) == open.remove(from)
            &&& moved(ws, id, target, now).active_request_tab_id == ws.active_request_tab_id
        }),
{
    lemma_first_tab(ws.open_request_tabs, id, from);
    let open = ws.open_request_tabs;
    let to = bounded(target, open.len());
    let after = moved(ws, id, target, now).open_request_tabs;
    if from != to {
        assert(open.remove(from).insert(to, open[from]).remove(to) =~= open.remove(from));
    }
}

/// The tab that shows a saved request is the first that does.
pub proof fn law_shown_request_is_found(open: Seq<TabView>, endpoint_id: Seq<char>, at: int)
    requires
        0 <= at <= open.len(),
        forall|k: int|
            0 <= k < at ==> (#[trigger] open[k]).saved_endpoint_id != Some(endpoint_id),
        at < open.len() ==> open[at].saved_endpoint_id == Some(endpoint_id),
    ensures
        showing_at(open, endpoint_id) == at,
    decreases at,
{
    if at > 0 {
        let rest = open.drop_first();
        assert(open[0].saved_endpoint_id != Some(endpoint_id));
        assert forall|k: int| 0 <= k < at - 1 implies (#[trigger] rest[k]).saved_endpoint_id
            != Some(endpoint_id) by {
            assert(rest[k] == open[k + 1]);
        }
        law_shown_request_is_found(rest, endpoint_id, at - 1);
    }
}

/// The selected environment is deleted, unless it is the only one: the others stay in their
/// order, and the first of them is selected.
pub proof fn law_selected_environment_is_deleted(
    ws: WorkspaceView,
    id: Seq<char>,
    at: int,
    now: u64,
)
    requires
        ws.selected_environment_id == Some(id),
        is_first_with_id(ws.environments, id, at),
    ensures
        ({
            let after = without_selected_environment(ws, now);
            if ws.environments.len() == 1 {
                after.environments == ws.environments && after.selected_environment_id
                    == ws.selected_environment_id && after.dirty == ws.dirty && after.status_line
                    == "At least one environment must exist."@
            } else {
                &&& after.environments == ws.environments.remove(at)
                &&& after.selected_environment_id == Some(after.environments[0].id)
                &&& after.dirty && after.last_mutation == now
            }
        }),
{
    lemma_first_with_id(ws.environments, id, at);
}

/// A new request is a `GET` without parameters, headers, body and scripts, in a tab that is not
/// saved yet.
pub proof fn law_new_request_is_bare(id: Seq<char>, endpoint_id: Seq<char>)
    ensures
        ({
            let tab = new_tab(id, endpoint_id);
            &&& tab.id == id
            &&& tab.draft.id == endpoint_id
            &&& tab.saved_endpoint_id is None
            &&& tab.is_dirty
            &&& tab.scripts_ran == 0
            &&& tab.inflight_environment_id is None
            &&& tab.response.status_code is None
            &&& tab.response.body.len() == 0
            &&& tab.draft.method == "GET"@
            &&& tab.draft.name == "New Request"@
            &&& tab.draft.collection == "General"@
            &&& tab.draft.folder_path.len() == 0
            &&& tab.draft.url == "https://${api_host}/v1/health"@
            &&& tab.draft.query_params.len() == 0
            &&& tab.draft.headers.len() == 0
            &&& tab.draft.scripts.len() == 0
            &&& tab.draft.body_mode == "none"@
            &&& tab.draft.body.len() == 0
            &&& tab.draft.source_request_id.len() == 0
        }),
{
}

/// A new environment has the name that was asked for and defines the host.
pub proof fn law_new_environment_has_its_name(id: Seq<char>, name: Seq<char>)
    ensures
        new_environment(id, name).id == id,
        new_environment(id, name).name == name,
        new_environment(id, name).file_name == id + ".json"@,
        new_environment(id, name).variables.len() == 2,
        new_environment(id, name).variables[0] == ("api_host"@, "localhost:8080"@),
        new_environment(id, name).variables[1] == ("token"@, "replace-me"@),
{
}

/// A selected environment that exists stays selected; in place of one that does not, the first is
/// selected.
pub proof fn law_selection_falls_to_the_first(
    environments: Seq<EnvironmentView>,
    id: Seq<char>,
    at: int,
)
    ensures
        is_first_with_id(environments, id, at) ==> environment_among(environments, Some(id))
            == Some(id),
        environments.len() > 0 ==> environment_among(environments, None) == Some(
            environments[0].id,
        ),
        environments.len() > 0 && (forall|i: int|
            0 <= i < environments.len() ==> (#[trigger] environments[i]).id != id)
            ==> environment_among(environments, Some(id)) == Some(environments[0].id),
        environments.len() == 0 ==> environment_among(environments, Some(id)) is None,
{
    if is_first_with_id(environments, id, at) {
        lemma_first_with_id(environments, id, at);
    }
    if forall|i: int| 0 <= i < environments.len() ==> (#[trigger] environments[i]).id != id {
        lemma_no_environment(environments, id);
    }
}

proof fn lemma_no_environment(environments: Seq<EnvironmentView>, id: Seq<char>)
    requires
        forall|i: int| 0 <= i < environments.len() ==> (#[trigger] environments[i]).id != id,
    ensures
        environment_at(environments, id) == environments.len(),
    decreases environments.len(),
{
    if environments.len() > 0 {
        let rest = environments.drop_first();
        assert(environments[0].id != id);
        assert forall|i: int| 0 <= i < rest.len() implies (#[trigger] rest[i]).id != id by {
            assert(rest[i] == environments[i + 1]);
        }
        lemma_no_environment(rest, id);
    }
}

} // verus!
