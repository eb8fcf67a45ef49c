//! Passwords, unlocking and locking.
use crate::defaults;
use crate::defaults::default_environments;
use crate::models;
use crate::models::{AppConfigView, Environment, EnvironmentView, WorkspaceUiState};
use crate::security::KeyMaterial;
use crate::storage::{CoreData, CoreView};
use crate::tabs;
use crate::tabs::{restore_request_tabs, RequestTab, TabView};
use crate::text;
use crate::text::{chars_of, copy_opt, same_text, trimmed};
use crate::workspace;
use crate::workspace::{AppPhase, Workspace, WorkspaceView};
use vstd::prelude::*;
use vstd::utf8::*;

verus! {

// ---------------------------------------------------------------------------
// Choosing passwords
// ---------------------------------------------------------------------------

/// The fewest characters of a master password.
pub const MIN_MASTER_PASSWORD: usize = 12;

/// The fewest bytes of the password of a bundle.
pub const MIN_BUNDLE_PASSWORD: usize = 8;

/// Whether a master password can be chosen.
pub fn check_master_password(password: &str, confirm: &str) -> (r: Result<(), String>)
    ensures
        match r {
            Ok(_) => password@.len() >= MIN_MASTER_PASSWORD && password@ == confirm@,
            Err(message) => if password@.len() < MIN_MASTER_PASSWORD {
                message@ == "Password must be at least 12 characters."@
            } else {
                password@ != confirm@ && message@ == "Password confirmation does not match."@
            },
        },
{
    if chars_of(password).len() < MIN_MASTER_PASSWORD {
        return Err("Password must be at least 12 characters.".to_owned());
    }
    if !same_text(password, confirm) {
        return Err("Password confirmation does not match.".to_owned());
    }
    Ok(())
}

/// The password that a bundle is exported with: the given one without the space around it.
pub fn check_export_password(password: &str, confirm: &str) -> (r: Result<String, String>)
    ensures
        ({
            let chosen = text::trim(password@);
            match r {
                Ok(found) => encode_utf8(chosen).len() >= MIN_BUNDLE_PASSWORD && chosen
                    == text::trim(confirm@) && found@ == chosen,
                Err(message) => if encode_utf8(chosen).len() < MIN_BUNDLE_PASSWORD {
                    message@ == "Bundle password must be at least 8 characters."@
                } else {
                    chosen != text::trim(confirm@) && message@
                        == "Bundle password confirmation does not match."@
                },
            }
        }),
{
    let password = trimmed(password);
    let confirm = trimmed(confirm);
    if password.as_str().as_bytes().len() < MIN_BUNDLE_PASSWORD {
        return Err("Bundle password must be at least 8 characters.".to_owned());
    }
    if !same_text(password.as_str(), confirm.as_str()) {
        return Err("Bundle password confirmation does not match.".to_owned());
    }
    Ok(password)
}

// ---------------------------------------------------------------------------
// Opening
// ---------------------------------------------------------------------------

/// The workspace before a password was entered.
pub open spec fn closed_workspace(
    core: CoreView,
    open: Seq<TabView>,
    active: Option<Seq<char>>,
    has_password: bool,
    status_line: Seq<char>,
    now: u64,
) -> WorkspaceView {
    WorkspaceView {
        phase: if has_password {
            AppPhase::UnlockPassword
        } else {
            AppPhase::SetupPassword
        },
        key_material: None,
        saved_endpoints: core.endpoints,
        open_request_tabs: open,
        pending_environment_index: core.environment_index,
        environments: Seq::empty(),
        active_request_tab_id: active,
        selected_environment_id: core.config.selected_environment_id,
        config: core.config,
        status_line,
        dirty: false,
        last_mutation: now,
        workspace_ui_dirty: false,
        workspace_ui_last_mutation: now,
        in_flight_tab_id: None,
        expand_to_selection: true,
        pending_request_action: None,
    }
}

impl Workspace {
    /// The workspace that was stored, before a password was entered.
    pub fn open(
        core: CoreData,
        workspace_ui: Option<WorkspaceUiState>,
        has_password: bool,
        status_line: String,
        now: u64,
    ) -> (r: Self)
        ensures
            tabs::are_first_tabs(
                r@.open_request_tabs,
                r@.active_request_tab_id,
                core@.endpoints,
                tabs::ui_opt(workspace_ui),
                core@.config.selected_endpoint_id,
            ),
            r@ == closed_workspace(
                core@,
                r@.open_request_tabs,
                r@.active_request_tab_id,
                has_password,
                status_line@,
                now,
            ),
    {
        let (open_request_tabs, active_request_tab_id) = restore_request_tabs(
            &core.endpoints,
            workspace_ui,
            &core.config.selected_endpoint_id,
        );
        let environments: Vec<Environment> = Vec::new();
        assert(text::views(environments@) =~= Seq::empty());
        Workspace {
            phase: if has_password {
                AppPhase::UnlockPassword
            } else {
                AppPhase::SetupPassword
            },
            key_material: None,
            saved_endpoints: core.endpoints,
            open_request_tabs,
            pending_environment_index: core.environment_index,
            environments,
            active_request_tab_id,
            selected_environment_id: copy_opt(&core.config.selected_environment_id),
            config: core.config,
            status_line,
            dirty: false,
            last_mutation: now,
            workspace_ui_dirty: false,
            workspace_ui_last_mutation: now,
            in_flight_tab_id: None,
            expand_to_selection: true,
            pending_request_action: None,
        }
    }
}

// ---------------------------------------------------------------------------
// Unlocking
// ---------------------------------------------------------------------------

/// The workspace with its environments decrypted.
pub open spec fn unlocked(
    ws: WorkspaceView,
    key: KeyMaterial,
    environments: Seq<EnvironmentView>,
    found_legacy: bool,
    now: u64,
) -> WorkspaceView {
    let filled = if environments.len() == 0 {
        workspace::touched(
            WorkspaceView { environments: defaults::starting_environments(), ..ws },
            now,
        )
    } else {
        WorkspaceView { environments, ..ws }
    };
    let open = workspace::with_selection(WorkspaceView { key_material: Some(key), ..filled });
    if found_legacy {
        workspace::touched(
            WorkspaceView {
                status_line:
                    "Detected legacy plaintext environment files. They will be re-encrypted."@,
                ..open
            },
            now,
        )
    } else {
        open
    }
}

/// What is to be done about the session when a workspace was unlocked.
#[derive(Clone, Copy, Debug, PartialEq, Eq, Structural)]
pub enum SessionPlan {
    /// The password is asked for every time.
    Forget,
    /// The key is kept until a time, in seconds of the Unix epoch.
    Keep { expires_at: u64 },
}

/// The time that stands for never.
pub const NEVER: u64 = u64::MAX;

/// When a session of so many days that begins now ends; none is for zero days.
pub open spec fn session_end(days: u32, now: u64) -> u64 {
    if days == 0 || now + days * 86_400 > u64::MAX {
        NEVER
    } else {
        (now + days * 86_400) as u64
    }
}

/// What is to be done about the session that begins now.
pub open spec fn session_plan(duration_days: Option<u32>, now: u64) -> SessionPlan {
    match duration_days {
        Some(days) => SessionPlan::Keep { expires_at: session_end(days, now) },
        None => SessionPlan::Forget,
    }
}

/// What is known of a session when a workspace is opened.
#[derive(Clone, Copy, Debug, PartialEq, Eq, Structural)]
pub enum SessionState {
    /// There is none.
    Absent,
    /// There was one, which is over.
    Expired,
    /// There is one.
    Active,
}

/// The state of a session that ends at a time.
pub open spec fn session_state(expires_at: Option<u64>, now: u64) -> SessionState {
    match expires_at {
        None => SessionState::Absent,
        Some(end) => if end != NEVER && end < now {
            SessionState::Expired
        } else {
            SessionState::Active
        },
    }
}

/// A session lasts as long as was chosen, and no longer.
pub proof fn law_session_lasts_as_chosen(days: u32, start: u64, now: u64)
    requires
        start + days * 86_400 < u64::MAX,
    ensures
        session_plan(Some(days), start) matches SessionPlan::Keep { expires_at } && (session_state(
            Some(expires_at),
            now,
        ) == SessionState::Active) == (days == 0 || now <= start + days * 86_400),
{
}

/// For how long a session can be chosen to last: what the choice is called, and the days; none for
/// always, and zero for ever.
pub open spec fn choices() -> Seq<(Seq<char>, Option<u32>)> {
    seq![
        ("Always ask"@, None),
        ("1 day"@, Some(1u32)),
        ("7 days"@, Some(7u32)),
        ("14 days"@, Some(14u32)),
        ("30 days"@, Some(30u32)),
        ("Forever"@, Some(0u32)),
    ]
}

/// For how long a session can be chosen to last.
pub fn session_choices() -> (r: Vec<(&'static str, Option<u32>)>)
    ensures
        r@.len() == choices().len(),
        forall|i: int|
            0 <= i < r@.len() ==> ((#[trigger] r@[i]).0@, r@[i].1) == choices()[i],
{
    vec![
        ("Always ask", None),
        ("1 day", Some(1u32)),
        ("7 days", Some(7u32)),
        ("14 days", Some(14u32)),
        ("30 days", Some(30u32)),
        ("Forever", Some(0u32)),
    ]
}

fn same_days(a: Option<u32>, b: Option<u32>) -> (r: bool)
    ensures
        r == (a == b),
{
    match (a, b) {
        (Some(a), Some(b)) => a == b,
        (None, None) => true,
        _ => false,
    }
}

/// Which choice was made: that of the days, or else the first.
pub fn session_choice(days: Option<u32>) -> (i: usize)
    ensures
        i < choices().len(),
        choices()[i as int].1 == days || i == 0 && forall|j: int|
            0 <= j < choices().len() ==> (#[trigger] choices()[j]).1 != days,
{
    let all = session_choices();
    let mut i: usize = 0;
    while i < all.len()
        invariant
            i <= all@.len(),
            all@.len() == choices().len(),
            forall|j: int|
                0 <= j < all@.len() ==> ((#[trigger] all@[j]).0@, all@[j].1) == choices()[j],
            forall|j: int| 0 <= j < i ==> (#[trigger] all@[j]).1 != days,
        decreases all@.len() - i,
    {
        if same_days(all[i].1, days) {
            return i;
        }
        i += 1;
    }
    assert forall|j: int| 0 <= j < choices().len() implies (#[trigger] choices()[j]).1 != days by {
        assert(all@[j].1 != days);
    }
    0
}

/// The workspace without a session.
pub open spec fn without_session(ws: WorkspaceView) -> WorkspaceView {
    WorkspaceView { config: AppConfigView { session_expires_at: None, ..ws.config }, ..ws }
}

/// The workspace with its secrets gone: key and environments, the responses, and the session.
pub open spec fn locked(ws: WorkspaceView) -> WorkspaceView {
    WorkspaceView {
        key_material: None,
        environments: Seq::empty(),
        in_flight_tab_id: None,
        open_request_tabs: ws.open_request_tabs.map_values(
            |tab: TabView| tabs::without_response(tab),
        ),
        phase: AppPhase::UnlockPassword,
        ..without_session(ws)
    }
}

fn clear_responses(open: Vec<RequestTab>) -> (r: Vec<RequestTab>)
    ensures
        text::views(r@) == text::views(open@).map_values(
            |tab: TabView| tabs::without_response(tab),
        ),
{
    let ghost given = open@;
    let mut r: Vec<RequestTab> = Vec::new();
    for tab in it: open
        invariant
            it.seq() == given,
            r@.len() == it.index(),
            forall|j: int|
                0 <= j < r@.len() ==> (#[trigger] r@[j])@ == tabs::without_response(given[j]@),
    {
        assert(tab == given[it.index() as int]);
        let mut tab = tab;
        tab.clear_for_request_switch();
        r.push(tab);
    }
    assert(text::views(r@) =~= text::views(given).map_values(
        |tab: TabView| tabs::without_response(tab),
    ));
    r
}

impl Workspace {
    /// Takes in the key and the environments that it decrypts. Says whether requests are to be
    /// imported for the first time.
    pub fn complete_unlock(
        &mut self,
        key: KeyMaterial,
        environments: Vec<Environment>,
        found_legacy_plaintext: bool,
        now: u64,
    ) -> (import_due: bool)
        ensures
            final(self)@ == unlocked(
                old(self)@,
                key,
                text::views(environments@),
                found_legacy_plaintext,
                now,
            ),
            import_due == !old(self)@.config.postman_preseed_done,
    {
        if environments.is_empty() {
            self.environments = default_environments();
            self.mark_dirty(now);
        } else {
            self.environments = environments;
        }
        self.key_material = Some(key);
        self.ensure_selected_ids();
        if found_legacy_plaintext {
            self.status_line =
                "Detected legacy plaintext environment files. They will be re-encrypted.".to_owned();
            self.mark_dirty(now);
        }
        !self.config.postman_preseed_done
    }

    /// Notes that requests were imported for the first time.
    pub fn finish_first_import(&mut self, files_scanned: usize, message: String, now: u64)
        ensures
            final(self)@ == (WorkspaceView {
                status_line: if files_scanned > 0 {
                    message@
                } else {
                    "No Postman data found for auto-import in default folders."@
                },
                ..workspace::touched(
                    WorkspaceView {
                        config: AppConfigView {
                            postman_preseed_done: true,
                            ..old(self)@.config
                        },
                        ..old(self)@
                    },
                    now,
                )
            }),
    {
        self.config.postman_preseed_done = true;
        self.mark_dirty(now);
        self.status_line = if files_scanned > 0 {
            message
        } else {
            "No Postman data found for auto-import in default folders.".to_owned()
        };
    }

    /// What is to be done about the session that begins now.
    pub fn plan_session(&self, now: u64) -> (r: SessionPlan)
        ensures
            r == session_plan(self@.config.session_duration_days, now),
    {
        match self.config.session_duration_days {
            Some(days) => {
                let length: u64 = days as u64 * 86_400;
                let expires_at = if days == 0 || now > u64::MAX - length {
                    NEVER
                } else {
                    now + length
                };
                SessionPlan::Keep { expires_at }
            },
            None => SessionPlan::Forget,
        }
    }

    /// Notes that the key is kept until a time.
    pub fn keep_session(&mut self, expires_at: u64)
        ensures
            final(self)@ == (WorkspaceView {
                config: AppConfigView {
                    session_expires_at: Some(expires_at),
                    ..old(self)@.config
                },
                ..old(self)@
            }),
    {
        self.config.session_expires_at = Some(expires_at);
    }

    /// Notes that no key is kept.
    pub fn forget_session(&mut self)
        ensures
            final(self)@ == without_session(old(self)@),
    {
        self.config.session_expires_at = None;
    }

    /// What is known of a session, at a time, when the workspace is opened. None counts where no
    /// password was set yet. One that is over is forgotten.
    pub fn check_session(&mut self, now: u64) -> (r: SessionState)
        ensures
            r == (if old(self)@.phase == AppPhase::UnlockPassword {
                session_state(old(self)@.config.session_expires_at, now)
            } else {
                SessionState::Absent
            }),
            final(self)@ == (if r == SessionState::Expired {
                without_session(old(self)@)
            } else {
                old(self)@
            }),
    {
        if self.phase != AppPhase::UnlockPassword {
            return SessionState::Absent;
        }
        match self.config.session_expires_at {
            None => SessionState::Absent,
            Some(end) => if end != NEVER && end < now {
                self.config.session_expires_at = None;
                SessionState::Expired
            } else {
                SessionState::Active
            },
        }
    }

    /// Locks the workspace.
    pub fn lock_workspace(&mut self)
        ensures
            final(self)@ == locked(old(self)@),
    {
        self.key_material = None;
        self.environments = Vec::new();
        assert(text::views(self.environments@) =~= Seq::empty());
        self.in_flight_tab_id = None;
        let mut open: Vec<RequestTab> = Vec::new();
        std::mem::swap(&mut self.open_request_tabs, &mut open);
        self.open_request_tabs = clear_responses(open);
        self.config.session_expires_at = None;
        self.phase = AppPhase::UnlockPassword;
    }
}

/// A locked workspace holds no key, no environment and no response, and asks for the password;
/// the drafts of its tabs are as they were.
pub proof fn law_lock_leaves_no_secrets(ws: WorkspaceView, now: u64)
    ensures
        ({
            let after = locked(ws);
            &&& after.key_material is None
            &&& after.environments.len() == 0
            &&& after.phase == AppPhase::UnlockPassword
            &&& session_state(after.config.session_expires_at, now) == SessionState::Absent
            &&& workspace::selected_variables(after) == Map::<Seq<char>, Seq<char>>::empty()
            &&& after.open_request_tabs.len() == ws.open_request_tabs.len()
            &&& forall|i: int|
                0 <= i < after.open_request_tabs.len() ==> {
                    let tab = #[trigger] after.open_request_tabs[i];
                    &&& tab.response == models::blank_response(Seq::empty())
                    &&& tab.response_raw_chunks.len() == 0
                    &&& tab.parsed_response_json is None
                    &&& tab.draft == ws.open_request_tabs[i].draft
                    &&& tab.is_dirty == ws.open_request_tabs[i].is_dirty
                }
        }),
{
    match ws.selected_environment_id {
        Some(id) => workspace::lemma_environment_at(locked(ws).environments, id),
        None => {},
    }
}

// ---------------------------------------------------------------------------
// The password dialogs
// ---------------------------------------------------------------------------

/// How the password dialog stands.
pub struct AuthState {
    /// Whether a password is being checked.
    pub pending: bool,
    pub message: String,
}

#[verifier::ext_equal]
pub struct AuthView {
    pub pending: bool,
    pub message: Seq<char>,
}

impl View for AuthState {
    type V = AuthView;

    open spec fn view(&self) -> AuthView {
        AuthView { pending: self.pending, message: self.message@ }
    }
}

impl AuthState {
    pub fn new() -> (r: Self)
        ensures
            r@ == (AuthView { pending: false, message: Seq::empty() }),
    {
        AuthState { pending: false, message: String::new() }
    }

    /// Submits a new master password. Says whether it is to be set.
    pub fn submit_setup(&mut self, password: &str, confirm: &str) -> (go: bool)
        ensures
            go == (!old(self)@.pending && password@.len() >= MIN_MASTER_PASSWORD && password@
                == confirm@),
            final(self)@ == (if old(self)@.pending {
                old(self)@
            } else if password@.len() < MIN_MASTER_PASSWORD {
                AuthView { message: "Password must be at least 12 characters."@, ..old(self)@ }
            } else if password@ != confirm@ {
                AuthView { message: "Password confirmation does not match."@, ..old(self)@ }
            } else {
                AuthView { pending: true, message: Seq::empty() }
            }),
    {
        if self.pending {
            return false;
        }
        match check_master_password(password, confirm) {
            Ok(_) => {
                self.pending = true;
                self.message = String::new();
                true
            },
            Err(message) => {
                self.message = message;
                false
            },
        }
    }

    /// Submits the master password. Says whether it is to be checked.
    pub fn submit_unlock(&mut self, has_metadata: bool) -> (go: bool)
        ensures
            go == (!old(self)@.pending && has_metadata),
            final(self)@ == (if old(self)@.pending {
                old(self)@
            } else if !has_metadata {
                AuthView { message: "Missing security metadata; restart app."@, ..old(self)@ }
            } else {
                AuthView { pending: true, message: Seq::empty() }
            }),
    {
        if self.pending {
            return false;
        }
        if !has_metadata {
            self.message = "Missing security metadata; restart app.".to_owned();
            return false;
        }
        self.pending = true;
        self.message = String::new();
        true
    }

    /// Notes what came of a password: a message where it failed.
    pub fn settle(&mut self, failure: Option<String>)
        ensures
            final(self)@ == (AuthView {
                pending: false,
                message: match text::opt(failure) {
                    Some(message) => message,
                    None => Seq::empty(),
                },
            }),
    {
        self.pending = false;
        self.message = match failure {
            Some(message) => message,
            None => String::new(),
        };
    }
}

/// An unlocked workspace holds the key and the environments that it decrypts, or the first ones
/// where there are none, and one of them is selected. Requests and tabs are as they were.
pub proof fn law_unlocked_workspace_holds_its_environments(
    ws: WorkspaceView,
    key: KeyMaterial,
    environments: Seq<EnvironmentView>,
    found_legacy: bool,
    now: u64,
)
    ensures
        ({
            let after = unlocked(ws, key, environments, found_legacy, now);
            &&& after.key_material == Some(key)
            &&& after.environments == (if environments.len() > 0 {
                environments
            } else {
                defaults::starting_environments()
            })
            &&& after.selected_environment_id is Some
            &&& after.saved_endpoints == ws.saved_endpoints
            &&& after.open_request_tabs == ws.open_request_tabs
            &&& found_legacy || environments.len() == 0 ==> after.dirty && after.last_mutation == now
            &&& !found_legacy && environments.len() > 0 ==> after.dirty == ws.dirty
        }),
{
}

/// A workspace asks for its password where it has one, and for a new one where it has none;
/// before it is unlocked it holds no key and no environments.
pub proof fn law_closed_workspace_asks_for_a_password(
    core: CoreView,
    open: Seq<TabView>,
    active: Option<Seq<char>>,
    has_password: bool,
    status_line: Seq<char>,
    now: u64,
)
    ensures
        ({
            let ws = closed_workspace(core, open, active, has_password, status_line, now);
            &&& ws.phase == AppPhase::UnlockPassword <==> has_password
            &&& ws.phase == AppPhase::SetupPassword <==> !has_password
            &&& ws.key_material is None
            &&& ws.environments.len() == 0
            &&& ws.saved_endpoints == core.endpoints
            &&& ws.open_request_tabs == open
            &&& ws.active_request_tab_id == active
            &&& ws.pending_environment_index == core.environment_index
            &&& !ws.dirty && !ws.workspace_ui_dirty
        }),
{
}

/// Locking keeps the work: requests and tabs stay, with their unsaved changes, and which one is
/// active.
pub proof fn law_lock_keeps_the_work(ws: WorkspaceView, i: int)
    requires
        0 <= i < ws.open_request_tabs.len(),
    ensures
        ({
            let after = locked(ws);
            &&& after.saved_endpoints == ws.saved_endpoints
            &&& after.active_request_tab_id == ws.active_request_tab_id
            &&& after.open_request_tabs[i].id == ws.open_request_tabs[i].id
            &&& after.open_request_tabs[i].draft == ws.open_request_tabs[i].draft
            &&& after.open_request_tabs[i].is_dirty == ws.open_request_tabs[i].is_dirty
            &&& after.open_request_tabs[i].saved_endpoint_id
                == ws.open_request_tabs[i].saved_endpoint_id
        }),
{
}

/// Without a duration the password is asked for every time; with one the key is kept. A session
/// that never ends is never over.
pub proof fn law_sessions_are_kept_as_chosen(days: u32, now: u64, later: u64)
    ensures
        session_plan(None, now) == SessionPlan::Forget,
        session_plan(Some(0), now) == (SessionPlan::Keep { expires_at: u64::MAX }),
        now + days * 86_400 <= u64::MAX && days > 0 ==> session_plan(Some(days), now)
            == (SessionPlan::Keep { expires_at: (now + days * 86_400) as u64 }),
        now + days * 86_400 > u64::MAX ==> session_plan(Some(days), now) == (SessionPlan::Keep {
            expires_at: u64::MAX,
        }),
        session_state(None, later) == SessionState::Absent,
        session_state(Some(u64::MAX), later) == SessionState::Active,
        now < later && now < u64::MAX ==> session_state(Some(now), later) == SessionState::Expired,
        later <= now ==> session_state(Some(now), later) == SessionState::Active,
{
}

/// The durations on offer: asking always, some days, and for ever.
pub proof fn law_durations_on_offer()
    ensures
        choices()[0] == ("Always ask"@, None::<u32>),
        choices().contains(("1 day"@, Some(1u32))),
        choices().contains(("7 days"@, Some(7u32))),
        choices().contains(("30 days"@, Some(30u32))),
        choices().contains(("Forever"@, Some(0u32))),
{
    let all = choices();
    assert(all[1] == ("1 day"@, Some(1u32)));
    assert(all[2] == ("7 days"@, Some(7u32)));
    assert(all[4] == ("30 days"@, Some(30u32)));
    assert(all[5] == ("Forever"@, Some(0u32)));
}

/// Files in an old format are noted when a workspace is unlocked, so that they are written anew; a
/// workspace without environments gets those to start with.
pub proof fn law_unlocking_mends_the_environments(
    ws: WorkspaceView,
    key: KeyMaterial,
    environments: Seq<EnvironmentView>,
    found_legacy: bool,
    now: u64,
)
    ensures
        ({
            let after = unlocked(ws, key, environments, found_legacy, now);
            &&& after.key_material == Some(key)
            &&& found_legacy || environments.len() == 0 ==> after.dirty && after.last_mutation
                == now
            &&& !found_legacy && environments.len() > 0 ==> after.dirty == ws.dirty
                && after.status_line == ws.status_line
            &&& found_legacy ==> after.status_line
                == "Detected legacy plaintext environment files. They will be re-encrypted."@
            &&& environments.len() > 0 ==> after.environments == environments
            &&& environments.len() == 0 ==> after.environments == defaults::starting_environments()
            &&& after.saved_endpoints == ws.saved_endpoints
            &&& after.open_request_tabs == ws.open_request_tabs
        }),
{
}

} // verus!
