//! The data of a workspace.
use crate::text;
use vstd::prelude::*;

verus! {

/// A name with a value: a header, a query parameter, a variable.
#[derive(Debug, PartialEq, Eq)]
pub struct KeyValue {
    pub key: String,
    pub value: String,
}

impl View for KeyValue {
    type V = (Seq<char>, Seq<char>);

    open spec fn view(&self) -> (Seq<char>, Seq<char>) {
        (self.key@, self.value@)
    }
}

impl Clone for KeyValue {
    fn clone(&self) -> (r: Self)
        ensures
            r@ == self@,
    {
        KeyValue { key: self.key.clone(), value: self.value.clone() }
    }
}

impl KeyValue {
    pub fn new(key: &str, value: &str) -> (r: Self)
        ensures
            r@ == (key@, value@),
    {
        KeyValue { key: key.to_owned(), value: value.to_owned() }
    }
}

pub fn clone_pairs(pairs: &Vec<KeyValue>) -> (r: Vec<KeyValue>)
    ensures
        text::views(r@) == text::views(pairs@),
{
    let r = pairs.clone();
    assert forall|i: int| 0 <= i < pairs@.len() implies #[trigger] r@[i]@ == pairs@[i]@ by {
        assert(cloned::<KeyValue>(pairs@[i], r@[i]));
    }
    assert(text::views(r@) =~= text::views(pairs@));
    r
}

/// A rule that runs after a successful response: the value at a path of the JSON body is
/// written into an environment variable.
#[derive(Debug, PartialEq, Eq)]
pub struct ResponseScript {
    /// Dot-notation path into the body, e.g. `access_token` or `data.token`.
    pub extract_key: String,
    /// Name of the environment variable to set, e.g. `token`.
    pub env_var: String,
}

impl View for ResponseScript {
    type V = (Seq<char>, Seq<char>);

    open spec fn view(&self) -> (Seq<char>, Seq<char>) {
        (self.extract_key@, self.env_var@)
    }
}

impl Clone for ResponseScript {
    fn clone(&self) -> (r: Self)
        ensures
            r@ == self@,
    {
        ResponseScript { extract_key: self.extract_key.clone(), env_var: self.env_var.clone() }
    }
}

pub fn clone_scripts(scripts: &Vec<ResponseScript>) -> (r: Vec<ResponseScript>)
    ensures
        text::views(r@) == text::views(scripts@),
{
    let r = scripts.clone();
    assert forall|i: int| 0 <= i < scripts@.len() implies #[trigger] r@[i]@ == scripts@[i]@ by {
        assert(cloned::<ResponseScript>(scripts@[i], r@[i]));
    }
    assert(text::views(r@) =~= text::views(scripts@));
    r
}

/// A stored request.
#[derive(Debug, PartialEq, Eq)]
pub struct Endpoint {
    pub id: String,
    pub source_request_id: String,
    pub source_collection_id: String,
    pub source_folder_id: String,
    pub name: String,
    pub collection: String,
    pub folder_path: String,
    pub method: String,
    pub url: String,
    pub query_params: Vec<KeyValue>,
    pub headers: Vec<KeyValue>,
    pub body_mode: String,
    pub body: String,
    /// Rules executed after a 2xx response.
    pub scripts: Vec<ResponseScript>,
}

/// What an endpoint says.
#[verifier::ext_equal]
pub struct EndpointView {
    pub id: Seq<char>,
    pub source_request_id: Seq<char>,
    pub source_collection_id: Seq<char>,
    pub source_folder_id: Seq<char>,
    pub name: Seq<char>,
    pub collection: Seq<char>,
    pub folder_path: Seq<char>,
    pub method: Seq<char>,
    pub url: Seq<char>,
    pub query_params: Seq<(Seq<char>, Seq<char>)>,
    pub headers: Seq<(Seq<char>, Seq<char>)>,
    pub body_mode: Seq<char>,
    pub body: Seq<char>,
    pub scripts: Seq<(Seq<char>, Seq<char>)>,
}

impl View for Endpoint {
    type V = EndpointView;

    open spec fn view(&self) -> EndpointView {
        EndpointView {
            id: self.id@,
            source_request_id: self.source_request_id@,
            source_collection_id: self.source_collection_id@,
            source_folder_id: self.source_folder_id@,
            name: self.name@,
            collection: self.collection@,
            folder_path: self.folder_path@,
            method: self.method@,
            url: self.url@,
            query_params: text::views(self.query_params@),
            headers: text::views(self.headers@),
            body_mode: self.body_mode@,
            body: self.body@,
            scripts: text::views(self.scripts@),
        }
    }
}

impl Clone for Endpoint {
    fn clone(&self) -> (r: Self)
        ensures
            r@ == self@,
    {
        Endpoint {
            id: self.id.clone(),
            source_request_id: self.source_request_id.clone(),
            source_collection_id: self.source_collection_id.clone(),
            source_folder_id: self.source_folder_id.clone(),
            name: self.name.clone(),
            collection: self.collection.clone(),
            folder_path: self.folder_path.clone(),
            method: self.method.clone(),
            url: self.url.clone(),
            query_params: clone_pairs(&self.query_params),
            headers: clone_pairs(&self.headers),
            body_mode: self.body_mode.clone(),
            body: self.body.clone(),
            scripts: clone_scripts(&self.scripts),
        }
    }
}

/// A bare request in the collection `General`: no headers, no body, no scripts.
pub open spec fn bare_endpoint(
    id: Seq<char>,
    name: Seq<char>,
    method: Seq<char>,
    url: Seq<char>,
) -> EndpointView {
    EndpointView {
        id,
        source_request_id: Seq::empty(),
        source_collection_id: Seq::empty(),
        source_folder_id: Seq::empty(),
        name,
        collection: "General"@,
        folder_path: Seq::empty(),
        method,
        url,
        query_params: Seq::empty(),
        headers: Seq::empty(),
        body_mode: "none"@,
        body: Seq::empty(),
        scripts: Seq::empty(),
    }
}

impl Endpoint {
    pub fn with_defaults(id: String, name: &str, method: &str, url: &str) -> (r: Self)
        ensures
            r@ == bare_endpoint(id@, name@, method@, url@),
    {
        let query_params: Vec<KeyValue> = Vec::new();
        let headers: Vec<KeyValue> = Vec::new();
        let scripts: Vec<ResponseScript> = Vec::new();
        assert(text::views(query_params@) =~= Seq::empty());
        assert(text::views(headers@) =~= Seq::empty());
        assert(text::views(scripts@) =~= Seq::empty());
        Endpoint {
            id,
            source_request_id: String::new(),
            source_collection_id: String::new(),
            source_folder_id: String::new(),
            name: name.to_owned(),
            collection: "General".to_owned(),
            folder_path: String::new(),
            method: method.to_owned(),
            url: url.to_owned(),
            query_params,
            headers,
            body_mode: "none".to_owned(),
            body: String::new(),
            scripts,
        }
    }
}

pub fn clone_endpoints(endpoints: &Vec<Endpoint>) -> (r: Vec<Endpoint>)
    ensures
        text::views(r@) == text::views(endpoints@),
{
    let r = endpoints.clone();
    assert forall|i: int| 0 <= i < endpoints@.len() implies #[trigger] r@[i]@
        == endpoints@[i]@ by {
        assert(cloned::<Endpoint>(endpoints@[i], r@[i]));
    }
    assert(text::views(r@) =~= text::views(endpoints@));
    r
}

/// The body mode of a stored request that names none.
pub fn default_endpoint_body_mode() -> (r: String)
    ensures
        r@ == "raw"@,
{
    "raw".to_owned()
}

/// An entry of the list of environments.
#[derive(Debug, PartialEq, Eq)]
pub struct EnvironmentIndexEntry {
    pub id: String,
    pub name: String,
    pub file_name: String,
}

#[verifier::ext_equal]
pub struct EnvironmentIndexView {
    pub id: Seq<char>,
    pub name: Seq<char>,
    pub file_name: Seq<char>,
}

impl View for EnvironmentIndexEntry {
    type V = EnvironmentIndexView;

    open spec fn view(&self) -> EnvironmentIndexView {
        EnvironmentIndexView { id: self.id@, name: self.name@, file_name: self.file_name@ }
    }
}

/// A named set of variables.
#[derive(Debug, PartialEq, Eq)]
pub struct Environment {
    pub id: String,
    pub name: String,
    pub file_name: String,
    pub variables: Vec<KeyValue>,
}

#[verifier::ext_equal]
pub struct EnvironmentView {
    pub id: Seq<char>,
    pub name: Seq<char>,
    pub file_name: Seq<char>,
    pub variables: Seq<(Seq<char>, Seq<char>)>,
}

impl View for Environment {
    type V = EnvironmentView;

    open spec fn view(&self) -> EnvironmentView {
        EnvironmentView {
            id: self.id@,
            name: self.name@,
            file_name: self.file_name@,
            variables: text::views(self.variables@),
        }
    }
}

impl Clone for Environment {
    fn clone(&self) -> (r: Self)
        ensures
            r@ == self@,
    {
        Environment {
            id: self.id.clone(),
            name: self.name.clone(),
            file_name: self.file_name.clone(),
            variables: clone_pairs(&self.variables),
        }
    }
}

/// An environment as it travels in a shared bundle.
#[derive(Debug, PartialEq, Eq)]
pub struct SharedEnvironment {
    pub name: String,
    pub variables: Vec<KeyValue>,
}

#[verifier::ext_equal]
pub struct SharedEnvironmentView {
    pub name: Seq<char>,
    pub variables: Seq<(Seq<char>, Seq<char>)>,
}

impl View for SharedEnvironment {
    type V = SharedEnvironmentView;

    open spec fn view(&self) -> SharedEnvironmentView {
        SharedEnvironmentView { name: self.name@, variables: text::views(self.variables@) }
    }
}

/// The contents of a shared bundle.
#[derive(Debug, PartialEq, Eq)]
pub struct SharedWorkspacePayload {
    pub version: u8,
    pub endpoints: Vec<Endpoint>,
    pub environments: Vec<SharedEnvironment>,
}

#[verifier::ext_equal]
pub struct SharedWorkspacePayloadView {
    pub version: u8,
    pub endpoints: Seq<EndpointView>,
    pub environments: Seq<SharedEnvironmentView>,
}

impl View for SharedWorkspacePayload {
    type V = SharedWorkspacePayloadView;

    open spec fn view(&self) -> SharedWorkspacePayloadView {
        SharedWorkspacePayloadView {
            version: self.version,
            endpoints: text::views(self.endpoints@),
            environments: text::views(self.environments@),
        }
    }
}

/// Bytes under authenticated encryption.
#[derive(Debug, PartialEq, Eq)]
pub struct EncryptedBlob {
    pub version: u8,
    pub nonce_b64: String,
    pub ciphertext_b64: String,
}

/// What is stored to check the workspace password.
#[derive(Debug, PartialEq, Eq)]
pub struct SecurityMetadata {
    pub version: u8,
    pub salt_b64: String,
    pub verifier: EncryptedBlob,
}

/// A shared bundle as it is written to a file.
#[derive(Debug, PartialEq, Eq)]
pub struct SharedWorkspaceBundleFile {
    pub version: u8,
    pub salt_b64: String,
    pub encrypted: EncryptedBlob,
}

/// The settings of the application.
#[derive(Debug, PartialEq, Eq)]
pub struct AppConfig {
    pub selected_endpoint_id: Option<String>,
    pub selected_environment_id: Option<String>,
    pub postman_preseed_done: bool,
    pub window_width: Option<u32>,
    pub window_height: Option<u32>,
    /// How long a session lasts after an unlock: `None` asks for the password every time,
    /// `Some(0)` lasts forever, `Some(n)` lasts for `n` days.
    pub session_duration_days: Option<u32>,
    /// The Unix time at which the session ends: `None` without a session, `Some(u64::MAX)` where
    /// it never ends.
    pub session_expires_at: Option<u64>,
}

#[verifier::ext_equal]
pub struct AppConfigView {
    pub selected_endpoint_id: Option<Seq<char>>,
    pub selected_environment_id: Option<Seq<char>>,
    pub postman_preseed_done: bool,
    pub window_width: Option<u32>,
    pub window_height: Option<u32>,
    pub session_duration_days: Option<u32>,
    pub session_expires_at: Option<u64>,
}

impl View for AppConfig {
    type V = AppConfigView;

    open spec fn view(&self) -> AppConfigView {
        AppConfigView {
            selected_endpoint_id: text::opt(self.selected_endpoint_id),
            selected_environment_id: text::opt(self.selected_environment_id),
            postman_preseed_done: self.postman_preseed_done,
            window_width: self.window_width,
            window_height: self.window_height,
            session_duration_days: self.session_duration_days,
            session_expires_at: self.session_expires_at,
        }
    }
}

impl Default for AppConfig {
    fn default() -> (r: Self)
        ensures
            r@ == (AppConfigView {
                selected_endpoint_id: None,
                selected_environment_id: None,
                postman_preseed_done: false,
                window_width: None,
                window_height: None,
                session_duration_days: None,
                session_expires_at: None,
            }),
    {
        AppConfig {
            selected_endpoint_id: None,
            selected_environment_id: None,
            postman_preseed_done: false,
            window_width: None,
            window_height: None,
            session_duration_days: None,
            session_expires_at: None,
        }
    }
}

/// What is shown of the last response of a tab.
#[derive(Debug, PartialEq, Eq)]
pub struct ResponseState {
    pub status_code: Option<u16>,
    pub status_text: String,
    pub duration_ms: Option<u128>,
    pub headers: Vec<KeyValue>,
    pub body: String,
    pub error: Option<String>,
}

#[verifier::ext_equal]
pub struct ResponseView {
    pub status_code: Option<u16>,
    pub status_text: Seq<char>,
    pub duration_ms: Option<u128>,
    pub headers: Seq<(Seq<char>, Seq<char>)>,
    pub body: Seq<char>,
    pub error: Option<Seq<char>>,
}

/// A response of which nothing is known but a status line.
pub open spec fn blank_response(status_text: Seq<char>) -> ResponseView {
    ResponseView {
        status_code: None,
        status_text,
        duration_ms: None,
        headers: Seq::empty(),
        body: Seq::empty(),
        error: None,
    }
}

impl View for ResponseState {
    type V = ResponseView;

    open spec fn view(&self) -> ResponseView {
        ResponseView {
            status_code: self.status_code,
            status_text: self.status_text@,
            duration_ms: self.duration_ms,
            headers: text::views(self.headers@),
            body: self.body@,
            error: text::opt(self.error),
        }
    }
}

impl Default for ResponseState {
    fn default() -> (r: Self)
        ensures
            r@ == blank_response(Seq::empty()),
    {
        let headers: Vec<KeyValue> = Vec::new();
        assert(text::views(headers@) =~= Seq::empty());
        ResponseState {
            status_code: None,
            status_text: String::new(),
            duration_ms: None,
            headers,
            body: String::new(),
            error: None,
        }
    }
}

impl Clone for ResponseState {
    fn clone(&self) -> (r: Self)
        ensures
            r@ == self@,
    {
        let error = match &self.error {
            Some(message) => Some(message.clone()),
            None => None,
        };
        ResponseState {
            status_code: self.status_code,
            status_text: self.status_text.clone(),
            duration_ms: self.duration_ms,
            headers: clone_pairs(&self.headers),
            body: self.body.clone(),
            error,
        }
    }
}

impl ResponseState {
    /// Forgets the last response while the next one is awaited.
    pub fn clear_for_request(&mut self)
        ensures
            final(self)@ == blank_response("Sending request..."@),
    {
        self.status_code = None;
        self.status_text = "Sending request...".to_owned();
        self.duration_ms = None;
        self.headers.clear();
        self.body = String::new();
        self.error = None;
        assert(text::views(self.headers@) =~= Seq::empty());
    }
}

/// The part of a request that is edited in a tab.
#[derive(Clone, Copy, Debug, PartialEq, Eq, Structural)]
pub enum RequestEditorTab {
    Params,
    Headers,
    Body,
    Scripts,
}

/// The way in which a response is shown in a tab.
#[derive(Clone, Copy, Debug, PartialEq, Eq, Structural)]
pub enum ResponseViewTab {
    Raw,
    Pretty,
}

/// What is kept of a tab.
#[derive(Debug, PartialEq, Eq)]
pub struct PersistedRequestTab {
    pub id: String,
    /// The saved endpoint that the tab shows; `None` for one that was never saved.
    pub saved_endpoint_id: Option<String>,
    pub draft: Endpoint,
    pub is_dirty: bool,
    pub editor_tab: RequestEditorTab,
    pub response_view_tab: ResponseViewTab,
    pub response: ResponseState,
    pub scripts_ran: usize,
}

#[verifier::ext_equal]
pub struct PersistedTabView {
    pub id: Seq<char>,
    pub saved_endpoint_id: Option<Seq<char>>,
    pub draft: EndpointView,
    pub is_dirty: bool,
    pub editor_tab: RequestEditorTab,
    pub response_view_tab: ResponseViewTab,
    pub response: ResponseView,
    pub scripts_ran: usize,
}

impl View for PersistedRequestTab {
    type V = PersistedTabView;

    open spec fn view(&self) -> PersistedTabView {
        PersistedTabView {
            id: self.id@,
            saved_endpoint_id: text::opt(self.saved_endpoint_id),
            draft: self.draft@,
            is_dirty: self.is_dirty,
            editor_tab: self.editor_tab,
            response_view_tab: self.response_view_tab,
            response: self.response@,
            scripts_ran: self.scripts_ran,
        }
    }
}

/// What is kept of the open tabs.
#[derive(Debug, PartialEq, Eq)]
pub struct WorkspaceUiState {
    pub active_tab_id: Option<String>,
    pub open_tabs: Vec<PersistedRequestTab>,
}

#[verifier::ext_equal]
pub struct WorkspaceUiView {
    pub active_tab_id: Option<Seq<char>>,
    pub open_tabs: Seq<PersistedTabView>,
}

impl View for WorkspaceUiState {
    type V = WorkspaceUiView;

    open spec fn view(&self) -> WorkspaceUiView {
        WorkspaceUiView {
            active_tab_id: text::opt(self.active_tab_id),
            open_tabs: text::views(self.open_tabs@),
        }
    }
}

/// The HTTP methods on offer.
pub fn method_options() -> (r: Vec<&'static str>)
    ensures
        r@.len() == 9,
        r@[0]@ == "GET"@,
        r@[1]@ == "POST"@,
        r@[2]@ == "PUT"@,
        r@[3]@ == "PATCH"@,
        r@[4]@ == "DELETE"@,
        r@[5]@ == "HEAD"@,
        r@[6]@ == "OPTIONS"@,
        r@[7]@ == "TRACE"@,
        r@[8]@ == "CONNECT"@,
{
    vec!["GET", "POST", "PUT", "PATCH", "DELETE", "HEAD", "OPTIONS", "TRACE", "CONNECT"]
}

} // verus!
