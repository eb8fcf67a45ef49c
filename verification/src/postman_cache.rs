//! Requests, environments, collections and folders in cached Postman models.
use crate::defaults;
use crate::defaults::create_id;
use crate::folders;
use crate::folders::{workspace_id_from_model_path, FolderView, ImportedFolderMeta};
use crate::json;
use crate::json::{get, get_bool, get_content, get_record, get_text, Json, JsonTree};
use crate::models::{Endpoint, EndpointView, KeyValue};
use crate::placeholders;
use crate::placeholders::normalize_postman_placeholders;
use crate::postman;
use crate::postman::{
    get_value_text, import_method, request_body_from_data, request_body_mode_from_data,
    request_headers_from_data, request_url_from_data, text_or, text_or_empty, Fields, Pairs,
};
use crate::postman_export;
use crate::postman_export::{
    endpoint_from_postman_request, postman_request_from_json, ImportedEnvironment,
    ImportedEnvironmentView,
};
use crate::request_body;
use crate::table::{TextMap, TextSet};
use crate::text;
use crate::text::{blank, concat2, non_empty_trimmed, same_text, trimmed};
use vstd::prelude::*;

verus! {

/// Which workspaces and collections are imported; an empty set lets everything through.
pub struct WorkspaceImportContext {
    pub workspace_ids: TextSet,
    pub collection_ids: TextSet,
}

#[verifier::ext_equal]
pub struct ContextView {
    pub workspace_ids: Set<Seq<char>>,
    pub collection_ids: Set<Seq<char>>,
}

impl View for WorkspaceImportContext {
    type V = ContextView;

    open spec fn view(&self) -> ContextView {
        ContextView { workspace_ids: self.workspace_ids@, collection_ids: self.collection_ids@ }
    }
}

impl Default for WorkspaceImportContext {
    fn default() -> (r: Self)
        ensures
            r@ == (ContextView { workspace_ids: Set::empty(), collection_ids: Set::empty() }),
    {
        WorkspaceImportContext { workspace_ids: TextSet::new(), collection_ids: TextSet::new() }
    }
}

/// What a scan has found.
pub struct ImportScanResult {
    pub files_scanned: usize,
    pub endpoints: Vec<Endpoint>,
    pub environments: Vec<ImportedEnvironment>,
    pub collection_names_by_id: TextMap<String>,
    pub folders_by_id: TextMap<ImportedFolderMeta>,
}

#[verifier::ext_equal]
pub struct ScanView {
    pub files_scanned: usize,
    pub endpoints: Seq<EndpointView>,
    pub environments: Seq<ImportedEnvironmentView>,
    pub collection_names_by_id: Map<Seq<char>, Seq<char>>,
    pub folders_by_id: Map<Seq<char>, FolderView>,
}

impl View for ImportScanResult {
    type V = ScanView;

    open spec fn view(&self) -> ScanView {
        ScanView {
            files_scanned: self.files_scanned,
            endpoints: text::views(self.endpoints@),
            environments: text::views(self.environments@),
            collection_names_by_id: self.collection_names_by_id@,
            folders_by_id: self.folders_by_id@,
        }
    }
}

/// A scan that has found nothing.
pub open spec fn empty_scan() -> ScanView {
    ScanView {
        files_scanned: 0,
        endpoints: Seq::empty(),
        environments: Seq::empty(),
        collection_names_by_id: Map::empty(),
        folders_by_id: Map::empty(),
    }
}

impl Default for ImportScanResult {
    fn default() -> (r: Self)
        ensures
            r@ == empty_scan(),
    {
        let endpoints: Vec<Endpoint> = Vec::new();
        let environments: Vec<ImportedEnvironment> = Vec::new();
        assert(text::views(endpoints@) =~= Seq::empty());
        assert(text::views(environments@) =~= Seq::empty());
        ImportScanResult {
            files_scanned: 0,
            endpoints,
            environments,
            collection_names_by_id: TextMap::new(),
            folders_by_id: TextMap::new(),
        }
    }
}

// ---------------------------------------------------------------------------
// Models
// ---------------------------------------------------------------------------

/// The model that an object holds.
pub open spec fn model_name(object: Fields) -> Option<Seq<char>> {
    match json::field(object, "meta"@) {
        Some(JsonTree::Record(meta)) => json::text_field(meta, "model"@),
        _ => None,
    }
}

fn get_model_name<'a>(object: &'a Vec<(String, Json)>) -> (r: Option<&'a String>)
    ensures
        match r {
            Some(name) => model_name(text::views(object@)) == Some(name@),
            None => model_name(text::views(object@)) is None,
        },
{
    match get_record(object, "meta") {
        Some(meta) => get_text(meta, "model"),
        None => None,
    }
}

/// The data of an object that holds the model; surrounding white space of its name does not
/// count where `loosely` is said.
pub open spec fn model_data(object: Fields, name: Seq<char>, loosely: bool) -> Option<Fields> {
    match model_name(object) {
        Some(model) => if model == name || loosely && text::trim(model) == name {
            json::record_field(object, "data"@)
        } else {
            None
        },
        None => None,
    }
}

fn get_model_data<'a>(object: &'a Vec<(String, Json)>, name: &str, loosely: bool) -> (r: Option<
    &'a Vec<(String, Json)>,
>)
    ensures
        match r {
            Some(data) => model_data(text::views(object@), name@, loosely) == Some(
                text::views(data@),
            ),
            None => model_data(text::views(object@), name@, loosely) is None,
        },
{
    match get_model_name(object) {
        Some(model) => if same_text(model.as_str(), name) || loosely && same_text(
            trimmed(model.as_str()).as_str(),
            name,
        ) {
            get_record(object, "data")
        } else {
            None
        },
        None => None,
    }
}

/// The collection that an object names, with its id.
pub open spec fn collection_reference(object: Fields) -> Option<(Seq<char>, Seq<char>)> {
    match model_data(object, "collection"@, true) {
        Some(data) => match (
            json::content_field(data, "id"@),
            json::content_field(data, "name"@),
        ) {
            (Some(id), Some(name)) => Some((id, name)),
            _ => None,
        },
        None => None,
    }
}

pub fn collection_reference_from_cache_object(object: &Vec<(String, Json)>) -> (r: Option<
    (String, String),
>)
    ensures
        match r {
            Some(found) => collection_reference(text::views(object@)) == Some(
                (found.0@, found.1@),
            ),
            None => collection_reference(text::views(object@)) is None,
        },
{
    match get_model_data(object, "collection", true) {
        Some(data) => match (get_content(data, "id"), get_content(data, "name")) {
            (Some(id), Some(name)) => Some((id, name)),
            _ => None,
        },
        None => None,
    }
}

/// The id of a folder: a text, or the id in a record.
pub open spec fn folder_id(value: Option<JsonTree>) -> Option<Seq<char>> {
    match value {
        Some(JsonTree::Text(id)) => text::trimmed_content(id),
        Some(JsonTree::Record(folder)) => json::content_field(folder, "id"@),
        _ => None,
    }
}

pub fn folder_id_from_value(value: Option<&Json>) -> (r: Option<String>)
    ensures
        text::opt(r) == folder_id(postman_export::tree_of(value)),
{
    match value {
        Some(value) => {
            proof {
                json::lemma_tree(*value);
            }
            match value {
                Json::Text(id) => non_empty_trimmed(id.as_str()),
                Json::Record(folder) => get_content(folder, "id"),
                _ => None,
            }
        },
        None => None,
    }
}

/// The folder that an object describes, with its id.
pub open spec fn folder_reference(object: Fields) -> Option<(Seq<char>, FolderView)> {
    match model_data(object, "folder"@, true) {
        Some(data) => match (
            json::content_field(data, "id"@),
            json::content_field(data, "name"@),
        ) {
            (Some(id), Some(name)) => Some(
                (
                    id,
                    FolderView {
                        name,
                        parent_folder_id: folder_id(json::field(data, "folder"@)),
                    },
                ),
            ),
            _ => None,
        },
        None => None,
    }
}

pub fn folder_reference_from_cache_object(object: &Vec<(String, Json)>) -> (r: Option<
    (String, ImportedFolderMeta),
>)
    ensures
        match r {
            Some(found) => folder_reference(text::views(object@)) == Some((found.0@, found.1@)),
            None => folder_reference(text::views(object@)) is None,
        },
{
    match get_model_data(object, "folder", true) {
        Some(data) => match (get_content(data, "id"), get_content(data, "name")) {
            (Some(id), Some(name)) => {
                let parent_folder_id = folder_id_from_value(get(data, "folder"));
                Some((id, ImportedFolderMeta { name, parent_folder_id }))
            },
            _ => None,
        },
        None => None,
    }
}

/// The id of the collection of a request.
pub open spec fn data_collection_id(data: Fields) -> Option<Seq<char>> {
    match json::field(data, "collection"@) {
        Some(JsonTree::Text(id)) => Some(id),
        Some(JsonTree::Record(collection)) => json::text_field(collection, "id"@),
        _ => None,
    }
}

pub fn collection_id_from_request_data(data: &Vec<(String, Json)>) -> (r: Option<String>)
    ensures
        text::opt(r) == data_collection_id(text::views(data@)),
{
    match get(data, "collection") {
        Some(value) => {
            proof {
                json::lemma_tree(*value);
            }
            match value {
                Json::Text(id) => Some(id.clone()),
                Json::Record(collection) => match get_text(collection, "id") {
                    Some(id) => Some(id.clone()),
                    None => None,
                },
                _ => None,
            }
        },
        None => None,
    }
}

/// The name in a record in a field.
pub open spec fn inner_name(object: Fields, key: Seq<char>) -> Option<Seq<char>> {
    match json::record_field(object, key) {
        Some(inner) => json::content_field(inner, "name"@),
        None => None,
    }
}

fn get_inner_name(object: &Vec<(String, Json)>, key: &str) -> (r: Option<String>)
    ensures
        text::opt(r) == inner_name(text::views(object@), key@),
{
    match get_record(object, key) {
        Some(inner) => get_content(inner, "name"),
        None => None,
    }
}

/// The name of the collection of a request.
pub open spec fn data_collection_name(data: Fields) -> Seq<char> {
    postman::or_else(inner_name(data, "collection"@), "General"@)
}

pub fn collection_name_from_request_data(data: &Vec<(String, Json)>) -> (r: String)
    ensures
        r@ == data_collection_name(text::views(data@)),
{
    text_or(get_inner_name(data, "collection"), "General")
}

/// How far out the folders around a request are followed.
pub const NESTED_FOLDERS: u32 = 16;

/// The names of a folder and of those around it, the outermost first, at most `depth` of them.
pub open spec fn nested_names(folder: Fields, depth: nat) -> Seq<Seq<char>>
    decreases depth,
{
    if depth == 0 {
        Seq::empty()
    } else {
        (match json::record_field(folder, "folder"@) {
            Some(outer) => nested_names(outer, (depth - 1) as nat),
            None => Seq::empty(),
        }) + (match json::content_field(folder, "name"@) {
            Some(name) => seq![name],
            None => Seq::empty(),
        })
    }
}

/// The path of the folder of a request.
pub open spec fn data_folder_path(data: Fields) -> Seq<char> {
    match json::record_field(data, "folder"@) {
        Some(folder) => text::join(nested_names(folder, NESTED_FOLDERS as nat), " / "@),
        None => Seq::empty(),
    }
}

fn collect_nested_names(folder: &Vec<(String, Json)>, depth: u32) -> (names: Vec<String>)
    ensures
        text::views(names@) == nested_names(text::views(folder@), depth as nat),
    decreases depth,
{
    let mut names: Vec<String> = Vec::new();
    assert(text::views(names@) =~= Seq::empty());
    if depth == 0 {
        return names;
    }
    if let Some(outer) = get_record(folder, "folder") {
        names = collect_nested_names(outer, depth - 1);
    }
    let ghost around = text::views(names@);
    assert(around + Seq::<Seq<char>>::empty() =~= around);
    if let Some(name) = get_content(folder, "name") {
        proof {
            text::lemma_views_push(names@, name);
            assert(around + seq![name@] =~= around.push(name@));
        }
        names.push(name);
    }
    names
}

pub fn request_folder_path_from_data(data: &Vec<(String, Json)>) -> (r: String)
    ensures
        r@ == data_folder_path(text::views(data@)),
{
    match get_record(data, "folder") {
        Some(folder) => text::joined(&collect_nested_names(folder, NESTED_FOLDERS), " / "),
        None => String::new(),
    }
}

pub fn request_folder_id_from_data(data: &Vec<(String, Json)>) -> (r: String)
    ensures
        r@ == postman::or_empty(folder_id(json::field(text::views(data@), "folder"@))),
{
    text_or_empty(folder_id_from_value(get(data, "folder")))
}

/// The id of a request at its source: that of the model, else that of its data.
pub open spec fn source_id(object: Fields, data: Fields) -> Seq<char> {
    let own = match postman::either_text(object, "model_id"@, "id"@) {
        Some(id) => text::trimmed_content(id),
        None => None,
    };
    match own {
        Some(id) => id,
        None => postman::or_empty(json::content_field(data, "id"@)),
    }
}

pub fn request_source_id_from_cache_object(
    object: &Vec<(String, Json)>,
    data: &Vec<(String, Json)>,
) -> (r: String)
    ensures
        r@ == source_id(text::views(object@), text::views(data@)),
{
    let own = match postman::get_either_text(object, "model_id", "id") {
        Some(id) => non_empty_trimmed(id.as_str()),
        None => None,
    };
    match own {
        Some(id) => id,
        None => text_or_empty(get_content(data, "id")),
    }
}

/// Whether requests of the collection are imported.
pub open spec fn lets_through(context: ContextView, collection_id: Option<Seq<char>>) -> bool {
    context.collection_ids == Set::<Seq<char>>::empty() || match collection_id {
        Some(id) => context.collection_ids.contains(id),
        None => true,
    }
}

fn is_let_through(import_context: &WorkspaceImportContext, collection_id: &Option<String>) -> (r:
    bool)
    ensures
        r == lets_through(import_context@, text::opt(*collection_id)),
{
    if import_context.collection_ids.is_empty() {
        return true;
    }
    match collection_id {
        Some(id) => import_context.collection_ids.contains(id.as_str()),
        None => true,
    }
}

/// The endpoint that the data of a request make, but for its id; none where the URL is blank.
pub open spec fn data_endpoint(
    data: Fields,
    request_id: Seq<char>,
    collection_id: Seq<char>,
    collection: Seq<char>,
    folder_path: Seq<char>,
) -> Option<EndpointView> {
    match postman::data_url(data) {
        Some(url) => if text::is_blank(url) {
            None
        } else {
            Some(
                EndpointView {
                    id: Seq::empty(),
                    source_request_id: request_id,
                    source_collection_id: collection_id,
                    source_folder_id: postman::or_empty(folder_id(json::field(data, "folder"@))),
                    name: postman::or_else(
                        json::content_field(data, "name"@),
                        "Imported Request"@,
                    ),
                    collection,
                    folder_path,
                    method: postman::imported_method(json::text_field(data, "method"@)),
                    url: placeholders::normalized(url),
                    query_params: Seq::empty(),
                    headers: postman::data_headers(data),
                    body_mode: postman::data_body_mode(data),
                    body: postman::data_body(data),
                    scripts: Seq::empty(),
                },
            )
        },
        None => None,
    }
}

fn endpoint_from_data(
    data: &Vec<(String, Json)>,
    request_id: String,
    collection_id: String,
    collection: String,
    folder_path: String,
) -> (r: Option<Endpoint>)
    ensures
        match r {
            Some(endpoint) => data_endpoint(
                text::views(data@),
                request_id@,
                collection_id@,
                collection@,
                folder_path@,
            ) == Some(postman::anonymous(endpoint@)) && defaults::is_id(endpoint@.id, "ep"@),
            None => data_endpoint(
                text::views(data@),
                request_id@,
                collection_id@,
                collection@,
                folder_path@,
            ) is None,
        },
{
    match request_url_from_data(data) {
        Some(url) => {
            if blank(url.as_str()) {
                return None;
            }
            let name = text_or(get_content(data, "name"), "Imported Request");
            let mut endpoint = Endpoint::with_defaults(
                create_id("ep"),
                name.as_str(),
                import_method(get_text(data, "method")).as_str(),
                normalize_postman_placeholders(url.as_str()).as_str(),
            );
            endpoint.source_request_id = request_id;
            endpoint.source_collection_id = collection_id;
            endpoint.source_folder_id = request_folder_id_from_data(data);
            endpoint.collection = collection;
            endpoint.folder_path = folder_path;
            endpoint.headers = request_headers_from_data(data);
            endpoint.body_mode = request_body_mode_from_data(data);
            endpoint.body = request_body_from_data(data);
            Some(endpoint)
        },
        None => None,
    }
}

/// The endpoint of an object that holds a request model, but for its id.
pub open spec fn cached_endpoint(object: Fields, context: ContextView) -> Option<EndpointView> {
    match model_data(object, "request"@, false) {
        Some(data) => if lets_through(context, data_collection_id(data)) {
            data_endpoint(
                data,
                source_id(object, data),
                postman::or_empty(data_collection_id(data)),
                data_collection_name(data),
                data_folder_path(data),
            )
        } else {
            None
        },
        None => None,
    }
}

pub fn endpoint_from_cache_object(
    object: &Vec<(String, Json)>,
    import_context: &WorkspaceImportContext,
) -> (r: Option<Endpoint>)
    ensures
        match r {
            Some(endpoint) => cached_endpoint(text::views(object@), import_context@) == Some(
                postman::anonymous(endpoint@),
            ) && defaults::is_id(endpoint@.id, "ep"@),
            None => cached_endpoint(text::views(object@), import_context@) is None,
        },
{
    match get_model_data(object, "request", false) {
        Some(data) => {
            let collection_id = collection_id_from_request_data(data);
            if !is_let_through(import_context, &collection_id) {
                return None;
            }
            endpoint_from_data(
                data,
                request_source_id_from_cache_object(object, data),
                text_or_empty(collection_id),
                collection_name_from_request_data(data),
                request_folder_path_from_data(data),
            )
        },
        None => None,
    }
}

// ---------------------------------------------------------------------------
// Requester resources
// ---------------------------------------------------------------------------

/// The name of the collection of a requester resource.
pub open spec fn resource_collection_name(object: Fields) -> Seq<char> {
    let parent = match json::record_field(object, "_permissions"@) {
        Some(permissions) => json::record_field(permissions, "parentCollection"@),
        None => None,
    };
    match inner_name(object, "collection"@) {
        Some(name) => name,
        None => match parent {
            Some(parent) => match inner_name(parent, "cache"@) {
                Some(name) => name,
                None => postman::or_else(json::content_field(parent, "name"@), "General"@),
            },
            None => "General"@,
        },
    }
}

pub fn collection_name_from_requester_resource(object: &Vec<(String, Json)>) -> (r: String)
    ensures
        r@ == resource_collection_name(text::views(object@)),
{
    if let Some(name) = get_inner_name(object, "collection") {
        return name;
    }
    let parent = match get_record(object, "_permissions") {
        Some(permissions) => get_record(permissions, "parentCollection"),
        None => None,
    };
    match parent {
        Some(parent) => match get_inner_name(parent, "cache") {
            Some(name) => name,
            None => text_or(get_content(parent, "name"), "General"),
        },
        None => "General".to_owned(),
    }
}

pub fn requester_folder_path_from_object(object: &Vec<(String, Json)>) -> (r: String)
    ensures
        r@ == postman::or_empty(inner_name(text::views(object@), "folder"@)),
{
    text_or_empty(get_inner_name(object, "folder"))
}

/// The id of the collection of a requester resource.
pub open spec fn resource_collection_id(object: Fields) -> Option<Seq<char>> {
    match json::text_field(object, "_collectionId"@) {
        Some(id) => Some(id),
        None => json::text_field(object, "collection"@),
    }
}

/// Whether an object is a request resource.
pub open spec fn is_request_resource(object: Fields) -> bool {
    match json::text_field(object, "type"@) {
        Some(kind) => text::trim(kind) == "request"@,
        None => false,
    }
}

/// The endpoint of a requester resource, but for its id.
pub open spec fn resource_endpoint(object: Fields, context: ContextView) -> Option<EndpointView> {
    if is_request_resource(object) && lets_through(context, resource_collection_id(object)) {
        data_endpoint(
            object,
            postman::or_empty(json::content_field(object, "id"@)),
            postman::or_empty(resource_collection_id(object)),
            resource_collection_name(object),
            postman::or_empty(inner_name(object, "folder"@)),
        )
    } else {
        None
    }
}

pub fn endpoint_from_requester_log_object(
    object: &Vec<(String, Json)>,
    import_context: &WorkspaceImportContext,
) -> (r: Option<Endpoint>)
    ensures
        match r {
            Some(endpoint) => resource_endpoint(text::views(object@), import_context@) == Some(
                postman::anonymous(endpoint@),
            ) && defaults::is_id(endpoint@.id, "ep"@),
            None => resource_endpoint(text::views(object@), import_context@) is None,
        },
{
    let is_request = match get_text(object, "type") {
        Some(kind) => same_text(trimmed(kind.as_str()).as_str(), "request"),
        None => false,
    };
    if !is_request {
        return None;
    }
    let collection_id = match get_text(object, "_collectionId") {
        Some(id) => Some(id.clone()),
        None => match get_text(object, "collection") {
            Some(id) => Some(id.clone()),
            None => None,
        },
    };
    if !is_let_through(import_context, &collection_id) {
        return None;
    }
    endpoint_from_data(
        object,
        text_or_empty(get_content(object, "id")),
        text_or_empty(collection_id),
        collection_name_from_requester_resource(object),
        requester_folder_path_from_object(object),
    )
}

// ---------------------------------------------------------------------------
// Collection items
// ---------------------------------------------------------------------------

/// The trimmed id of the collection of an item.
pub open spec fn item_collection_id(object: Fields) -> Seq<char> {
    match data_collection_id(object) {
        Some(id) => text::trim(id),
        None => Seq::empty(),
    }
}

/// The endpoint of an item of a collection, but for its id.
pub open spec fn listed_endpoint(object: Fields) -> Option<EndpointView> {
    match (json::content_field(object, "name"@), json::field(object, "request"@)) {
        (Some(name), Some(value)) => match postman_export::decoded_request(value) {
            Some(request) => match postman_export::exported_endpoint(
                name,
                request,
                data_collection_name(object),
                Seq::empty(),
            ) {
                Some(endpoint) => Some(
                    EndpointView {
                        source_collection_id: item_collection_id(object),
                        source_folder_id: postman::or_empty(
                            folder_id(json::field(object, "folder"@)),
                        ),
                        ..endpoint
                    },
                ),
                None => None,
            },
            None => None,
        },
        _ => None,
    }
}

pub fn endpoint_from_collection_item_object(object: &Vec<(String, Json)>) -> (r: Option<Endpoint>)
    ensures
        match r {
            Some(endpoint) => listed_endpoint(text::views(object@)) == Some(
                postman::anonymous(endpoint@),
            ) && defaults::is_id(endpoint@.id, "ep"@),
            None => listed_endpoint(text::views(object@)) is None,
        },
{
    match (get_content(object, "name"), get(object, "request")) {
        (Some(name), Some(value)) => match postman_request_from_json(value) {
            Some(request) => {
                let collection_name = collection_name_from_request_data(object);
                match endpoint_from_postman_request(
                    name.as_str(),
                    &request,
                    collection_name.as_str(),
                    "",
                ) {
                    Some(mut endpoint) => {
                        endpoint.source_collection_id = match collection_id_from_request_data(
                            object,
                        ) {
                            Some(id) => trimmed(id.as_str()),
                            None => String::new(),
                        };
                        endpoint.source_folder_id = request_folder_id_from_data(object);
                        proof {
                            reveal_strlit("");
                            assert(""@ =~= Seq::<char>::empty());
                        }
                        Some(endpoint)
                    },
                    None => {
                        proof {
                            reveal_strlit("");
                            assert(""@ =~= Seq::<char>::empty());
                        }
                        None
                    },
                }
            },
            None => None,
        },
        _ => None,
    }
}

// ---------------------------------------------------------------------------
// Environments
// ---------------------------------------------------------------------------

/// The workspace of an environment: the one that it names, else the one in the path of its model.
pub open spec fn environment_workspace(object: Fields, data: Fields) -> Option<Seq<char>> {
    match json::text_field(data, "workspace"@) {
        Some(id) => Some(id),
        None => match json::text_field(object, "id"@) {
            Some(path) => folders::model_workspace(path),
            None => None,
        },
    }
}

/// Whether environments of the workspace are imported.
pub open spec fn admits(context: ContextView, workspace_id: Option<Seq<char>>) -> bool {
    context.workspace_ids == Set::<Seq<char>>::empty() || match workspace_id {
        Some(id) => context.workspace_ids.contains(id),
        None => false,
    }
}

/// The variable that an entry states: not one that is switched off or has no name.
pub open spec fn cached_variable(item: JsonTree) -> Option<(Seq<char>, Seq<char>)> {
    match json::as_record(item) {
        Some(entry) => match json::content_field(entry, "key"@) {
            Some(key) => if json::bool_field(entry, "enabled"@) == Some(false) {
                None
            } else {
                Some((key, placeholders::normalized(postman::value_text(entry, "value"@))))
            },
            None => None,
        },
        None => None,
    }
}

/// The variables that the entries state.
pub open spec fn cached_variables(items: Seq<JsonTree>) -> Pairs {
    items.filter_map(|item: JsonTree| cached_variable(item))
}

fn get_cached_variable(item: &Json) -> (r: Option<KeyValue>)
    ensures
        postman_export::view_of(r) == cached_variable(item@),
{
    match item.as_record() {
        Some(entry) => {
            let enabled = match get_bool(entry, "enabled") {
                Some(flag) => flag,
                None => true,
            };
            if !enabled {
                return None;
            }
            match get_content(entry, "key") {
                Some(key) => {
                    let value = get_value_text(entry, "value");
                    Some(
                        KeyValue { key, value: normalize_postman_placeholders(value.as_str()) },
                    )
                },
                None => None,
            }
        },
        None => None,
    }
}

fn get_cached_variables(items: &Vec<Json>) -> (r: Vec<KeyValue>)
    ensures
        text::views(r@) == cached_variables(text::views(items@)),
{
    let mut r: Vec<KeyValue> = Vec::new();
    let ghost all = text::views(items@);
    let ghost f = |item: JsonTree| cached_variable(item);
    let mut i: usize = 0;
    assert(text::views(r@) =~= all.take(0).filter_map(f));
    while i < items.len()
        invariant
            i <= items@.len(),
            all == text::views(items@),
            f == (|item: JsonTree| cached_variable(item)),
            text::views(r@) == all.take(i as int).filter_map(f),
        decreases items@.len() - i,
    {
        proof {
            all.lemma_filter_map_take_succ(f, i as int);
        }
        if let Some(variable) = get_cached_variable(&items[i]) {
            proof {
                text::lemma_views_push(r@, variable);
            }
            r.push(variable);
        }
        i += 1;
    }
    assert(all.take(all.len() as int) =~= all);
    r
}

/// The name of an environment: its own, else one made of the id of its model.
pub open spec fn environment_name(object: Fields, data: Fields) -> Seq<char> {
    match json::content_field(data, "name"@) {
        Some(name) => name,
        None => match json::text_field(object, "model_id"@) {
            Some(id) => "postman-"@ + id,
            None => "postman-environment"@,
        },
    }
}

/// The environment of an object that holds an environment model, where it has variables.
pub open spec fn cached_environment(object: Fields, context: ContextView) -> Option<
    ImportedEnvironmentView,
> {
    match model_data(object, "environment"@, false) {
        Some(data) => match json::field(data, "values"@) {
            Some(JsonTree::List(items)) => if admits(
                context,
                environment_workspace(object, data),
            ) && cached_variables(items).len() > 0 {
                Some(
                    ImportedEnvironmentView {
                        name: environment_name(object, data),
                        variables: cached_variables(items),
                    },
                )
            } else {
                None
            },
            _ => None,
        },
        None => None,
    }
}

fn is_admitted(
    import_context: &WorkspaceImportContext,
    object: &Vec<(String, Json)>,
    data: &Vec<(String, Json)>,
) -> (r: bool)
    ensures
        r == admits(
            import_context@,
            environment_workspace(text::views(object@), text::views(data@)),
        ),
{
    if import_context.workspace_ids.is_empty() {
        return true;
    }
    let workspace_id = match get_text(data, "workspace") {
        Some(id) => Some(id.clone()),
        None => match get_text(object, "id") {
            Some(path) => workspace_id_from_model_path(path.as_str()),
            None => None,
        },
    };
    match workspace_id {
        Some(id) => import_context.workspace_ids.contains(id.as_str()),
        None => false,
    }
}

pub fn environment_from_cache_object(
    object: &Vec<(String, Json)>,
    import_context: &WorkspaceImportContext,
) -> (r: Option<ImportedEnvironment>)
    ensures
        postman_export::view_of(r) == cached_environment(text::views(object@), import_context@),
{
    match get_model_data(object, "environment", false) {
        Some(data) => {
            if !is_admitted(import_context, object, data) {
                return None;
            }
            match get(data, "values") {
                Some(values) => {
                    proof {
                        json::lemma_tree(*values);
                    }
                    match values {
                        Json::List(items) => {
                            let variables = get_cached_variables(items);
                            if variables.len() == 0 {
                                return None;
                            }
                            let name = match get_content(data, "name") {
                                Some(name) => name,
                                None => match get_text(object, "model_id") {
                                    Some(id) => concat2("postman-", id.as_str()),
                                    None => "postman-environment".to_owned(),
                                },
                            };
                            Some(ImportedEnvironment { name, variables })
                        },
                        _ => None,
                    }
                },
                None => None,
            }
        },
        None => None,
    }
}

// ---------------------------------------------------------------------------
// Extraction
// ---------------------------------------------------------------------------

/// What was found, the endpoints without their ids.
#[verifier::ext_equal]
pub struct Found {
    pub endpoints: Seq<EndpointView>,
    pub environments: Seq<ImportedEnvironmentView>,
    pub collections: Map<Seq<char>, Seq<char>>,
    pub folders: Map<Seq<char>, FolderView>,
}

pub open spec fn nothing_found() -> Found {
    Found {
        endpoints: Seq::empty(),
        environments: Seq::empty(),
        collections: Map::empty(),
        folders: Map::empty(),
    }
}

/// What was found first, and what was found then.
pub open spec fn both(first: Found, second: Found) -> Found {
    Found {
        endpoints: first.endpoints + second.endpoints,
        environments: first.environments + second.environments,
        collections: first.collections.union_prefer_right(second.collections),
        folders: first.folders.union_prefer_right(second.folders),
    }
}

/// What an object itself states.
pub open spec fn found_in_object(object: Fields, context: ContextView) -> Found {
    let endpoint = match cached_endpoint(object, context) {
        Some(endpoint) => Some(endpoint),
        None => match resource_endpoint(object, context) {
            Some(endpoint) => Some(endpoint),
            None => listed_endpoint(object),
        },
    };
    Found {
        endpoints: match endpoint {
            Some(endpoint) => seq![endpoint],
            None => Seq::empty(),
        },
        environments: match cached_environment(object, context) {
            Some(environment) => seq![environment],
            None => Seq::empty(),
        },
        collections: match collection_reference(object) {
            Some((id, name)) => Map::empty().insert(id, name),
            None => Map::empty(),
        },
        folders: match folder_reference(object) {
            Some((id, folder)) => Map::empty().insert(id, folder),
            None => Map::empty(),
        },
    }
}

/// What a value states: each object in it, the outer ones first.
pub open spec fn found_in(value: JsonTree, context: ContextView) -> Found
    decreases value,
{
    match value {
        JsonTree::Record(fields) => both(
            found_in_object(fields, context),
            found_in_fields(fields, context),
        ),
        JsonTree::List(items) => found_in_items(items, context),
        _ => nothing_found(),
    }
}

/// What the values of the fields state.
pub open spec fn found_in_fields(fields: Fields, context: ContextView) -> Found
    decreases fields,
{
    if fields.len() == 0 {
        nothing_found()
    } else {
        both(
            found_in_fields(fields.drop_last(), context),
            found_in(fields.last().1, context),
        )
    }
}

/// What the items state.
pub open spec fn found_in_items(items: Seq<JsonTree>, context: ContextView) -> Found
    decreases items,
{
    if items.len() == 0 {
        nothing_found()
    } else {
        both(found_in_items(items.drop_last(), context), found_in(items.last(), context))
    }
}

/// Whether a scan was extended by what was found. Each endpoint has got a fresh id.
pub open spec fn extended(before: ScanView, after: ScanView, found: Found) -> bool {
    &&& after.files_scanned == before.files_scanned
    &&& postman_export::appended(before.endpoints, after.endpoints, found.endpoints)
    &&& after.environments == before.environments + found.environments
    &&& after.collection_names_by_id == before.collection_names_by_id.union_prefer_right(
        found.collections,
    )
    &&& after.folders_by_id == before.folders_by_id.union_prefer_right(found.folders)
}

pub proof fn lemma_extended_by_nothing(scan: ScanView)
    ensures
        extended(scan, scan, nothing_found()),
{
    postman_export::lemma_appended_none(scan.endpoints);
    let found = nothing_found();
    assert(scan.environments + found.environments =~= scan.environments);
    assert(scan.collection_names_by_id.union_prefer_right(found.collections)
        =~= scan.collection_names_by_id);
    assert(scan.folders_by_id.union_prefer_right(found.folders) =~= scan.folders_by_id);
}

pub proof fn lemma_extended_twice(
    first: ScanView,
    second: ScanView,
    third: ScanView,
    a: Found,
    b: Found,
)
    requires
        extended(first, second, a),
        extended(second, third, b),
    ensures
        extended(first, third, both(a, b)),
{
    postman_export::lemma_appended_twice(
        first.endpoints,
        second.endpoints,
        third.endpoints,
        a.endpoints,
        b.endpoints,
    );
    let found = both(a, b);
    assert(first.environments + found.environments =~= third.environments);
    assert(first.collection_names_by_id.union_prefer_right(found.collections)
        =~= third.collection_names_by_id);
    assert(first.folders_by_id.union_prefer_right(found.folders) =~= third.folders_by_id);
}

pub proof fn lemma_both_associative(a: Found, b: Found, c: Found)
    ensures
        both(both(a, b), c) == both(a, both(b, c)),
{
    assert(both(both(a, b), c) =~= both(a, both(b, c)));
}

fn endpoint_from_object(
    object: &Vec<(String, Json)>,
    import_context: &WorkspaceImportContext,
) -> (r: Option<Endpoint>)
    ensures
        match r {
            Some(endpoint) => found_in_object(text::views(object@), import_context@).endpoints
                == seq![postman::anonymous(endpoint@)] && defaults::is_id(endpoint@.id, "ep"@),
            None => found_in_object(text::views(object@), import_context@).endpoints
                == Seq::<EndpointView>::empty(),
        },
{
    if let Some(endpoint) = endpoint_from_cache_object(object, import_context) {
        return Some(endpoint);
    }
    if let Some(endpoint) = endpoint_from_requester_log_object(object, import_context) {
        return Some(endpoint);
    }
    endpoint_from_collection_item_object(object)
}

fn extract_from_object(
    object: &Vec<(String, Json)>,
    import_context: &WorkspaceImportContext,
    result: &mut ImportScanResult,
)
    ensures
        extended(
            old(result)@,
            final(result)@,
            found_in_object(text::views(object@), import_context@),
        ),
{
    let ghost before = result@;
    let ghost found = found_in_object(text::views(object@), import_context@);
    if let Some((id, name)) = collection_reference_from_cache_object(object) {
        result.collection_names_by_id.insert(id, name);
    }
    if let Some((id, folder)) = folder_reference_from_cache_object(object) {
        result.folders_by_id.insert(id, folder);
    }
    match endpoint_from_object(object, import_context) {
        Some(endpoint) => {
            proof {
                text::lemma_views_push(result.endpoints@, endpoint);
                postman_export::lemma_appended_one(
                    before.endpoints,
                    endpoint@,
                    postman::anonymous(endpoint@),
                );
            }
            result.endpoints.push(endpoint);
        },
        None => {
            proof {
                postman_export::lemma_appended_none(before.endpoints);
            }
        },
    }
    if let Some(environment) = environment_from_cache_object(object, import_context) {
        proof {
            text::lemma_views_push(result.environments@, environment);
        }
        result.environments.push(environment);
    }
    assert(result@.environments =~= before.environments + found.environments);
    assert(result@.collection_names_by_id =~= before.collection_names_by_id.union_prefer_right(
        found.collections,
    ));
    assert(result@.folders_by_id =~= before.folders_by_id.union_prefer_right(found.folders));
}

/// Takes over whatever a value states.
pub fn extract_import_entities_from_cache_json(
    value: &Json,
    import_context: &WorkspaceImportContext,
    result: &mut ImportScanResult,
)
    ensures
        extended(old(result)@, final(result)@, found_in(value@, import_context@)),
    decreases value,
{
    let ghost start = result@;
    let ghost context = import_context@;
    proof {
        json::lemma_tree(*value);
        lemma_extended_by_nothing(start);
    }
    match value {
        Json::Record(entries) => {
            let ghost fields = text::views(entries@);
            let ghost own = found_in_object(fields, context);
            extract_from_object(entries, import_context, result);
            let mut i: usize = 0;
            assert(both(own, nothing_found()) =~= own);
            while i < entries.len()
                invariant
                    *value == Json::Record(*entries),
                    fields == text::views(entries@),
                    context == import_context@,
                    i <= entries@.len(),
                    extended(
                        start,
                        result@,
                        both(own, found_in_fields(fields.take(i as int), context)),
                    ),
                decreases entries@.len() - i,
            {
                let ghost middle = result@;
                let ghost done = found_in_fields(fields.take(i as int), context);
                assert(decreases_to!(*value => value->Record_0));
                assert(decreases_to!(entries@ => entries@[i as int]));
                assert(decreases_to!(entries@[i as int] => entries@[i as int].1));
                extract_import_entities_from_cache_json(&entries[i].1, import_context, result);
                proof {
                    let child = found_in(entries@[i as int].1@, context);
                    assert(fields.take(i + 1).drop_last() =~= fields.take(i as int));
                    lemma_extended_twice(start, middle, result@, both(own, done), child);
                    lemma_both_associative(own, done, child);
                }
                i += 1;
            }
            assert(fields.take(fields.len() as int) =~= fields);
        },
        Json::List(items) => {
            let ghost trees = text::views(items@);
            let mut i: usize = 0;
            while i < items.len()
                invariant
                    *value == Json::List(*items),
                    trees == text::views(items@),
                    context == import_context@,
                    i <= items@.len(),
                    extended(start, result@, found_in_items(trees.take(i as int), context)),
                decreases items@.len() - i,
            {
                let ghost middle = result@;
                let ghost done = found_in_items(trees.take(i as int), context);
                assert(decreases_to!(*value => value->List_0));
                assert(decreases_to!(items@ => items@[i as int]));
                extract_import_entities_from_cache_json(&items[i], import_context, result);
                proof {
                    let child = found_in(items@[i as int]@, context);
                    assert(trees.take(i + 1).drop_last() =~= trees.take(i as int));
                    lemma_extended_twice(start, middle, result@, done, child);
                }
                i += 1;
            }
            assert(trees.take(trees.len() as int) =~= trees);
        },
        _ => {},
    }
}

// ---------------------------------------------------------------------------
// Laws
// ---------------------------------------------------------------------------

/// Whether the object holds a model of that name with its data.
pub open spec fn holds_model(object: Fields, name: Seq<char>, data: Fields) -> bool {
    &&& json::field(object, "meta"@) matches Some(JsonTree::Record(meta)) && json::field(
        meta,
        "model"@,
    ) == Some(JsonTree::Text(name))
    &&& json::field(object, "data"@) == Some(JsonTree::Record(data))
}

/// Whether the object is a requester resource that is a request.
pub open spec fn is_resource(object: Fields) -> bool {
    json::field(object, "type"@) == Some(JsonTree::Text("request"@))
}

/// Whether the data state a URL as a text, no query beside it and no authentication.
pub open spec fn has_url(data: Fields, url: Seq<char>) -> bool {
    &&& json::field(data, "url"@) == Some(JsonTree::Text(url))
    &&& !text::is_blank(url)
    &&& json::field(data, "queryParams"@) is None
    &&& json::field(data, "auth"@) is None
}

/// Whether an endpoint says what the data of a request say: name, method, URL, headers and body.
pub open spec fn says_what_the_data_say(
    endpoint: EndpointView,
    data: Fields,
    url: Seq<char>,
) -> bool {
    &&& endpoint.url == placeholders::normalized(text::trim(url))
    &&& match json::field(data, "name"@) {
        Some(JsonTree::Text(name)) => !text::is_blank(name) ==> endpoint.name == text::trim(name),
        _ => endpoint.name == "Imported Request"@,
    }
    &&& match json::field(data, "method"@) {
        Some(JsonTree::Text(method)) => text::unicode_upper(text::trim(method)).len() > 0
            ==> endpoint.method == text::unicode_upper(text::trim(method)),
        _ => endpoint.method == "GET"@,
    }
    &&& match json::field(data, "headerData"@) {
        Some(JsonTree::List(items)) => forall|pairs: Pairs| #[trigger]
            postman::are_entries_of(items, pairs) ==> endpoint.headers == postman::converted(pairs),
        _ => true,
    }
    &&& match json::field(data, "rawModeData"@) {
        Some(JsonTree::Text(raw)) => !text::is_blank(raw) ==> endpoint.body
            == placeholders::normalized(raw),
        _ => true,
    }
    &&& match json::field(data, "dataMode"@) {
        Some(JsonTree::Text(mode)) => endpoint.body_mode == request_body::body_mode(mode),
        _ => true,
    }
}

/// Whether the data state the body as a list of entries that are in use and plain.
pub open spec fn states_fields(
    data: Fields,
    items: Seq<JsonTree>,
    pairs: Pairs,
    mode: Seq<char>,
) -> bool {
    &&& json::field(data, "rawModeData"@) is None
    &&& json::field(data, "body"@) is None
    &&& json::field(data, "data"@) == Some(JsonTree::List(items))
    &&& json::field(data, "dataMode"@) == Some(JsonTree::Text(mode))
    &&& postman::are_entries_of(items, pairs)
    &&& postman::are_plain(pairs)
    &&& pairs.len() > 0
    &&& text::ascii_lower(text::trim(mode)) == "urlencoded"@ || text::ascii_lower(text::trim(mode))
        == "formdata"@
}

proof fn lemma_data_endpoint(
    data: Fields,
    url: Seq<char>,
    request_id: Seq<char>,
    collection_id: Seq<char>,
    collection: Seq<char>,
    folder_path: Seq<char>,
)
    requires
        has_url(data, url),
    ensures
        data_endpoint(data, request_id, collection_id, collection, folder_path) matches Some(
            endpoint,
        ) && says_what_the_data_say(endpoint, data, url) && endpoint.source_request_id == request_id
            && endpoint.source_collection_id == collection_id && endpoint.collection == collection
            && endpoint.folder_path == folder_path && forall|
            items: Seq<JsonTree>,
            pairs: Pairs,
            mode: Seq<char>,
        |
            #[trigger] states_fields(data, items, pairs, mode) ==> request_body::body_fields(
                endpoint.body,
            ) == postman::converted(pairs),
{
    postman::law_url_text_is_the_url(data, url);
    text::lemma_trim_is_final(url);
    let endpoint = data_endpoint(data, request_id, collection_id, collection, folder_path)->0;
    if let Some(JsonTree::List(items)) = json::field(data, "headerData"@) {
        assert forall|pairs: Pairs| #[trigger] postman::are_entries_of(items, pairs) implies
            endpoint.headers == postman::converted(pairs) by {
            postman::law_header_entries_are_the_headers(data, "headerData"@, items, pairs);
        }
    }
    assert forall|items: Seq<JsonTree>, pairs: Pairs, mode: Seq<char>|
        #[trigger] states_fields(data, items, pairs, mode) implies request_body::body_fields(
        endpoint.body,
    ) == postman::converted(pairs) by {
        postman::law_data_entries_are_the_fields_of_the_body(data, items, pairs, mode);
    }
}

/// A request in the cache is imported where its collection is: it says what its data say, and
/// keeps the ids of request and collection.
pub proof fn law_cached_request_is_imported(
    object: Fields,
    data: Fields,
    context: ContextView,
    url: Seq<char>,
)
    requires
        holds_model(object, "request"@, data),
        has_url(data, url),
        context.collection_ids == Set::<Seq<char>>::empty() || match json::field(
            data,
            "collection"@,
        ) {
            Some(JsonTree::Text(id)) => context.collection_ids.contains(id),
            Some(_) => false,
            None => true,
        },
    ensures
        cached_endpoint(object, context) matches Some(endpoint) && says_what_the_data_say(
            endpoint,
            data,
            url,
        ) && (match json::field(object, "model_id"@) {
            Some(JsonTree::Text(id)) => !text::is_blank(id) ==> endpoint.source_request_id
                == text::trim(id),
            _ => true,
        }) && (match json::field(data, "collection"@) {
            Some(JsonTree::Text(id)) => endpoint.source_collection_id == id,
            _ => true,
        }),
{
    lemma_data_endpoint(
        data,
        url,
        source_id(object, data),
        postman::or_empty(data_collection_id(data)),
        data_collection_name(data),
        data_folder_path(data),
    );
}

/// The fields of the body of a request in the cache are the entries that its data state, with
/// their placeholders converted: all of them, in order.
pub proof fn law_cached_request_keeps_its_fields(
    object: Fields,
    data: Fields,
    context: ContextView,
    url: Seq<char>,
    items: Seq<JsonTree>,
    pairs: Pairs,
    mode: Seq<char>,
)
    requires
        holds_model(object, "request"@, data),
        has_url(data, url),
        states_fields(data, items, pairs, mode),
        cached_endpoint(object, context) is Some,
    ensures
        request_body::body_fields(cached_endpoint(object, context)->0.body) == postman::converted(
            pairs,
        ),
        !text::is_blank(cached_endpoint(object, context)->0.body),
{
    postman::law_data_entries_are_the_fields_of_the_body(data, items, pairs, mode);
}

/// A requester resource that is a request is imported like one in the cache.
pub proof fn law_resource_is_imported(object: Fields, context: ContextView, url: Seq<char>)
    requires
        is_resource(object),
        has_url(object, url),
        context.collection_ids == Set::<Seq<char>>::empty() || match json::field(
            object,
            "_collectionId"@,
        ) {
            Some(JsonTree::Text(id)) => context.collection_ids.contains(id),
            _ => false,
        },
    ensures
        resource_endpoint(object, context) matches Some(endpoint) && says_what_the_data_say(
            endpoint,
            object,
            url,
        ) && (match json::field(object, "id"@) {
            Some(JsonTree::Text(id)) => !text::is_blank(id) ==> endpoint.source_request_id
                == text::trim(id),
            _ => true,
        }) && forall|
            items: Seq<JsonTree>,
            pairs: Pairs,
            mode: Seq<char>,
        |
            #[trigger] states_fields(object, items, pairs, mode) ==> request_body::body_fields(
                endpoint.body,
            ) == postman::converted(pairs),
{
    reveal_strlit("request");
    assert(text::trim("request"@) == "request"@);
    lemma_data_endpoint(
        object,
        url,
        postman::or_empty(json::content_field(object, "id"@)),
        postman::or_empty(resource_collection_id(object)),
        resource_collection_name(object),
        postman::or_empty(inner_name(object, "folder"@)),
    );
}

/// A request is left out where its collection is not among those that are imported, or where it
/// has no URL.
pub proof fn law_request_is_left_out(
    object: Fields,
    data: Fields,
    context: ContextView,
    id: Seq<char>,
)
    requires
        holds_model(object, "request"@, data),
        json::field(data, "url"@) is None || (json::field(data, "collection"@) == Some(
            JsonTree::Text(id),
        ) && context.collection_ids.len() > 0 && context.collection_ids.finite()
            && !context.collection_ids.contains(id)),
    ensures
        cached_endpoint(object, context) is None,
{
}

/// The collection and the folders of a request are kept: the name of the collection, and the
/// names of the folders around it from the outermost on.
pub proof fn law_cached_request_keeps_its_place(
    object: Fields,
    data: Fields,
    context: ContextView,
    collection: Fields,
    name: Seq<char>,
    folders: Seq<Fields>,
    names: Seq<Seq<char>>,
)
    requires
        holds_model(object, "request"@, data),
        cached_endpoint(object, context) is Some,
        json::field(data, "collection"@) == Some(JsonTree::Record(collection)),
        json::field(collection, "name"@) == Some(JsonTree::Text(name)),
        !text::is_blank(name),
        0 < names.len() <= NESTED_FOLDERS,
        are_nested(data, folders, names),
        forall|i: int| 0 <= i < names.len() ==> folders::is_folder_name(#[trigger] names[i]),
    ensures
        cached_endpoint(object, context)->0.collection == text::trim(name),
        folders::folder_names(cached_endpoint(object, context)->0.folder_path) == names,
{
    lemma_nested_names(data, folders, names, NESTED_FOLDERS as nat);
    folders::law_joined_folders_are_found(names);
}

/// Whether the folders are those around a record, the outermost first, under their names.
pub open spec fn are_nested(inner: Fields, folders: Seq<Fields>, names: Seq<Seq<char>>) -> bool
    decreases names.len(),
{
    &&& folders.len() == names.len()
    &&& if names.len() == 0 {
        json::field(inner, "folder"@) is None
    } else {
        &&& json::field(inner, "folder"@) == Some(JsonTree::Record(folders.last()))
        &&& json::field(folders.last(), "name"@) == Some(JsonTree::Text(names.last()))
        &&& are_nested(folders.last(), folders.drop_last(), names.drop_last())
    }
}

proof fn lemma_nested_names(
    inner: Fields,
    folders: Seq<Fields>,
    names: Seq<Seq<char>>,
    depth: nat,
)
    requires
        are_nested(inner, folders, names),
        0 < names.len() <= depth,
        forall|i: int| 0 <= i < names.len() ==> folders::is_folder_name(#[trigger] names[i]),
    ensures
        json::record_field(inner, "folder"@) == Some(folders.last()),
        nested_names(folders.last(), depth) == names,
    decreases names.len(),
{
    reveal_with_fuel(are_nested, 2);
    let last = folders.last();
    let rest = names.drop_last();
    assert(folders::is_folder_name(names[names.len() - 1]));
    assert(json::content_field(last, "name"@) == Some(names.last()));
    assert(rest.push(names.last()) =~= names);
    assert(rest + seq![names.last()] =~= names);
    if rest.len() > 0 {
        assert forall|i: int| 0 <= i < rest.len() implies folders::is_folder_name(
            #[trigger] rest[i],
        ) by {
            assert(rest[i] == names[i]);
        }
        lemma_nested_names(last, folders.drop_last(), rest, (depth - 1) as nat);
    } else {
        assert(rest =~= Seq::empty());
        assert(json::record_field(last, "folder"@) is None);
        assert(Seq::<Seq<char>>::empty() + seq![names.last()] =~= names);
    }
}

/// A collection and a folder are known by their ids, with their names and what is around them.
pub proof fn law_names_are_found_by_id(
    object: Fields,
    data: Fields,
    id: Seq<char>,
    name: Seq<char>,
    parent: Seq<char>,
)
    requires
        json::field(data, "id"@) == Some(JsonTree::Text(id)),
        json::field(data, "name"@) == Some(JsonTree::Text(name)),
        !text::is_blank(id),
        !text::is_blank(name),
    ensures
        holds_model(object, "collection"@, data) ==> collection_reference(object) == Some(
            (text::trim(id), text::trim(name)),
        ),
        holds_model(object, "folder"@, data) && json::field(data, "folder"@) == Some(
            JsonTree::Text(parent),
        ) && !text::is_blank(parent) ==> folder_reference(object) == Some(
            (
                text::trim(id),
                FolderView { name: text::trim(name), parent_folder_id: Some(text::trim(parent)) },
            ),
        ),
        holds_model(object, "folder"@, data) && json::field(data, "folder"@) is None
            ==> folder_reference(object) == Some(
            (text::trim(id), FolderView { name: text::trim(name), parent_folder_id: None }),
        ),
{
}

/// An environment in the cache is imported under its name, with each variable that is not
/// switched off, its placeholders converted, in order.
pub proof fn law_cached_environment_is_imported(
    object: Fields,
    data: Fields,
    context: ContextView,
    name: Seq<char>,
    items: Seq<JsonTree>,
    pairs: Pairs,
)
    requires
        holds_model(object, "environment"@, data),
        context.workspace_ids == Set::<Seq<char>>::empty(),
        json::field(data, "name"@) == Some(JsonTree::Text(name)),
        !text::is_blank(name),
        json::field(data, "values"@) == Some(JsonTree::List(items)),
        postman::are_entries_of(items, pairs),
        pairs.len() > 0,
    ensures
        cached_environment(object, context) matches Some(environment) && environment.name
            == text::trim(name) && environment.variables.len() == pairs.len() && forall|i: int|
            0 <= i < pairs.len() ==> environment.variables[i] == (
                text::trim((#[trigger] pairs[i]).0),
                placeholders::normalized(pairs[i].1),
            ),
{
    let f = |item: JsonTree| cached_variable(item);
    assert forall|i: int| 0 <= i < items.len() implies f(#[trigger] items[i]) == Some(
        (text::trim(pairs[i].0), placeholders::normalized(pairs[i].1)),
    ) by {
        assert(postman::is_entry_of(items[i], pairs[i]));
    }
    text::lemma_filter_map_of_all(items, f);
    let environment = cached_environment(object, context)->0;
    assert forall|i: int| 0 <= i < pairs.len() implies environment.variables[i] == (
        text::trim((#[trigger] pairs[i]).0),
        placeholders::normalized(pairs[i].1),
    ) by {
        assert(Some(items.filter_map(f)[i]) == f(items[i]));
    }
}

/// An environment of a workspace that is not imported is left out.
pub proof fn law_environment_is_left_out(
    object: Fields,
    data: Fields,
    context: ContextView,
    id: Seq<char>,
)
    requires
        holds_model(object, "environment"@, data),
        json::field(data, "workspace"@) == Some(JsonTree::Text(id)),
        context.workspace_ids.len() > 0,
        context.workspace_ids.finite(),
        !context.workspace_ids.contains(id),
    ensures
        cached_environment(object, context) is None,
{
}

/// What stands anywhere in a value is found: in a record itself, in its fields, and in the items
/// of a list, however deep.
pub proof fn law_everything_is_found(
    fields: Fields,
    items: Seq<JsonTree>,
    context: ContextView,
    i: int,
)
    ensures
        cached_endpoint(fields, context) matches Some(endpoint) ==> found_in(
            JsonTree::Record(fields),
            context,
        ).endpoints.contains(endpoint),
        cached_endpoint(fields, context) is None ==> (resource_endpoint(fields, context)
            matches Some(endpoint) ==> found_in(
            JsonTree::Record(fields),
            context,
        ).endpoints.contains(endpoint)),
        cached_environment(fields, context) matches Some(environment) ==> found_in(
            JsonTree::Record(fields),
            context,
        ).environments.contains(environment),
        0 <= i < fields.len() ==> is_part_of(
            found_in(fields[i].1, context),
            found_in(JsonTree::Record(fields), context),
        ),
        0 <= i < items.len() ==> is_part_of(
            found_in(items[i], context),
            found_in(JsonTree::List(items), context),
        ),
{
    let own = found_in_object(fields, context);
    let inner = found_in_fields(fields, context);
    let whole = found_in(JsonTree::Record(fields), context);
    assert(whole == both(own, inner));
    if own.endpoints.len() > 0 {
        assert(whole.endpoints[0] == own.endpoints[0]);
    }
    if own.environments.len() > 0 {
        assert(whole.environments[0] == own.environments[0]);
    }
    if 0 <= i < fields.len() {
        lemma_found_in_field(fields, context, i);
        lemma_part_of_both(own, inner);
        lemma_part_of_part(found_in(fields[i].1, context), inner, whole);
    }
    if 0 <= i < items.len() {
        lemma_found_in_item(items, context, i);
    }
}

/// Whether the requests and environments that were found are among others.
pub open spec fn is_part_of(part: Found, whole: Found) -> bool {
    &&& forall|k: int|
        0 <= k < part.endpoints.len() ==> whole.endpoints.contains(#[trigger] part.endpoints[k])
    &&& forall|k: int|
        0 <= k < part.environments.len() ==> whole.environments.contains(
            #[trigger] part.environments[k],
        )
    &&& part.collections.dom().subset_of(whole.collections.dom())
    &&& part.folders.dom().subset_of(whole.folders.dom())
}

/// What was found first or then was found.
pub proof fn lemma_part_of_both(first: Found, second: Found)
    ensures
        is_part_of(first, both(first, second)),
        is_part_of(second, both(first, second)),
{
    let whole = both(first, second);
    assert forall|k: int| 0 <= k < first.endpoints.len() implies whole.endpoints.contains(
        #[trigger] first.endpoints[k],
    ) by {
        assert(whole.endpoints[k] == first.endpoints[k]);
    }
    assert forall|k: int| 0 <= k < first.environments.len() implies whole.environments.contains(
        #[trigger] first.environments[k],
    ) by {
        assert(whole.environments[k] == first.environments[k]);
    }
    assert forall|k: int| 0 <= k < second.endpoints.len() implies whole.endpoints.contains(
        #[trigger] second.endpoints[k],
    ) by {
        assert(whole.endpoints[first.endpoints.len() + k] == second.endpoints[k]);
    }
    assert forall|k: int| 0 <= k < second.environments.len() implies whole.environments.contains(
        #[trigger] second.environments[k],
    ) by {
        assert(whole.environments[first.environments.len() + k] == second.environments[k]);
    }
}

/// What is among others is among those that these are among.
pub proof fn lemma_part_of_part(a: Found, b: Found, c: Found)
    requires
        is_part_of(a, b),
        is_part_of(b, c),
    ensures
        is_part_of(a, c),
{
    assert forall|k: int| 0 <= k < a.endpoints.len() implies c.endpoints.contains(
        #[trigger] a.endpoints[k],
    ) by {
        let j = choose|j: int| 0 <= j < b.endpoints.len() && b.endpoints[j] == a.endpoints[k];
        assert(c.endpoints.contains(b.endpoints[j]));
    }
    assert forall|k: int| 0 <= k < a.environments.len() implies c.environments.contains(
        #[trigger] a.environments[k],
    ) by {
        let j = choose|j: int|
            0 <= j < b.environments.len() && b.environments[j] == a.environments[k];
        assert(c.environments.contains(b.environments[j]));
    }
}

proof fn lemma_found_in_field(fields: Fields, context: ContextView, i: int)
    requires
        0 <= i < fields.len(),
    ensures
        is_part_of(found_in(fields[i].1, context), found_in_fields(fields, context)),
    decreases fields.len(),
{
    let rest = fields.drop_last();
    let before = found_in_fields(rest, context);
    let last = found_in(fields.last().1, context);
    lemma_part_of_both(before, last);
    if i < rest.len() {
        lemma_found_in_field(rest, context, i);
        assert(rest[i] == fields[i]);
        lemma_part_of_part(found_in(fields[i].1, context), before, both(before, last));
    }
}

proof fn lemma_found_in_item(items: Seq<JsonTree>, context: ContextView, i: int)
    requires
        0 <= i < items.len(),
    ensures
        is_part_of(found_in(items[i], context), found_in_items(items, context)),
    decreases items.len(),
{
    let rest = items.drop_last();
    let before = found_in_items(rest, context);
    let last = found_in(items.last(), context);
    lemma_part_of_both(before, last);
    if i < rest.len() {
        lemma_found_in_item(rest, context, i);
        assert(rest[i] == items[i]);
        lemma_part_of_part(found_in(items[i], context), before, both(before, last));
    }
}

/// A request remembers the folder that it stands in by its id, whether the data name the folder
/// by the id alone or by a record.
pub proof fn law_folder_is_remembered(
    object: Fields,
    data: Fields,
    context: ContextView,
    folder: Fields,
    id: Seq<char>,
)
    requires
        holds_model(object, "request"@, data),
        cached_endpoint(object, context) is Some,
        !text::is_blank(id),
    ensures
        json::field(data, "folder"@) == Some(JsonTree::Text(id)) ==> cached_endpoint(
            object,
            context,
        )->0.source_folder_id == text::trim(id),
        json::field(data, "folder"@) == Some(JsonTree::Record(folder)) && json::field(folder, "id"@)
            == Some(JsonTree::Text(id)) ==> cached_endpoint(object, context)->0.source_folder_id
            == text::trim(id),
        json::field(data, "folder"@) is None ==> cached_endpoint(
            object,
            context,
        )->0.source_folder_id.len() == 0,
{
}

/// An item with a name and a request is imported as the request says, under the name of the item,
/// with the ids of the collection and the folder that the item names.
pub proof fn law_listed_request_is_imported(
    object: Fields,
    name: Seq<char>,
    value: JsonTree,
    request: postman_export::RequestView,
    url: Seq<char>,
    collection: Seq<char>,
    folder: Seq<char>,
)
    requires
        json::field(object, "name"@) == Some(JsonTree::Text(name)),
        !text::is_blank(name),
        json::field(object, "request"@) == Some(value),
        postman_export::decoded_request(value) == Some(request),
        postman_export::exported_url(request) == Some(url),
        !text::is_blank(url),
        json::field(object, "collection"@) == Some(JsonTree::Text(collection)),
        json::field(object, "folder"@) == Some(JsonTree::Text(folder)),
        !text::is_blank(folder),
    ensures
        listed_endpoint(object) matches Some(endpoint) && {
            &&& endpoint.name == text::trim(name)
            &&& endpoint.url == placeholders::normalized(url)
            &&& endpoint.method == postman::imported_method(request.method)
            &&& endpoint.headers == postman_export::exported_headers(request)
            &&& endpoint.body == postman_export::exported_body(request)
            &&& endpoint.body_mode == postman_export::exported_body_mode(request)
            &&& endpoint.source_collection_id == text::trim(collection)
            &&& endpoint.source_folder_id == text::trim(folder)
        },
{
}

/// An environment is admitted where no workspace is asked for, or its own is.
pub proof fn law_workspaces_are_admitted(context: ContextView, id: Seq<char>)
    ensures
        context.workspace_ids == Set::<Seq<char>>::empty() ==> admits(context, None) && admits(
            context,
            Some(id),
        ),
        context.workspace_ids.contains(id) ==> admits(context, Some(id)),
        context.workspace_ids != Set::<Seq<char>>::empty() ==> !admits(context, None) && (admits(
            context,
            Some(id),
        ) ==> context.workspace_ids.contains(id)),
{
}

/// An environment without a name of its own is named by its id.
pub proof fn law_nameless_environment_is_named(object: Fields, data: Fields, text_of: Seq<char>)
    ensures
        json::field(data, "name"@) == Some(JsonTree::Text(text_of)) && !text::is_blank(text_of)
            ==> environment_name(object, data) == text::trim(text_of),
        json::field(data, "name"@) is None && json::field(object, "model_id"@) == Some(
            JsonTree::Text(text_of),
        ) ==> environment_name(object, data) == "postman-"@ + text_of,
        json::field(data, "name"@) is None && json::field(object, "model_id"@) is None
            ==> environment_name(object, data) == "postman-environment"@,
{
}

} // verus!
