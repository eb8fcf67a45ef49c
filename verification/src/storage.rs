//! What the stored files of a workspace mean.
use crate::defaults;
use crate::defaults::{
    default_endpoints, default_environment_index, default_environments,
    default_variables_for_environment_name,
};
use crate::folders;
use crate::folders::normalize_folder_path;
use crate::models::{
    clone_pairs, AppConfig, AppConfigView, EncryptedBlob, Endpoint, EndpointView, Environment,
    EnvironmentIndexEntry, EnvironmentIndexView, EnvironmentView, KeyValue,
};
use crate::request_body;
use crate::request_body::normalize_body_mode_owned;
use crate::security;
use crate::security::{decrypt_bytes, encrypt_bytes, KeyMaterial};
use crate::sorting;
use crate::sorting::sort_endpoints;
use crate::text;
use crate::text::{blank, concat3, concat4, same_text};
use crate::urls;
use crate::urls::normalize_endpoint_url_and_query_params;
use vstd::prelude::*;

verus! {

// ---------------------------------------------------------------------------
// Endpoints
// ---------------------------------------------------------------------------

/// The body mode as it is kept: a raw body that is empty is none.
pub open spec fn kept_body_mode(mode: Seq<char>, body: Seq<char>) -> Seq<char> {
    if request_body::body_mode(mode) == "raw"@ && body.len() == 0 {
        "none"@
    } else {
        request_body::body_mode(mode)
    }
}

/// The body mode as it is kept.
pub fn body_mode_to_keep(mode: &str, body: &str) -> (r: String)
    ensures
        r@ == kept_body_mode(mode@, body@),
{
    let mode = normalize_body_mode_owned(mode);
    if same_text(mode.as_str(), "raw") && body.is_empty() {
        "none".to_owned()
    } else {
        mode
    }
}

/// The endpoint that an endpoint file holds.
pub open spec fn stored_endpoint(endpoint: EndpointView) -> EndpointView {
    EndpointView { body_mode: kept_body_mode(endpoint.body_mode, endpoint.body), ..endpoint }
}

/// The endpoints that the endpoint files hold, in the order of the list.
pub open spec fn stored_endpoints(endpoints: Seq<EndpointView>) -> Seq<EndpointView> {
    sorting::sorted_endpoints(
        endpoints.map_values(|endpoint: EndpointView| stored_endpoint(endpoint)),
    )
}

/// The endpoints that the endpoint files hold, in the order of the list.
pub fn load_endpoints_tree(read: Vec<Endpoint>) -> (r: Vec<Endpoint>)
    ensures
        text::views(r@) == stored_endpoints(text::views(read@)),
{
    let ghost all = read@;
    let mut endpoints: Vec<Endpoint> = Vec::new();
    for endpoint in it: read
        invariant
            it.seq() == all,
            endpoints@.len() == it.index(),
            forall|j: int|
                0 <= j < endpoints@.len() ==> (#[trigger] endpoints@[j])@ == stored_endpoint(
                    all[j]@,
                ),
    {
        assert(endpoint == all[it.index() as int]);
        let mut endpoint = endpoint;
        endpoint.body_mode =
            body_mode_to_keep(endpoint.body_mode.as_str(), endpoint.body.as_str());
        endpoints.push(endpoint);
    }
    assert(text::views(endpoints@) =~= text::views(all).map_values(
        |endpoint: EndpointView| stored_endpoint(endpoint),
    ));
    sort_endpoints(&endpoints)
}

/// The collection that an endpoint is filed under.
pub open spec fn filed_collection(collection: Seq<char>) -> Seq<char> {
    if text::is_blank(collection) {
        "General"@
    } else {
        collection
    }
}

/// The endpoint in its place: in a collection, in a folder with a normal path, and with the query
/// of its URL set apart.
pub open spec fn filed(endpoint: EndpointView) -> EndpointView {
    urls::with_query_apart(
        EndpointView {
            collection: filed_collection(endpoint.collection),
            folder_path: folders::normal_path(endpoint.folder_path),
            ..endpoint
        },
    )
}

/// Puts the endpoint in its place.
pub fn file_endpoint(endpoint: &mut Endpoint)
    ensures
        final(endpoint)@ == filed(old(endpoint)@),
{
    if blank(endpoint.collection.as_str()) {
        endpoint.collection = "General".to_owned();
    }
    endpoint.folder_path = normalize_folder_path(endpoint.folder_path.as_str());
    normalize_endpoint_url_and_query_params(endpoint);
}

fn file_endpoints(endpoints: Vec<Endpoint>) -> (r: Vec<Endpoint>)
    ensures
        text::views(r@) == text::views(endpoints@).map_values(
            |endpoint: EndpointView| filed(endpoint),
        ),
{
    let ghost all = endpoints@;
    let mut r: Vec<Endpoint> = Vec::new();
    for endpoint in it: endpoints
        invariant
            it.seq() == all,
            r@.len() == it.index(),
            forall|j: int| 0 <= j < r@.len() ==> (#[trigger] r@[j])@ == filed(all[j]@),
    {
        assert(endpoint == all[it.index() as int]);
        let mut endpoint = endpoint;
        file_endpoint(&mut endpoint);
        r.push(endpoint);
    }
    assert(text::views(r@) =~= text::views(all).map_values(
        |endpoint: EndpointView| filed(endpoint),
    ));
    r
}

// ---------------------------------------------------------------------------
// The core of a workspace
// ---------------------------------------------------------------------------

/// What is known of a workspace before it is unlocked.
pub struct CoreData {
    pub endpoints: Vec<Endpoint>,
    pub environment_index: Vec<EnvironmentIndexEntry>,
    pub config: AppConfig,
}

#[verifier::ext_equal]
pub struct CoreView {
    pub endpoints: Seq<EndpointView>,
    pub environment_index: Seq<EnvironmentIndexView>,
    pub config: AppConfigView,
}

impl View for CoreData {
    type V = CoreView;

    open spec fn view(&self) -> CoreView {
        CoreView {
            endpoints: text::views(self.endpoints@),
            environment_index: text::views(self.environment_index@),
            config: self.config@,
        }
    }
}

/// The configuration before anything was configured.
pub open spec fn first_config() -> AppConfigView {
    AppConfigView {
        selected_endpoint_id: None,
        selected_environment_id: None,
        postman_preseed_done: false,
        window_width: None,
        window_height: None,
        session_duration_days: None,
        session_expires_at: None,
    }
}

/// The endpoints to start from: those of the endpoint files, those of the one file that held all
/// of them before, or the first ones.
pub open spec fn core_endpoints(
    stored: Seq<EndpointView>,
    legacy: Seq<EndpointView>,
) -> Seq<EndpointView> {
    if stored.len() > 0 {
        stored
    } else if legacy.len() > 0 {
        legacy
    } else {
        defaults::starting_endpoints()
    }
}

pub open spec fn first_endpoint_id(endpoints: Seq<EndpointView>) -> Option<Seq<char>> {
    if endpoints.len() > 0 {
        Some(endpoints[0].id)
    } else {
        None
    }
}

pub open spec fn first_entry_id(entries: Seq<EnvironmentIndexView>) -> Option<Seq<char>> {
    if entries.len() > 0 {
        Some(entries[0].id)
    } else {
        None
    }
}

/// The core that the stored parts make up.
pub open spec fn core_of(
    stored: Seq<EndpointView>,
    legacy: Seq<EndpointView>,
    config: AppConfigView,
    index: Seq<EnvironmentIndexView>,
) -> CoreView {
    let endpoints = core_endpoints(stored, legacy).map_values(
        |endpoint: EndpointView| filed(endpoint),
    );
    let environment_index = if index.len() > 0 {
        index
    } else {
        defaults::index_of(defaults::starting_environments())
    };
    CoreView {
        endpoints,
        environment_index,
        config: AppConfigView {
            selected_endpoint_id: if config.selected_endpoint_id is Some {
                config.selected_endpoint_id
            } else {
                first_endpoint_id(endpoints)
            },
            selected_environment_id: if config.selected_environment_id is Some {
                config.selected_environment_id
            } else {
                first_entry_id(environment_index)
            },
            ..config
        },
    }
}

/// The endpoints and entries that a file holds; none where there is no such file.
pub open spec fn held<T: View>(file: Option<Vec<T>>) -> Seq<T::V> {
    match file {
        Some(items) => text::views(items@),
        None => Seq::empty(),
    }
}

/// The configuration that a file holds; the first one where there is no such file.
pub open spec fn held_config(file: Option<AppConfig>) -> AppConfigView {
    match file {
        Some(config) => config@,
        None => first_config(),
    }
}

/// The configuration that a file holds.
pub fn load_config(file: Option<AppConfig>) -> (r: AppConfig)
    ensures
        r@ == held_config(file),
{
    match file {
        Some(config) => config,
        None => AppConfig::default(),
    }
}

/// Puts the core together from what the files hold.
pub fn load_core_data(
    stored: Vec<Endpoint>,
    legacy: Option<Vec<Endpoint>>,
    config: Option<AppConfig>,
    index: Option<Vec<EnvironmentIndexEntry>>,
) -> (r: CoreData)
    ensures
        r@ == core_of(text::views(stored@), held(legacy), held_config(config), held(index)),
{
    let endpoints = if !stored.is_empty() {
        stored
    } else {
        match legacy {
            Some(endpoints) => if !endpoints.is_empty() {
                endpoints
            } else {
                default_endpoints()
            },
            None => default_endpoints(),
        }
    };
    let endpoints = file_endpoints(endpoints);
    let mut config = load_config(config);
    let environment_index = match index {
        Some(entries) => if !entries.is_empty() {
            entries
        } else {
            default_environment_index()
        },
        None => default_environment_index(),
    };
    if config.selected_endpoint_id.is_none() && !endpoints.is_empty() {
        config.selected_endpoint_id = Some(endpoints[0].id.clone());
    }
    if config.selected_environment_id.is_none() && !environment_index.is_empty() {
        config.selected_environment_id = Some(environment_index[0].id.clone());
    }
    CoreData { endpoints, environment_index, config }
}

// ---------------------------------------------------------------------------
// Environments
// ---------------------------------------------------------------------------

/// What an environment file holds, as far as it was read.
pub enum EnvironmentContent {
    /// The bytes of the decrypted variables.
    Decrypted(Vec<u8>),
    /// Variables that were never encrypted.
    Legacy(Vec<KeyValue>),
}

/// What the text of an environment file holds, which was read as an encrypted blob or else as
/// plain variables, whichever succeeded first.
pub fn read_environment(
    key: &KeyMaterial,
    blob: Option<EncryptedBlob>,
    plain: Option<Vec<KeyValue>>,
    path: &str,
) -> (r: Result<EnvironmentContent, String>)
    ensures
        match blob {
            Some(blob) => match security::decrypted(key@, blob) {
                Ok(plaintext) => r matches Ok(EnvironmentContent::Decrypted(found)) && found@
                    == plaintext,
                Err(problem) => r matches Err(message) && message@ == "failed to decrypt "@ + path@
                    + ": "@ + problem,
            },
            None => match plain {
                Some(variables) => r == Ok::<EnvironmentContent, String>(
                    EnvironmentContent::Legacy(variables),
                ),
                None => r matches Err(message) && message@ == "environment file "@ + path@
                    + " is neither encrypted nor valid legacy JSON"@,
            },
        },
{
    match blob {
        Some(blob) => match decrypt_bytes(key, &blob) {
            Ok(plaintext) => Ok(EnvironmentContent::Decrypted(plaintext)),
            Err(problem) => Err(
                concat4("failed to decrypt ", path, ": ", problem.as_str()),
            ),
        },
        None => match plain {
            Some(variables) => Ok(EnvironmentContent::Legacy(variables)),
            None => Err(
                concat3("environment file ", path, " is neither encrypted nor valid legacy JSON"),
            ),
        },
    }
}

/// The stored variables of an environment.
pub enum StoredVariables {
    /// There is no file.
    Missing,
    /// The file was encrypted.
    Encrypted(Vec<KeyValue>),
    /// The file was not encrypted.
    Legacy(Vec<KeyValue>),
}

/// The stored variables whose decrypted bytes were parsed, or why they cannot be used.
pub fn decrypted_variables(parsed: Result<Vec<KeyValue>, String>, path: &str) -> (r: Result<
    StoredVariables,
    String,
>)
    ensures
        match parsed {
            Ok(variables) => r == Ok::<StoredVariables, String>(
                StoredVariables::Encrypted(variables),
            ),
            Err(problem) => r matches Err(message) && message@
                == "invalid decrypted env payload in "@ + path@ + ": "@ + problem@,
        },
{
    match parsed {
        Ok(variables) => Ok(StoredVariables::Encrypted(variables)),
        Err(problem) => Err(
            concat4("invalid decrypted env payload in ", path, ": ", problem.as_str()),
        ),
    }
}

/// The encrypted file of an environment, whose variables were written as bytes. Decryption
/// gives these bytes back.
pub fn encrypt_environment(key: &KeyMaterial, environment: &Environment, serialized: &[u8]) -> (r:
    Result<EncryptedBlob, String>)
    ensures
        match r {
            Ok(blob) => security::decrypted(key@, blob) == Ok::<Seq<u8>, Seq<char>>(serialized@)
                && exists|nonce: Seq<u8>|
                nonce.len() == 24 && security::is_blob(blob, key@, nonce, serialized@),
            Err(message) => exists|nonce: Seq<u8>|
                nonce.len() == 24 && (#[trigger] security::encryption(key@, nonce, serialized@)
                    matches Err(problem) && message@ == "failed to encrypt env "@
                    + environment.name@ + ": "@ + ("encryption failed: "@ + problem)),
        },
        r is Ok <==> serialized@.len() < security::MAX_PLAINTEXT,
{
    match encrypt_bytes(key, serialized) {
        Ok(blob) => Ok(blob),
        Err(problem) => Err(
            concat4(
                "failed to encrypt env ",
                environment.name.as_str(),
                ": ",
                problem.as_str(),
            ),
        ),
    }
}

/// The environment of an entry, with its stored variables.
pub open spec fn stored_environment(
    entry: EnvironmentIndexView,
    stored: StoredVariables,
) -> EnvironmentView {
    EnvironmentView {
        id: entry.id,
        name: entry.name,
        file_name: entry.file_name,
        variables: match stored {
            StoredVariables::Missing => defaults::variables_named(
                defaults::starting_environments(),
                entry.name,
            ),
            StoredVariables::Encrypted(variables) => text::views(variables@),
            StoredVariables::Legacy(variables) => text::views(variables@),
        },
    }
}

/// The environments of the entries, with their stored variables; the first ones where there are
/// no entries.
pub open spec fn stored_environments(
    entries: Seq<EnvironmentIndexView>,
    stored: Seq<StoredVariables>,
) -> Seq<EnvironmentView> {
    if entries.len() == 0 {
        defaults::starting_environments()
    } else {
        Seq::new(entries.len(), |i: int| stored_environment(entries[i], stored[i]))
    }
}

/// Whether one of the files was not encrypted.
pub open spec fn has_legacy(stored: Seq<StoredVariables>) -> bool {
    exists|i: int| 0 <= i < stored.len() && #[trigger] stored[i] is Legacy
}

/// The environments of the entries, and whether the file of one was not encrypted.
pub fn load_environments(
    index_entries: &Vec<EnvironmentIndexEntry>,
    stored: &Vec<StoredVariables>,
) -> (r: (Vec<Environment>, bool))
    requires
        index_entries@.len() == stored@.len(),
    ensures
        text::views(r.0@) == stored_environments(text::views(index_entries@), stored@),
        r.1 == has_legacy(stored@),
{
    let mut environments: Vec<Environment> = Vec::new();
    let mut found_legacy_plaintext = false;
    let mut i: usize = 0;
    while i < index_entries.len()
        invariant
            i <= index_entries@.len(),
            index_entries@.len() == stored@.len(),
            environments@.len() == i,
            forall|j: int|
                0 <= j < i ==> (#[trigger] environments@[j])@ == stored_environment(
                    index_entries@[j]@,
                    stored@[j],
                ),
            found_legacy_plaintext == exists|j: int| 0 <= j < i && #[trigger] stored@[j] is Legacy,
        decreases index_entries@.len() - i,
    {
        let entry = &index_entries[i];
        let variables = match &stored[i] {
            StoredVariables::Missing => default_variables_for_environment_name(
                entry.name.as_str(),
            ),
            StoredVariables::Encrypted(variables) => clone_pairs(variables),
            StoredVariables::Legacy(variables) => {
                found_legacy_plaintext = true;
                clone_pairs(variables)
            },
        };
        environments.push(
            Environment {
                id: entry.id.clone(),
                name: entry.name.clone(),
                file_name: entry.file_name.clone(),
                variables,
            },
        );
        i += 1;
    }
    if environments.is_empty() {
        environments = default_environments();
    } else {
        assert(text::views(environments@) =~= stored_environments(
            text::views(index_entries@),
            stored@,
        ));
    }
    (environments, found_legacy_plaintext)
}

/// The encrypted files by name, once that of each environment was written in turn.
pub open spec fn written_files(
    environments: Seq<EnvironmentView>,
    blobs: Seq<EncryptedBlob>,
) -> Map<Seq<char>, EncryptedBlob>
    decreases environments.len(),
{
    if environments.len() == 0 {
        Map::empty()
    } else {
        written_files(environments.drop_last(), blobs.drop_last()).insert(
            environments.last().file_name,
            blobs.last(),
        )
    }
}

/// Whether the variables are what a file of that name holds, of which `parse` reads the decrypted
/// bytes.
pub open spec fn is_stored_under(
    stored: StoredVariables,
    name: Seq<char>,
    files: Map<Seq<char>, EncryptedBlob>,
    key: Seq<u8>,
    parse: spec_fn(Seq<u8>) -> Seq<(Seq<char>, Seq<char>)>,
) -> bool {
    if files.dom().contains(name) {
        security::decrypted(key, files[name]) matches Ok(plaintext) && (stored
            matches StoredVariables::Encrypted(variables) && text::views(variables@) == parse(
            plaintext,
        ))
    } else {
        stored is Missing
    }
}

/// Environments that were encrypted under a key and saved, each in a file of its own, are the
/// same when they are loaded under that key, in the same order, and no file of theirs counts as
/// one that was not encrypted. Variables are written as bytes by `serialize`, and `parse` reads
/// them back.
pub proof fn law_saved_environments_are_loaded(
    environments: Seq<EnvironmentView>,
    blobs: Seq<EncryptedBlob>,
    stored: Seq<StoredVariables>,
    key: Seq<u8>,
    serialize: spec_fn(Seq<(Seq<char>, Seq<char>)>) -> Seq<u8>,
    parse: spec_fn(Seq<u8>) -> Seq<(Seq<char>, Seq<char>)>,
)
    requires
        environments.len() > 0,
        environments.len() == blobs.len(),
        environments.len() == stored.len(),
        forall|i: int, j: int|
            0 <= i < j < environments.len() ==> (#[trigger] environments[i]).file_name != (
            #[trigger] environments[j]).file_name,
        forall|i: int|
            0 <= i < environments.len() ==> parse(
                serialize((#[trigger] environments[i]).variables),
            ) == environments[i].variables,
        forall|i: int|
            0 <= i < blobs.len() ==> security::decrypted(key, #[trigger] blobs[i]) == Ok::<
                Seq<u8>,
                Seq<char>,
            >(serialize(environments[i].variables)),
        forall|i: int|
            0 <= i < stored.len() ==> is_stored_under(
                #[trigger] stored[i],
                defaults::index_of(environments)[i].file_name,
                written_files(environments, blobs),
                key,
                parse,
            ),
    ensures
        stored_environments(defaults::index_of(environments), stored) == environments,
        !has_legacy(stored),
{
    let entries = defaults::index_of(environments);
    lemma_written_files(environments, blobs);
    assert forall|i: int| 0 <= i < environments.len() implies stored[i] is Encrypted
        && stored_environment(entries[i], stored[i]) == environments[i] by {
        let environment = environments[i];
        assert(entries[i] == defaults::index_entry(environment));
        assert(security::decrypted(key, blobs[i]) == Ok::<Seq<u8>, Seq<char>>(
            serialize(environment.variables),
        ));
    }
    assert(stored_environments(entries, stored) =~= environments);
}

/// A file that no other environment has holds what was written for its environment.
proof fn lemma_written_files(environments: Seq<EnvironmentView>, blobs: Seq<EncryptedBlob>)
    requires
        environments.len() == blobs.len(),
        forall|i: int, j: int|
            0 <= i < j < environments.len() ==> (#[trigger] environments[i]).file_name != (
            #[trigger] environments[j]).file_name,
    ensures
        forall|i: int|
            0 <= i < environments.len() ==> written_files(environments, blobs).dom().contains(
                (#[trigger] environments[i]).file_name,
            ) && written_files(environments, blobs)[environments[i].file_name] == blobs[i],
    decreases environments.len(),
{
    if environments.len() > 0 {
        let init = environments.drop_last();
        lemma_written_files(init, blobs.drop_last());
        assert forall|i: int| 0 <= i < environments.len() implies written_files(
            environments,
            blobs,
        ).dom().contains((#[trigger] environments[i]).file_name) && written_files(
            environments,
            blobs,
        )[environments[i].file_name] == blobs[i] by {
            if i < init.len() {
                assert(init[i] == environments[i]);
                assert(environments[i].file_name != environments[environments.len() - 1].file_name);
            }
        }
    }
}

/// An endpoint in its place stays as it is, unless the query of its URL held an item that is
/// nothing but `=`.
pub proof fn law_filed_endpoint_stays(endpoint: EndpointView)
    requires
        forall|i: int|
            0 <= i < urls::split_query(endpoint.url).1.len() ==> urls::says_something(
                #[trigger] urls::split_query(endpoint.url).1[i],
            ),
    ensures
        filed(filed(endpoint)) == filed(endpoint),
{
    let placed = EndpointView {
        collection: filed_collection(endpoint.collection),
        folder_path: folders::normal_path(endpoint.folder_path),
        ..endpoint
    };
    urls::law_query_is_set_apart_once(placed);
    folders::law_normal_path_is_final(endpoint.folder_path);
    reveal_strlit("General");
    reveal_with_fuel(text::trim_start, 2);
    reveal_with_fuel(text::trim_end, 2);
    assert(!text::is_blank("General"@));
}

/// The requests that are stored are those of the workspace, each in its place and in order; only
/// where none is stored do those of the older file count, and where there are none either the
/// first ones. What was chosen stays chosen.
pub proof fn law_stored_requests_are_loaded(
    stored: Seq<EndpointView>,
    legacy: Seq<EndpointView>,
    config: AppConfigView,
    index: Seq<EnvironmentIndexView>,
    i: int,
)
    ensures
        ({
            let core = core_of(stored, legacy, config, index);
            &&& stored.len() > 0 ==> core.endpoints.len() == stored.len()
            &&& 0 <= i < stored.len() ==> core.endpoints[i] == filed(stored[i])
            &&& stored.len() == 0 && legacy.len() > 0 ==> core.endpoints.len() == legacy.len()
            &&& stored.len() == 0 && 0 <= i < legacy.len() ==> core.endpoints[i] == filed(
                legacy[i],
            )
            &&& stored.len() == 0 && legacy.len() == 0 ==> core.endpoints.len() == 2
            &&& index.len() > 0 ==> core.environment_index == index
            &&& index.len() == 0 ==> core.environment_index.len() == 3
            &&& config.selected_endpoint_id is Some ==> core.config.selected_endpoint_id
                == config.selected_endpoint_id
            &&& config.selected_endpoint_id is None && core.endpoints.len() > 0
                ==> core.config.selected_endpoint_id == Some(core.endpoints[0].id)
            &&& config.selected_environment_id is Some ==> core.config.selected_environment_id
                == config.selected_environment_id
            &&& core.config.session_duration_days == config.session_duration_days
            &&& core.config.session_expires_at == config.session_expires_at
            &&& core.config.postman_preseed_done == config.postman_preseed_done
        }),
{
}

/// A request in its place keeps what it says: only a blank collection is named, the folder path
/// is put in order, and the query is set apart from the URL.
pub proof fn law_filed_endpoint_says_the_same(endpoint: EndpointView)
    ensures
        ({
            let after = filed(endpoint);
            &&& after.id == endpoint.id
            &&& after.source_request_id == endpoint.source_request_id
            &&& after.source_collection_id == endpoint.source_collection_id
            &&& after.source_folder_id == endpoint.source_folder_id
            &&& after.name == endpoint.name
            &&& after.method == endpoint.method
            &&& after.headers == endpoint.headers
            &&& after.body == endpoint.body
            &&& after.body_mode == endpoint.body_mode
            &&& after.scripts == endpoint.scripts
            &&& after.collection == (if text::is_blank(endpoint.collection) {
                "General"@
            } else {
                endpoint.collection
            })
            &&& folders::folder_names(after.folder_path) == folders::folder_names(
                endpoint.folder_path,
            )
        }),
{
    folders::lemma_folder_names_are_clean(endpoint.folder_path);
    folders::law_joined_folders_are_found(folders::folder_names(endpoint.folder_path));
}

/// A raw body that is empty is none; any other keeps its mode.
pub proof fn law_kept_body_modes(mode: Seq<char>, body: Seq<char>)
    ensures
        body.len() > 0 ==> kept_body_mode(mode, body) == request_body::body_mode(mode),
        body.len() == 0 && request_body::body_mode(mode) == "raw"@ ==> kept_body_mode(mode, body)
            == "none"@,
        body.len() == 0 && request_body::body_mode(mode) != "raw"@ ==> kept_body_mode(mode, body)
            == request_body::body_mode(mode),
{
}

} // verus!
