//! Sharing a workspace: what goes into a bundle, and what comes out of one.
use crate::defaults;
use crate::defaults::create_id;
use crate::folders;
use crate::folders::{collection_name_of, normalize_folder_path};
use crate::import;
use crate::import::ImportSummary;
use crate::merge;
use crate::models::{
    clone_endpoints, clone_pairs, Endpoint, EndpointView, EnvironmentView, SharedEnvironment,
    SharedEnvironmentView, SharedWorkspacePayload, SharedWorkspacePayloadView,
};
use crate::postman_cache;
use crate::postman_cache::{ImportScanResult, ScanView};
use crate::postman_export::{ImportedEnvironment, ImportedEnvironmentView};
use crate::storage;
use crate::storage::body_mode_to_keep;
use crate::table::TextSet;
use crate::text;
use crate::text::{blank, concat2, concat5, decimal_text, trimmed};
use crate::urls;
use crate::urls::normalize_endpoint_url_and_query_params;
use crate::workspace::{Workspace, WorkspaceView};
use vstd::prelude::*;

verus! {

// ---------------------------------------------------------------------------
// Export
// ---------------------------------------------------------------------------

/// What is shared of an environment.
pub open spec fn shared_environment(environment: EnvironmentView) -> SharedEnvironmentView {
    SharedEnvironmentView { name: environment.name, variables: environment.variables }
}

/// What is shared of a workspace.
pub open spec fn shared_payload(ws: WorkspaceView) -> SharedWorkspacePayloadView {
    SharedWorkspacePayloadView {
        version: 1,
        endpoints: ws.saved_endpoints,
        environments: ws.environments.map_values(
            |environment: EnvironmentView| shared_environment(environment),
        ),
    }
}

impl Workspace {
    /// What is shared of the workspace.
    pub fn export_workspace_payload(&self) -> (r: SharedWorkspacePayload)
        ensures
            r@ == shared_payload(self@),
    {
        let mut environments: Vec<SharedEnvironment> = Vec::new();
        let mut i: usize = 0;
        while i < self.environments.len()
            invariant
                i <= self.environments@.len(),
                environments@.len() == i,
                forall|j: int|
                    0 <= j < i ==> (#[trigger] environments@[j])@ == shared_environment(
                        self.environments@[j]@,
                    ),
            decreases self.environments@.len() - i,
        {
            let environment = &self.environments[i];
            environments.push(
                SharedEnvironment {
                    name: environment.name.clone(),
                    variables: clone_pairs(&environment.variables),
                },
            );
            i += 1;
        }
        assert(text::views(environments@) =~= text::views(self.environments@).map_values(
            |environment: EnvironmentView| shared_environment(environment),
        ));
        SharedWorkspacePayload {
            version: 1,
            endpoints: clone_endpoints(&self.saved_endpoints),
            environments,
        }
    }
}

// ---------------------------------------------------------------------------
// Import
// ---------------------------------------------------------------------------

/// A shared request as it is taken in, under an id.
pub open spec fn received(endpoint: EndpointView, id: Seq<char>) -> EndpointView {
    urls::with_query_apart(
        EndpointView {
            id,
            collection: folders::collection_name(endpoint.collection),
            folder_path: folders::normal_path(endpoint.folder_path),
            body_mode: storage::kept_body_mode(endpoint.body_mode, endpoint.body),
            ..endpoint
        },
    )
}

/// The ids of requests.
pub open spec fn ids_of(endpoints: Seq<EndpointView>) -> Set<Seq<char>>
    decreases endpoints.len(),
{
    if endpoints.len() == 0 {
        Set::empty()
    } else {
        ids_of(endpoints.drop_last()).insert(endpoints.last().id)
    }
}

/// Whether a shared request needs another id: its own is blank, or that of another request.
pub open spec fn needs_id(
    id: Seq<char>,
    saved: Seq<EndpointView>,
    earlier: Seq<EndpointView>,
) -> bool {
    text::is_blank(id) || ids_of(saved + earlier).contains(text::trim(id))
}

/// Whether these are the shared requests as they are taken in.
pub open spec fn are_received(
    taken: Seq<EndpointView>,
    shared: Seq<EndpointView>,
    saved: Seq<EndpointView>,
) -> bool {
    &&& taken.len() == shared.len()
    &&& forall|i: int|
        0 <= i < taken.len() ==> {
            let endpoint = #[trigger] taken[i];
            &&& endpoint == received(shared[i], endpoint.id)
            &&& if needs_id(shared[i].id, saved, taken.take(i)) {
                defaults::is_id(endpoint.id, "ep"@)
            } else {
                endpoint.id == shared[i].id
            }
        }
}

fn collect_ids(endpoints: &Vec<Endpoint>) -> (r: TextSet)
    ensures
        r@ == ids_of(text::views(endpoints@)),
{
    let ghost all = text::views(endpoints@);
    let mut r = TextSet::new();
    let mut i: usize = 0;
    while i < endpoints.len()
        invariant
            i <= endpoints@.len(),
            all == text::views(endpoints@),
            r@ == ids_of(all.take(i as int)),
        decreases endpoints@.len() - i,
    {
        proof {
            assert(all.take(i + 1).drop_last() =~= all.take(i as int));
            assert(all.take(i + 1).last() == endpoints@[i as int]@);
        }
        let _ = r.insert(endpoints[i].id.clone());
        i += 1;
    }
    assert(all.take(all.len() as int) =~= all);
    r
}

/// The shared requests as they are taken in.
pub fn receive_endpoints(shared: Vec<Endpoint>, saved: &Vec<Endpoint>) -> (r: Vec<Endpoint>)
    ensures
        are_received(text::views(r@), text::views(shared@), text::views(saved@)),
{
    let ghost given = shared@;
    let ghost known = text::views(saved@);
    let mut seen = collect_ids(saved);
    let mut r: Vec<Endpoint> = Vec::new();
    assert(known + text::views(r@) =~= known);
    for endpoint in it: shared
        invariant
            it.seq() == given,
            r@.len() == it.index(),
            known == text::views(saved@),
            seen@ == ids_of(known + text::views(r@)),
            forall|i: int|
                0 <= i < r@.len() ==> {
                    let taken = (#[trigger] r@[i])@;
                    &&& taken == received(given[i]@, taken.id)
                    &&& if needs_id(given[i]@.id, known, text::views(r@).take(i)) {
                        defaults::is_id(taken.id, "ep"@)
                    } else {
                        taken.id == given[i]@.id
                    }
                },
    {
        let ghost n = it.index() as int;
        let ghost before = r@;
        assert(endpoint == given[n]);
        let mut endpoint = endpoint;
        endpoint.collection = collection_name_of(endpoint.collection.as_str());
        endpoint.folder_path = normalize_folder_path(endpoint.folder_path.as_str());
        endpoint.body_mode =
            body_mode_to_keep(endpoint.body_mode.as_str(), endpoint.body.as_str());
        normalize_endpoint_url_and_query_params(&mut endpoint);
        if blank(endpoint.id.as_str()) || seen.contains(trimmed(endpoint.id.as_str()).as_str()) {
            endpoint.id = create_id("ep");
        }
        let _ = seen.insert(endpoint.id.clone());
        proof {
            text::lemma_views_push(before, endpoint);
            let all = known + text::views(before).push(endpoint@);
            assert(all.drop_last() =~= known + text::views(before));
            assert(all.last() == endpoint@);
        }
        r.push(endpoint);
        assert forall|i: int| 0 <= i < r@.len() implies {
            let taken = (#[trigger] r@[i])@;
            &&& taken == received(given[i]@, taken.id)
            &&& if needs_id(given[i]@.id, known, text::views(r@).take(i)) {
                defaults::is_id(taken.id, "ep"@)
            } else {
                taken.id == given[i]@.id
            }
        } by {
            assert(text::views(r@).take(i) =~= text::views(before).take(i));
            if i == n {
                assert(text::views(before).take(i) =~= text::views(before));
            } else {
                assert(r@[i] == before[i]);
            }
        }
    }
    assert forall|i: int| 0 <= i < text::views(r@).len() implies {
        let endpoint = #[trigger] text::views(r@)[i];
        &&& endpoint == received(text::views(given)[i], endpoint.id)
        &&& if needs_id(text::views(given)[i].id, known, text::views(r@).take(i)) {
            defaults::is_id(endpoint.id, "ep"@)
        } else {
            endpoint.id == text::views(given)[i].id
        }
    } by {
        assert(text::views(r@)[i] == r@[i]@);
        assert(text::views(given)[i] == given[i]@);
    }
    r
}

pub open spec fn received_environment(environment: SharedEnvironmentView) -> ImportedEnvironmentView {
    ImportedEnvironmentView { name: environment.name, variables: environment.variables }
}

fn receive_environments(shared: Vec<SharedEnvironment>) -> (r: Vec<ImportedEnvironment>)
    ensures
        text::views(r@) == text::views(shared@).map_values(
            |environment: SharedEnvironmentView| received_environment(environment),
        ),
{
    let ghost given = shared@;
    let mut r: Vec<ImportedEnvironment> = Vec::new();
    for environment in it: shared
        invariant
            it.seq() == given,
            r@.len() == it.index(),
            forall|j: int|
                0 <= j < r@.len() ==> (#[trigger] r@[j])@ == received_environment(given[j]@),
    {
        assert(environment == given[it.index() as int]);
        r.push(
            ImportedEnvironment { name: environment.name, variables: environment.variables },
        );
    }
    assert(text::views(r@) =~= text::views(given).map_values(
        |environment: SharedEnvironmentView| received_environment(environment),
    ));
    r
}

/// What a payload amounts to as a scan, with its requests as they are taken in.
pub open spec fn payload_scan(
    taken: Seq<EndpointView>,
    environments: Seq<SharedEnvironmentView>,
) -> ScanView {
    ScanView {
        endpoints: taken,
        environments: environments.map_values(
            |environment: SharedEnvironmentView| received_environment(environment),
        ),
        ..postman_cache::empty_scan()
    }
}

/// Whether an import of a payload went from one workspace to another and came to this.
pub open spec fn is_payload_import(
    before: WorkspaceView,
    after: WorkspaceView,
    payload: SharedWorkspacePayloadView,
    summary: ImportSummary,
    now: u64,
) -> bool {
    exists|taken: Seq<EndpointView>|
        #[trigger] are_received(taken, payload.endpoints, before.saved_endpoints)
            && import::is_import(
            before,
            after,
            payload_scan(taken, payload.environments),
            summary,
            now,
        )
}

impl Workspace {
    /// Takes in what was shared. A payload without anything is refused.
    pub fn import_workspace_payload(&mut self, payload: SharedWorkspacePayload, now: u64) -> (r:
        Result<ImportSummary, String>)
        ensures
            match r {
                Ok(summary) => {
                    &&& payload@.endpoints.len() > 0 || payload@.environments.len() > 0
                    &&& is_payload_import(old(self)@, final(self)@, payload@, summary, now)
                },
                Err(message) => {
                    &&& payload@.endpoints.len() == 0 && payload@.environments.len() == 0
                    &&& message@ == "Bundle contains no endpoints or environments."@
                    &&& final(self)@ == old(self)@
                },
            },
    {
        if payload.endpoints.is_empty() && payload.environments.is_empty() {
            return Err("Bundle contains no endpoints or environments.".to_owned());
        }
        let mut scan_result = ImportScanResult::default();
        scan_result.endpoints = receive_endpoints(payload.endpoints, &self.saved_endpoints);
        scan_result.environments = receive_environments(payload.environments);
        proof {
            let taken = scan_result@.endpoints;
            assert(are_received(taken, payload@.endpoints, self@.saved_endpoints));
            assert(scan_result@ =~= payload_scan(taken, payload@.environments));
        }
        Ok(self.merge_postman_import(scan_result, now))
    }
}

// ---------------------------------------------------------------------------
// Laws
// ---------------------------------------------------------------------------

/// Whether a request is in order: in its place, with the body mode that is kept and without space
/// around its collection.
pub open spec fn is_in_order(endpoint: EndpointView) -> bool {
    &&& storage::filed(endpoint) == endpoint
    &&& storage::kept_body_mode(endpoint.body_mode, endpoint.body) == endpoint.body_mode
    &&& text::trim(endpoint.collection) == endpoint.collection
}

/// A request that is in order is taken in as it is, but for its id.
pub proof fn law_request_is_carried(endpoint: EndpointView, id: Seq<char>)
    requires
        is_in_order(endpoint),
    ensures
        received(endpoint, id) == (EndpointView { id, ..endpoint }),
        storage::filed(received(endpoint, id)) == (EndpointView { id, ..endpoint }),
        merge::dedup_key(received(endpoint, id)) == merge::dedup_key(endpoint),
{
    let inner = EndpointView {
        collection: storage::filed_collection(endpoint.collection),
        folder_path: folders::normal_path(endpoint.folder_path),
        ..endpoint
    };
    let other = EndpointView { id, ..endpoint };
    assert(urls::with_query_apart(inner).collection == inner.collection);
    assert(urls::with_query_apart(inner).folder_path == inner.folder_path);
    if text::is_blank(endpoint.collection) {
        assert(endpoint.collection == "General"@);
    }
    assert(inner =~= endpoint);
    assert(urls::with_query_apart(other) =~= (EndpointView {
        id,
        ..urls::with_query_apart(endpoint)
    }));
    assert(received(endpoint, id) =~= urls::with_query_apart(other));
}

/// Whether the environments have names of their own, case not counting.
pub open spec fn have_own_names(environments: Seq<EnvironmentView>) -> bool {
    &&& forall|i: int|
        0 <= i < environments.len() ==> !text::is_blank((#[trigger] environments[i]).name)
    &&& forall|i: int, j: int|
        0 <= i < j < environments.len() ==> !text::same_ignoring_case(
            text::trim((#[trigger] environments[i]).name),
            text::trim((#[trigger] environments[j]).name),
        )
}

proof fn lemma_not_named(environments: Seq<EnvironmentView>, name: Seq<char>)
    requires
        forall|i: int|
            0 <= i < environments.len() ==> !text::same_ignoring_case(
                (#[trigger] environments[i]).name,
                name,
            ),
    ensures
        import::named_at(environments, name) == environments.len(),
    decreases environments.len(),
{
    if environments.len() > 0 {
        let rest = environments.drop_first();
        assert(!text::same_ignoring_case(environments[0].name, name));
        assert forall|i: int| 0 <= i < rest.len() implies !text::same_ignoring_case(
            (#[trigger] rest[i]).name,
            name,
        ) by {
            assert(rest[i] == environments[i + 1]);
        }
        lemma_not_named(rest, name);
    }
}

/// The environments of a payload, as a new workspace takes them in.
pub open spec fn carried(environments: Seq<EnvironmentView>) -> Seq<ImportedEnvironmentView> {
    environments.map_values(
        |environment: EnvironmentView| received_environment(shared_environment(environment)),
    )
}

/// Whether none of the environments is known by the name that it is taken in under, case not
/// counting.
pub open spec fn have_new_names(
    known: Seq<EnvironmentView>,
    environments: Seq<EnvironmentView>,
) -> bool {
    forall|i: int, j: int|
        0 <= i < known.len() && 0 <= j < environments.len() ==> !text::same_ignoring_case(
            (#[trigger] known[i]).name,
            text::trim((#[trigger] environments[j]).name),
        )
}

/// Environments with names of their own, and new ones, are taken in behind those that are there,
/// with all variables.
pub proof fn law_environments_are_carried(
    known: Seq<EnvironmentView>,
    environments: Seq<EnvironmentView>,
    ids: Seq<Seq<char>>,
)
    requires
        have_own_names(environments),
        have_new_names(known, environments),
    ensures
        ({
            let after = import::environments_taken_in(known, carried(environments), ids);
            &&& after.environments.len() == known.len() + environments.len()
            &&& after.added == environments.len()
            &&& known.is_prefix_of(after.environments)
            &&& forall|i: int|
                0 <= i < environments.len() ==> {
                    let found = after.environments[known.len() + i];
                    &&& found.name == text::trim((#[trigger] environments[i]).name)
                    &&& found.variables == environments[i].variables
                }
        }),
    decreases environments.len(),
{
    let incoming = carried(environments);
    if environments.len() > 0 {
        let rest = environments.drop_last();
        assert forall|i: int| 0 <= i < rest.len() implies !text::is_blank(
            (#[trigger] rest[i]).name,
        ) by {
            assert(rest[i] == environments[i]);
        }
        assert forall|i: int, j: int| 0 <= i < j < rest.len() implies !text::same_ignoring_case(
            text::trim((#[trigger] rest[i]).name),
            text::trim((#[trigger] rest[j]).name),
        ) by {
            assert(rest[i] == environments[i] && rest[j] == environments[j]);
        }
        assert forall|i: int, j: int|
            0 <= i < known.len() && 0 <= j < rest.len() implies !text::same_ignoring_case(
            (#[trigger] known[i]).name,
            text::trim((#[trigger] rest[j]).name),
        ) by {
            assert(rest[j] == environments[j]);
        }
        law_environments_are_carried(known, rest, ids);
        assert(incoming.drop_last() =~= carried(rest));
        let before = import::environments_taken_in(known, carried(rest), ids);
        let last = environments.last();
        assert(last == environments[environments.len() - 1]);
        let name = text::trim(last.name);
        assert forall|i: int| 0 <= i < before.environments.len() implies !text::same_ignoring_case(
            (#[trigger] before.environments[i]).name,
            name,
        ) by {
            if i < known.len() {
                assert(before.environments[i] == known[i]);
            } else {
                let j = i - known.len();
                assert(before.environments[known.len() + j].name == text::trim(rest[j].name));
                assert(rest[j] == environments[j]);
            }
        }
        lemma_not_named(before.environments, name);
        let after = import::environments_taken_in(known, incoming, ids);
        assert forall|i: int| 0 <= i < environments.len() implies {
            let found = after.environments[known.len() + i];
            &&& found.name == text::trim((#[trigger] environments[i]).name)
            &&& found.variables == environments[i].variables
        } by {
            if i < rest.len() {
                assert(rest[i] == environments[i]);
                assert(after.environments[known.len() + i] == before.environments[known.len() + i]);
            }
        }
    }
}

/// Whether the requests are known by different keys, and none by that of one that is there.
pub open spec fn have_own_keys(known: Seq<EndpointView>, endpoints: Seq<EndpointView>) -> bool {
    &&& forall|i: int, j: int|
        0 <= i < known.len() && 0 <= j < endpoints.len() ==> merge::dedup_key(#[trigger] known[i])
            != merge::dedup_key(#[trigger] endpoints[j])
    &&& forall|i: int, j: int|
        0 <= i < j < endpoints.len() ==> merge::dedup_key(#[trigger] endpoints[i])
            != merge::dedup_key(#[trigger] endpoints[j])
}

/// Whether the requests have ids of their own, and none that of one that is there.
pub open spec fn have_own_ids(known: Seq<EndpointView>, endpoints: Seq<EndpointView>) -> bool {
    &&& forall|i: int|
        0 <= i < endpoints.len() ==> !text::is_blank((#[trigger] endpoints[i]).id)
    &&& forall|i: int, j: int|
        0 <= i < known.len() && 0 <= j < endpoints.len() ==> (#[trigger] known[i]).id
            != text::trim((#[trigger] endpoints[j]).id)
    &&& forall|i: int, j: int|
        0 <= i < j < endpoints.len() ==> (#[trigger] endpoints[i]).id != text::trim(
            (#[trigger] endpoints[j]).id,
        )
}

/// A workspace is carried to another one where its requests are in order and known by keys of
/// their own, and its environments have names of their own. All requests come behind those that
/// are there, in the same order, under fresh ids where theirs are blank or taken; so do all
/// environments, with their names and variables. A workspace without requests and environments
/// then has those of the source, and ids of their own are kept.
pub proof fn law_workspace_is_carried(
    source: WorkspaceView,
    before: WorkspaceView,
    after: WorkspaceView,
    summary: ImportSummary,
    now: u64,
)
    requires
        forall|i: int|
            0 <= i < source.saved_endpoints.len() ==> is_in_order(
                #[trigger] source.saved_endpoints[i],
            ),
        have_own_keys(before.saved_endpoints, source.saved_endpoints),
        have_own_names(source.environments),
        have_new_names(before.environments, source.environments),
        is_payload_import(before, after, shared_payload(source), summary, now),
    ensures
        after.saved_endpoints.len() == before.saved_endpoints.len() + source.saved_endpoints.len(),
        before.saved_endpoints.is_prefix_of(after.saved_endpoints),
        forall|i: int|
            0 <= i < source.saved_endpoints.len() ==> {
                let shared = #[trigger] source.saved_endpoints[i];
                let added = after.saved_endpoints.skip(before.saved_endpoints.len() as int);
                &&& added[i] == (EndpointView { id: added[i].id, ..shared })
                &&& if needs_id(shared.id, before.saved_endpoints, added.take(i)) {
                    defaults::is_id(added[i].id, "ep"@)
                } else {
                    added[i].id == shared.id
                }
            },
        have_own_ids(before.saved_endpoints, source.saved_endpoints) ==> after.saved_endpoints
            == before.saved_endpoints + source.saved_endpoints,
        after.environments.len() == before.environments.len() + source.environments.len(),
        before.environments.is_prefix_of(after.environments),
        forall|i: int|
            0 <= i < source.environments.len() ==> {
                let found = after.environments[before.environments.len() + i];
                &&& found.name == text::trim((#[trigger] source.environments[i]).name)
                &&& found.variables == source.environments[i].variables
            },
        summary.endpoints_added == source.saved_endpoints.len(),
        summary.endpoints_updated == 0,
        summary.environments_added == source.environments.len(),
{
    let payload = shared_payload(source);
    let shared = source.saved_endpoints;
    let known = before.saved_endpoints;
    let taken = choose|taken: Seq<EndpointView>|
        #[trigger] are_received(taken, payload.endpoints, known) && import::is_import(
            before,
            after,
            payload_scan(taken, payload.environments),
            summary,
            now,
        );
    let scan = payload_scan(taken, payload.environments);
    let scanned = import::scanned_endpoints(scan);
    assert forall|i: int| 0 <= i < taken.len() implies {
        &&& #[trigger] taken[i] == (EndpointView { id: taken[i].id, ..shared[i] })
        &&& storage::filed(taken[i]) == taken[i]
        &&& merge::dedup_key(taken[i]) == merge::dedup_key(shared[i])
        &&& scanned[i] == taken[i]
    } by {
        law_request_is_carried(shared[i], taken[i].id);
        import::lemma_nothing_is_looked_up(taken[i]);
    }
    assert(scanned =~= taken);
    assert(import::all_filed(taken) =~= taken);
    import::law_new_requests_are_added(known, taken);
    assert(scan.environments =~= carried(source.environments));
    law_environments_are_carried(
        before.environments,
        source.environments,
        import::new_ids(after.environments, before.environments.len()),
    );
    assert(after.saved_endpoints == known + taken);
    assert(after.saved_endpoints.skip(known.len() as int) =~= taken);
    if have_own_ids(known, shared) {
        lemma_ids_are_kept(known, taken, shared, shared.len() as int);
        assert(taken =~= shared);
    }
}

/// The first requests with ids of their own keep them.
proof fn lemma_ids_are_kept(
    known: Seq<EndpointView>,
    taken: Seq<EndpointView>,
    shared: Seq<EndpointView>,
    n: int,
)
    requires
        0 <= n <= shared.len(),
        are_received(taken, shared, known),
        have_own_ids(known, shared),
    ensures
        forall|i: int| 0 <= i < n ==> (#[trigger] taken[i]).id == shared[i].id,
    decreases n,
{
    if n > 0 {
        lemma_ids_are_kept(known, taken, shared, n - 1);
        let earlier = known + taken.take(n - 1);
        let id = text::trim(shared[n - 1].id);
        lemma_ids_of(earlier, id);
        if ids_of(earlier).contains(id) {
            let i = choose|i: int| 0 <= i < earlier.len() && (#[trigger] earlier[i]).id == id;
            if i < known.len() {
                assert(earlier[i] == known[i]);
                assert(known[i].id != text::trim(shared[n - 1].id));
            } else {
                assert(earlier[i] == taken[i - known.len()]);
                assert(shared[i - known.len()].id != text::trim(shared[n - 1].id));
            }
        }
        assert(taken[n - 1].id == shared[n - 1].id);
    }
}

/// What is said of an export.
pub fn exported_message(endpoints: usize, environments: usize, path: &str) -> (r: String)
    ensures
        r@ == "Exported "@ + text::decimal(endpoints as nat) + " endpoints and "@ + text::decimal(
            environments as nat,
        ) + " environments to "@ + path@,
{
    let counts = concat5(
        "Exported ",
        decimal_text(endpoints as u64).as_str(),
        " endpoints and ",
        decimal_text(environments as u64).as_str(),
        " environments to ",
    );
    concat2(counts.as_str(), path)
}

/// A request that comes in a bundle says what it said, under the id that it gets, in its
/// collection and folders.
pub proof fn law_received_request_says_the_same(endpoint: EndpointView, id: Seq<char>)
    ensures
        ({
            let after = received(endpoint, id);
            &&& after.id == id
            &&& after.name == endpoint.name
            &&& after.method == endpoint.method
            &&& after.headers == endpoint.headers
            &&& after.body == endpoint.body
            &&& after.scripts == endpoint.scripts
            &&& after.source_request_id == endpoint.source_request_id
            &&& after.folder_path == text::join(folders::folder_names(endpoint.folder_path), " / "@)
            &&& text::is_blank(endpoint.collection) ==> after.collection == "General"@
            &&& !text::is_blank(endpoint.collection) ==> after.collection == text::trim(
                endpoint.collection,
            )
        }),
{
}

/// A request gets a new id where it has none, or where one that is saved or came before it has the
/// same.
pub proof fn law_ids_are_not_shared(
    id: Seq<char>,
    known: Seq<EndpointView>,
    earlier: Seq<EndpointView>,
)
    ensures
        needs_id(id, known, earlier) <==> text::is_blank(id) || (exists|i: int|
            0 <= i < known.len() && (#[trigger] known[i]).id == text::trim(id)) || (exists|i: int|
            0 <= i < earlier.len() && (#[trigger] earlier[i]).id == text::trim(id)),
{
    let all = known + earlier;
    let own = text::trim(id);
    lemma_ids_of(all, own);
    if exists|i: int| 0 <= i < known.len() && (#[trigger] known[i]).id == own {
        let i = choose|i: int| 0 <= i < known.len() && (#[trigger] known[i]).id == own;
        assert(all[i] == known[i]);
    }
    if exists|i: int| 0 <= i < earlier.len() && (#[trigger] earlier[i]).id == own {
        let i = choose|i: int| 0 <= i < earlier.len() && (#[trigger] earlier[i]).id == own;
        assert(all[known.len() + i] == earlier[i]);
    }
    if exists|i: int| 0 <= i < all.len() && (#[trigger] all[i]).id == own {
        let i = choose|i: int| 0 <= i < all.len() && (#[trigger] all[i]).id == own;
        if i < known.len() {
            assert(known[i].id == own);
        } else {
            assert(earlier[i - known.len()].id == own);
        }
    }
}

proof fn lemma_ids_of(endpoints: Seq<EndpointView>, id: Seq<char>)
    ensures
        ids_of(endpoints).contains(id) <==> exists|i: int|
            0 <= i < endpoints.len() && (#[trigger] endpoints[i]).id == id,
    decreases endpoints.len(),
{
    if endpoints.len() > 0 {
        let rest = endpoints.drop_last();
        lemma_ids_of(rest, id);
        assert(endpoints[endpoints.len() - 1] == endpoints.last());
        if exists|i: int| 0 <= i < rest.len() && (#[trigger] rest[i]).id == id {
            let i = choose|i: int| 0 <= i < rest.len() && (#[trigger] rest[i]).id == id;
            assert(endpoints[i] == rest[i]);
        }
        if exists|i: int| 0 <= i < endpoints.len() && (#[trigger] endpoints[i]).id == id {
            let i = choose|i: int| 0 <= i < endpoints.len() && (#[trigger] endpoints[i]).id == id;
            if i < rest.len() {
                assert(rest[i].id == id);
            }
        }
    }
}

} // verus!
