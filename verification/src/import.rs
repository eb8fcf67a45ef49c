//! Merging what was found elsewhere into a workspace.
use crate::defaults;
use crate::defaults::create_id;
use crate::folders;
use crate::folders::{resolve_folder_path_from_lookup, FolderView, ImportedFolderMeta};
use crate::merge;
use crate::merge::{endpoint_dedup_key, merge_endpoint_details};
use crate::models::{Endpoint, EndpointView, Environment, EnvironmentView, KeyValue};
use crate::postman_cache::{ImportScanResult, ScanView};
use crate::postman_export::{ImportedEnvironment, ImportedEnvironmentView};
use crate::requests;
use crate::storage;
use crate::storage::file_endpoint;
use crate::table::{TextMap, TextSet};
use crate::text;
use crate::text::{
    blank, concat2, concat5, decimal_text, eq_ignore_case, non_empty_trimmed, same_text, to_lower,
    trimmed,
};
use crate::workspace;
use crate::workspace::{Workspace, WorkspaceView};
use vstd::prelude::*;

verus! {

// ---------------------------------------------------------------------------
// What an import came to
// ---------------------------------------------------------------------------

/// What an import came to.
#[derive(Clone, Copy, Debug, PartialEq, Eq, Structural)]
pub struct ImportSummary {
    pub directories_scanned: usize,
    pub files_scanned: usize,
    pub endpoints_added: usize,
    pub endpoints_updated: usize,
    pub environments_added: usize,
    pub environment_variables_merged: usize,
}

/// Whether an import changed anything.
pub open spec fn changed_anything(summary: ImportSummary) -> bool {
    summary.endpoints_added > 0 || summary.endpoints_updated > 0 || summary.environments_added > 0
        || summary.environment_variables_merged > 0
}

pub open spec fn summary_text(summary: ImportSummary) -> Seq<char> {
    "Postman import: scanned "@ + text::decimal(summary.directories_scanned as nat) + " dirs / "@
        + text::decimal(summary.files_scanned as nat) + " files, added "@ + text::decimal(
        summary.endpoints_added as nat,
    ) + " endpoints, updated "@ + text::decimal(summary.endpoints_updated as nat)
        + " existing endpoints, added "@ + text::decimal(summary.environments_added as nat)
        + " environments, merged "@ + text::decimal(summary.environment_variables_merged as nat)
        + " environment vars."@
}

pub open spec fn bundle_text(summary: ImportSummary) -> Seq<char> {
    "Imported: "@ + text::decimal(summary.endpoints_added as nat) + " endpoints added, "@
        + text::decimal(summary.endpoints_updated as nat) + " updated, "@ + text::decimal(
        summary.environments_added as nat,
    ) + " environments, "@ + text::decimal(summary.environment_variables_merged as nat)
        + " env vars merged."@
}

/// The sum of two counts, where it fits.
pub open spec fn counted(a: usize, b: usize) -> Option<usize> {
    if a + b <= usize::MAX {
        Some((a + b) as usize)
    } else {
        None
    }
}

impl Default for ImportSummary {
    fn default() -> (r: Self)
        ensures
            r == (ImportSummary {
                directories_scanned: 0,
                files_scanned: 0,
                endpoints_added: 0,
                endpoints_updated: 0,
                environments_added: 0,
                environment_variables_merged: 0,
            }),
    {
        ImportSummary {
            directories_scanned: 0,
            files_scanned: 0,
            endpoints_added: 0,
            endpoints_updated: 0,
            environments_added: 0,
            environment_variables_merged: 0,
        }
    }
}

impl ImportSummary {
    pub fn to_message(&self) -> (r: String)
        ensures
            r@ == summary_text(*self),
    {
        let scanned = concat5(
            "Postman import: scanned ",
            decimal_text(self.directories_scanned as u64).as_str(),
            " dirs / ",
            decimal_text(self.files_scanned as u64).as_str(),
            " files, added ",
        );
        let endpoints = concat5(
            scanned.as_str(),
            decimal_text(self.endpoints_added as u64).as_str(),
            " endpoints, updated ",
            decimal_text(self.endpoints_updated as u64).as_str(),
            " existing endpoints, added ",
        );
        concat5(
            endpoints.as_str(),
            decimal_text(self.environments_added as u64).as_str(),
            " environments, merged ",
            decimal_text(self.environment_variables_merged as u64).as_str(),
            " environment vars.",
        )
    }

    /// What is said of an import from a bundle.
    pub fn to_bundle_message(&self) -> (r: String)
        ensures
            r@ == bundle_text(*self),
    {
        let endpoints = concat5(
            "Imported: ",
            decimal_text(self.endpoints_added as u64).as_str(),
            " endpoints added, ",
            decimal_text(self.endpoints_updated as u64).as_str(),
            " updated, ",
        );
        concat5(
            endpoints.as_str(),
            decimal_text(self.environments_added as u64).as_str(),
            " environments, ",
            decimal_text(self.environment_variables_merged as u64).as_str(),
            " env vars merged.",
        )
    }

    /// Whether the import changed anything.
    pub fn changed_anything(&self) -> (r: bool)
        ensures
            r == changed_anything(*self),
    {
        self.endpoints_added > 0 || self.endpoints_updated > 0 || self.environments_added > 0
            || self.environment_variables_merged > 0
    }

    /// Both imports taken together, but for the directories; `None` where a count does not fit.
    pub fn plus(&self, other: &ImportSummary) -> (r: Option<ImportSummary>)
        ensures
            match r {
                Some(sum) => {
                    &&& sum.directories_scanned == self.directories_scanned
                    &&& sum.files_scanned == self.files_scanned + other.files_scanned
                    &&& sum.endpoints_added == self.endpoints_added + other.endpoints_added
                    &&& sum.endpoints_updated == self.endpoints_updated + other.endpoints_updated
                    &&& sum.environments_added == self.environments_added
                        + other.environments_added
                    &&& sum.environment_variables_merged == self.environment_variables_merged
                        + other.environment_variables_merged
                },
                None => {
                    ||| counted(self.files_scanned, other.files_scanned) is None
                    ||| counted(self.endpoints_added, other.endpoints_added) is None
                    ||| counted(self.endpoints_updated, other.endpoints_updated) is None
                    ||| counted(self.environments_added, other.environments_added) is None
                    ||| counted(
                        self.environment_variables_merged,
                        other.environment_variables_merged,
                    ) is None
                },
            },
    {
        match (
            self.files_scanned.checked_add(other.files_scanned),
            self.endpoints_added.checked_add(other.endpoints_added),
            self.endpoints_updated.checked_add(other.endpoints_updated),
            self.environments_added.checked_add(other.environments_added),
            self.environment_variables_merged.checked_add(other.environment_variables_merged),
        ) {
            (
                Some(files_scanned),
                Some(endpoints_added),
                Some(endpoints_updated),
                Some(environments_added),
                Some(environment_variables_merged),
            ) => Some(
                ImportSummary {
                    directories_scanned: self.directories_scanned,
                    files_scanned,
                    endpoints_added,
                    endpoints_updated,
                    environments_added,
                    environment_variables_merged,
                },
            ),
            _ => None,
        }
    }

    /// Whether an import by workspace is to be tried again with everything: it was one, and
    /// changed nothing.
    pub fn needs_unfiltered_scan(&self, filtered: bool) -> (r: bool)
        ensures
            r == (filtered && !changed_anything(*self)),
    {
        filtered && !self.changed_anything()
    }
}

// ---------------------------------------------------------------------------
// Requests
// ---------------------------------------------------------------------------

/// The request with its collection and folder looked up, as far as it does not state them.
pub open spec fn looked_up(
    endpoint: EndpointView,
    collections: Map<Seq<char>, Seq<char>>,
    folders_by_id: Map<Seq<char>, FolderView>,
) -> EndpointView {
    let source = text::trim(endpoint.source_collection_id);
    EndpointView {
        collection: if merge::is_uncollected(endpoint.collection) && collections.dom().contains(
            source,
        ) {
            collections[source]
        } else {
            endpoint.collection
        },
        folder_path: if text::is_blank(endpoint.folder_path) {
            match folders::looked_up_path(text::trim(endpoint.source_folder_id), folders_by_id) {
                Some(path) => path,
                None => endpoint.folder_path,
            }
        } else {
            endpoint.folder_path
        },
        ..endpoint
    }
}

/// Where nothing is known of collections and folders, a request stays as it is.
pub proof fn lemma_nothing_is_looked_up(endpoint: EndpointView)
    ensures
        looked_up(endpoint, Map::empty(), Map::empty()) == endpoint,
{
}

fn look_up(
    endpoint: &mut Endpoint,
    collections: &TextMap<String>,
    folders_by_id: &TextMap<ImportedFolderMeta>,
)
    ensures
        final(endpoint)@ == looked_up(old(endpoint)@, collections@, folders_by_id@),
{
    let stated = trimmed(endpoint.collection.as_str());
    if stated.as_str().is_empty() || same_text(stated.as_str(), "General") {
        match collections.get(trimmed(endpoint.source_collection_id.as_str()).as_str()) {
            Some(name) => {
                endpoint.collection = name.clone();
            },
            None => {},
        }
    }
    if blank(endpoint.folder_path.as_str()) {
        match resolve_folder_path_from_lookup(
            trimmed(endpoint.source_folder_id.as_str()).as_str(),
            folders_by_id,
        ) {
            Some(path) => {
                endpoint.folder_path = path;
            },
            None => {},
        }
    }
}

/// Where a key last stands; -1 where it does not.
pub open spec fn last_key(keys: Seq<Seq<char>>, key: Seq<char>) -> int
    decreases keys.len(),
{
    if keys.len() == 0 {
        -1
    } else if keys.last() == key {
        keys.len() - 1
    } else {
        last_key(keys.drop_last(), key)
    }
}

/// Requests during an import: those of the workspace, what each is known by, and how many were
/// added and changed.
#[verifier::ext_equal]
pub struct MergeView {
    pub endpoints: Seq<EndpointView>,
    pub keys: Seq<Seq<char>>,
    pub added: nat,
    pub updated: nat,
}

/// What the requests are known by.
pub open spec fn dedup_keys(endpoints: Seq<EndpointView>) -> Seq<Seq<char>> {
    endpoints.map_values(|endpoint: EndpointView| merge::dedup_key(endpoint))
}

/// Requests before an import.
pub open spec fn merge_start(endpoints: Seq<EndpointView>) -> MergeView {
    MergeView { endpoints, keys: dedup_keys(endpoints), added: 0, updated: 0 }
}

/// One more request is taken in: merged into the one that is known by the same, or added.
pub open spec fn taken_in(before: MergeView, incoming: EndpointView) -> MergeView {
    let endpoint = storage::filed(incoming);
    let key = merge::dedup_key(endpoint);
    let at = last_key(before.keys, key);
    if 0 <= at < before.endpoints.len() {
        let known = before.endpoints[at];
        let after = merge::merged(known, endpoint);
        MergeView {
            endpoints: before.endpoints.update(at, after),
            updated: if after != known {
                before.updated + 1
            } else {
                before.updated
            },
            ..before
        }
    } else {
        MergeView {
            endpoints: before.endpoints.push(endpoint),
            keys: before.keys.push(key),
            added: before.added + 1,
            ..before
        }
    }
}

/// All requests are taken in, one after the other.
pub open spec fn all_taken_in(before: MergeView, incoming: Seq<EndpointView>) -> MergeView
    decreases incoming.len(),
{
    if incoming.len() == 0 {
        before
    } else {
        taken_in(all_taken_in(before, incoming.drop_last()), incoming.last())
    }
}

proof fn lemma_last_key(keys: Seq<Seq<char>>, key: Seq<char>)
    ensures
        -1 <= last_key(keys, key) < keys.len(),
        last_key(keys, key) >= 0 ==> keys[last_key(keys, key)] == key,
        last_key(keys, key) < 0 ==> !keys.contains(key),
    decreases keys.len(),
{
    if keys.len() > 0 && keys.last() != key {
        let rest = keys.drop_last();
        lemma_last_key(rest, key);
        if last_key(keys, key) < 0 && keys.contains(key) {
            let i = choose|i: int| 0 <= i < keys.len() && keys[i] == key;
            assert(rest[i] == key);
        }
    }
}

fn find_key(keys: &Vec<String>, key: &str) -> (r: Option<usize>)
    ensures
        match r {
            Some(i) => i < keys@.len() && i == last_key(text::views(keys@), key@),
            None => last_key(text::views(keys@), key@) == -1,
        },
{
    let ghost all = text::views(keys@);
    let mut i: usize = keys.len();
    assert(all.take(i as int) =~= all);
    while i > 0
        invariant
            i <= keys@.len(),
            all == text::views(keys@),
            last_key(all, key@) == last_key(all.take(i as int), key@),
        decreases i,
    {
        i -= 1;
        proof {
            assert(all.take(i + 1).last() == keys@[i as int]@);
            assert(all.take(i + 1).drop_last() =~= all.take(i as int));
        }
        if same_text(keys[i].as_str(), key) {
            return Some(i);
        }
    }
    None
}

fn keys_of(endpoints: &Vec<Endpoint>) -> (r: Vec<String>)
    ensures
        text::views(r@) == dedup_keys(text::views(endpoints@)),
{
    let mut r: Vec<String> = Vec::new();
    let mut i: usize = 0;
    while i < endpoints.len()
        invariant
            i <= endpoints@.len(),
            r@.len() == i,
            forall|j: int|
                0 <= j < i ==> (#[trigger] r@[j])@ == merge::dedup_key(endpoints@[j]@),
        decreases endpoints@.len() - i,
    {
        r.push(endpoint_dedup_key(&endpoints[i]));
        i += 1;
    }
    assert(text::views(r@) =~= dedup_keys(text::views(endpoints@)));
    r
}

/// Takes requests in, and says how many were added and how many changed.
pub fn merge_endpoints(
    endpoints: &mut Vec<Endpoint>,
    incoming: Vec<Endpoint>,
    collections: &TextMap<String>,
    folders_by_id: &TextMap<ImportedFolderMeta>,
) -> (r: (usize, usize))
    ensures
        ({
            let after = all_taken_in(
                merge_start(text::views(old(endpoints)@)),
                text::views(incoming@).map_values(
                    |endpoint: EndpointView|
                        looked_up(endpoint, collections@, folders_by_id@),
                ),
            );
            &&& text::views(final(endpoints)@) == after.endpoints
            &&& r.0 == after.added
            &&& r.1 == after.updated
        }),
{
    let ghost start = merge_start(text::views(endpoints@));
    let ghost given = incoming@;
    let ghost all = text::views(given).map_values(
        |endpoint: EndpointView| looked_up(endpoint, collections@, folders_by_id@),
    );
    let mut keys = keys_of(endpoints);
    let mut added: usize = 0;
    let mut updated: usize = 0;
    assert(given.len() == incoming.len());
    assert(text::views(keys@).len() == text::views(endpoints@).len());
    for endpoint in it: incoming
        invariant
            it.seq() == given,
            it.index() <= given.len(),
            given.len() <= usize::MAX,
            all == text::views(given).map_values(
                |endpoint: EndpointView| looked_up(endpoint, collections@, folders_by_id@),
            ),
            endpoints@.len() == keys@.len(),
            added <= it.index(),
            updated <= it.index(),
            all_taken_in(start, all.take(it.index() as int)) == (MergeView {
                endpoints: text::views(endpoints@),
                keys: text::views(keys@),
                added: added as nat,
                updated: updated as nat,
            }),
    {
        let ghost n = it.index() as int;
        proof {
            assert(endpoint == given[n]);
            assert(all.take(n + 1).drop_last() =~= all.take(n));
            assert(all.take(n + 1).last() == looked_up(
                endpoint@,
                collections@,
                folders_by_id@,
            ));
        }
        let mut endpoint = endpoint;
        look_up(&mut endpoint, collections, folders_by_id);
        file_endpoint(&mut endpoint);
        let key = endpoint_dedup_key(&endpoint);
        match find_key(&keys, key.as_str()) {
            Some(i) => {
                let ghost before = endpoints@;
                let mut known = endpoints.remove(i);
                if merge_endpoint_details(&mut known, endpoint) {
                    updated += 1;
                }
                endpoints.insert(i, known);
                assert(endpoints@ =~= before.update(i as int, known));
                proof {
                    text::lemma_views_update(before, i as int, known);
                }
            },
            None => {
                proof {
                    text::lemma_views_push(keys@, key);
                    text::lemma_views_push(endpoints@, endpoint);
                }
                keys.push(key);
                endpoints.push(endpoint);
                added += 1;
            },
        }
    }
    assert(all.take(all.len() as int) =~= all);
    (added, updated)
}

proof fn lemma_taken_in_keeps(before: MergeView, incoming: Seq<EndpointView>, i: int)
    requires
        before.endpoints.len() == before.keys.len(),
        0 <= i < before.endpoints.len(),
    ensures
        ({
            let after = all_taken_in(before, incoming);
            &&& after.endpoints.len() == after.keys.len()
            &&& after.endpoints.len() + before.added == before.endpoints.len() + after.added
            &&& after.endpoints.len() >= before.endpoints.len()
            &&& after.endpoints[i].id == before.endpoints[i].id
            &&& after.endpoints[i].name == before.endpoints[i].name
            &&& after.endpoints[i].method == before.endpoints[i].method
            &&& after.endpoints[i].scripts == before.endpoints[i].scripts
            &&& before.endpoints[i].headers.is_prefix_of(after.endpoints[i].headers)
            &&& !text::is_blank(before.endpoints[i].body) ==> after.endpoints[i].body
                == before.endpoints[i].body
        }),
    decreases incoming.len(),
{
    if incoming.len() > 0 {
        lemma_taken_in_keeps(before, incoming.drop_last(), i);
        let middle = all_taken_in(before, incoming.drop_last());
        let endpoint = storage::filed(incoming.last());
        let at = last_key(middle.keys, merge::dedup_key(endpoint));
        if 0 <= at < middle.endpoints.len() {
            merge::law_merge_fills_gaps_only(middle.endpoints[at], endpoint);
        }
    }
}

/// An import loses no request and overwrites none: every one stays in its place, under its id,
/// name and method, with its headers, its rules, and its body where it has one.
pub proof fn law_import_keeps_requests(
    endpoints: Seq<EndpointView>,
    incoming: Seq<EndpointView>,
    i: int,
)
    requires
        0 <= i < endpoints.len(),
    ensures
        ({
            let after = all_taken_in(merge_start(endpoints), incoming);
            &&& after.endpoints.len() == endpoints.len() + after.added
            &&& after.endpoints[i].id == endpoints[i].id
            &&& after.endpoints[i].name == endpoints[i].name
            &&& after.endpoints[i].method == endpoints[i].method
            &&& after.endpoints[i].scripts == endpoints[i].scripts
            &&& endpoints[i].headers.is_prefix_of(after.endpoints[i].headers)
            &&& !text::is_blank(endpoints[i].body) ==> after.endpoints[i].body
                == endpoints[i].body
        }),
{
    lemma_taken_in_keeps(merge_start(endpoints), incoming, i);
}

/// Whether the requests are all new, and different from one another.
pub open spec fn are_new(endpoints: Seq<EndpointView>, incoming: Seq<EndpointView>) -> bool {
    &&& forall|i: int, j: int|
        0 <= i < endpoints.len() && 0 <= j < incoming.len() ==> merge::dedup_key(
            #[trigger] endpoints[i],
        ) != merge::dedup_key(storage::filed(#[trigger] incoming[j]))
    &&& forall|i: int, j: int|
        0 <= i < j < incoming.len() ==> merge::dedup_key(storage::filed(#[trigger] incoming[i]))
            != merge::dedup_key(storage::filed(#[trigger] incoming[j]))
}

pub open spec fn all_filed(endpoints: Seq<EndpointView>) -> Seq<EndpointView> {
    endpoints.map_values(|endpoint: EndpointView| storage::filed(endpoint))
}

proof fn lemma_new_are_added(endpoints: Seq<EndpointView>, incoming: Seq<EndpointView>)
    requires
        are_new(endpoints, incoming),
    ensures
        all_taken_in(merge_start(endpoints), incoming) == (MergeView {
            endpoints: endpoints + all_filed(incoming),
            keys: dedup_keys(endpoints + all_filed(incoming)),
            added: incoming.len(),
            updated: 0,
        }),
    decreases incoming.len(),
{
    if incoming.len() == 0 {
        assert(endpoints + all_filed(incoming) =~= endpoints);
    } else {
        let rest = incoming.drop_last();
        assert forall|i: int, j: int|
            0 <= i < endpoints.len() && 0 <= j < rest.len() implies merge::dedup_key(
            #[trigger] endpoints[i],
        ) != merge::dedup_key(storage::filed(#[trigger] rest[j])) by {
            assert(rest[j] == incoming[j]);
        }
        assert forall|i: int, j: int| 0 <= i < j < rest.len() implies merge::dedup_key(
            storage::filed(#[trigger] rest[i]),
        ) != merge::dedup_key(storage::filed(#[trigger] rest[j])) by {
            assert(rest[i] == incoming[i] && rest[j] == incoming[j]);
        }
        lemma_new_are_added(endpoints, rest);
        let before = all_taken_in(merge_start(endpoints), rest);
        let endpoint = storage::filed(incoming.last());
        let key = merge::dedup_key(endpoint);
        lemma_last_key(before.keys, key);
        let at = last_key(before.keys, key);
        if at >= 0 {
            let all = endpoints + all_filed(rest);
            assert(before.keys[at] == merge::dedup_key(all[at]));
            assert(incoming[incoming.len() - 1] == incoming.last());
            if at < endpoints.len() {
                assert(all[at] == endpoints[at]);
            } else {
                let j = at - endpoints.len();
                assert(all[at] == storage::filed(rest[j]));
                assert(rest[j] == incoming[j]);
            }
        }
        let after = taken_in(before, incoming.last());
        assert(after.endpoints =~= endpoints + all_filed(incoming));
        assert(after.keys =~= dedup_keys(endpoints + all_filed(incoming)));
    }
}

/// Requests that are not known yet are added, all of them and behind those that are there.
pub proof fn law_new_requests_are_added(endpoints: Seq<EndpointView>, incoming: Seq<EndpointView>)
    requires
        are_new(endpoints, incoming),
    ensures
        ({
            let after = all_taken_in(merge_start(endpoints), incoming);
            &&& after.endpoints == endpoints + all_filed(incoming)
            &&& after.added == incoming.len()
            &&& after.updated == 0
        }),
{
    lemma_new_are_added(endpoints, incoming);
}

/// Whether requests that are known by the same are the same in every part.
pub open spec fn tells_apart(endpoints: Seq<EndpointView>) -> bool {
    forall|i: int, j: int|
        0 <= i < endpoints.len() && 0 <= j < endpoints.len() && merge::dedup_key(
            #[trigger] endpoints[i],
        ) == merge::dedup_key(#[trigger] endpoints[j]) ==> merge::same_identity(
            endpoints[i],
            endpoints[j],
        )
}

/// Whether the request is, by its identity, one of these.
spec fn is_among(endpoint: EndpointView, all: Seq<EndpointView>) -> bool {
    exists|k: int| 0 <= k < all.len() && merge::same_identity(endpoint, #[trigger] all[k])
}

/// Whether a request that was taken in is found again and has nothing to add.
spec fn is_settled(state: MergeView, endpoint: EndpointView) -> bool {
    let at = last_key(state.keys, merge::dedup_key(endpoint));
    0 <= at < state.endpoints.len() && merge::merged(state.endpoints[at], endpoint)
        == state.endpoints[at]
}

/// What holds during an import once `n` requests were taken in.
spec fn is_underway(
    state: MergeView,
    all: Seq<EndpointView>,
    incoming: Seq<EndpointView>,
    n: int,
) -> bool {
    &&& state.keys == dedup_keys(state.endpoints)
    &&& forall|i: int|
        0 <= i < state.endpoints.len() ==> is_among(#[trigger] state.endpoints[i], all)
    &&& forall|j: int| 0 <= j < n ==> is_settled(state, storage::filed(#[trigger] incoming[j]))
}

proof fn lemma_found_is_the_same(
    known: EndpointView,
    endpoint: EndpointView,
    all: Seq<EndpointView>,
)
    requires
        tells_apart(all),
        is_among(known, all),
        all.contains(endpoint),
        merge::dedup_key(known) == merge::dedup_key(endpoint),
    ensures
        merge::same_identity(known, endpoint),
{
    let k = choose|k: int| 0 <= k < all.len() && merge::same_identity(known, #[trigger] all[k]);
    let j = choose|j: int| 0 <= j < all.len() && all[j] == endpoint;
    assert(merge::dedup_key(all[k]) == merge::dedup_key(known));
    assert(merge::same_identity(all[k], all[j]));
}

proof fn lemma_one_more_underway(
    before: MergeView,
    all: Seq<EndpointView>,
    incoming: Seq<EndpointView>,
    n: int,
)
    requires
        tells_apart(all),
        0 <= n < incoming.len(),
        all.contains(storage::filed(incoming[n])),
        is_underway(before, all, incoming, n),
    ensures
        is_underway(taken_in(before, incoming[n]), all, incoming, n + 1),
{
    let endpoint = storage::filed(incoming[n]);
    let key = merge::dedup_key(endpoint);
    let at = last_key(before.keys, key);
    let after = taken_in(before, incoming[n]);
    lemma_last_key(before.keys, key);
    if at >= 0 {
        let known = before.endpoints[at];
        let changed = merge::merged(known, endpoint);
        assert(before.keys[at] == merge::dedup_key(known));
        assert(is_among(known, all));
        lemma_found_is_the_same(known, endpoint, all);
        merge::law_merge_keeps_identity(known, endpoint);
        assert(dedup_keys(after.endpoints) =~= after.keys);
        assert forall|i: int| 0 <= i < after.endpoints.len() implies is_among(
            #[trigger] after.endpoints[i],
            all,
        ) by {
            assert(is_among(before.endpoints[i], all));
            if i == at {
                let k = choose|k: int|
                    0 <= k < all.len() && merge::same_identity(known, #[trigger] all[k]);
                assert(merge::same_identity(changed, all[k]));
            }
        }
        assert forall|j: int| 0 <= j < n + 1 implies is_settled(
            after,
            storage::filed(#[trigger] incoming[j]),
        ) by {
            let earlier = storage::filed(incoming[j]);
            if j < n {
                assert(is_settled(before, earlier));
                if last_key(before.keys, merge::dedup_key(earlier)) == at {
                    merge::law_merges_do_not_undo_each_other(known, endpoint, earlier);
                }
            } else {
                merge::law_merge_is_done_once(known, endpoint);
            }
        }
    } else {
        assert(dedup_keys(after.endpoints) =~= after.keys);
        assert forall|i: int| 0 <= i < after.endpoints.len() implies is_among(
            #[trigger] after.endpoints[i],
            all,
        ) by {
            if i < before.endpoints.len() {
                assert(is_among(before.endpoints[i], all));
            } else {
                let k = choose|k: int| 0 <= k < all.len() && all[k] == endpoint;
                assert(merge::same_identity(endpoint, all[k]));
            }
        }
        assert forall|j: int| 0 <= j < n + 1 implies is_settled(
            after,
            storage::filed(#[trigger] incoming[j]),
        ) by {
            let earlier = storage::filed(incoming[j]);
            assert(after.keys.drop_last() =~= before.keys);
            if j < n {
                assert(is_settled(before, earlier));
                let place = last_key(before.keys, merge::dedup_key(earlier));
                lemma_last_key(before.keys, merge::dedup_key(earlier));
                assert(before.keys.contains(merge::dedup_key(earlier)));
                assert(after.endpoints[place] == before.endpoints[place]);
            } else {
                merge::law_merge_with_itself(endpoint);
            }
        }
    }
}

proof fn lemma_underway(
    endpoints: Seq<EndpointView>,
    incoming: Seq<EndpointView>,
    n: int,
)
    requires
        0 <= n <= incoming.len(),
        tells_apart(endpoints + all_filed(incoming)),
    ensures
        is_underway(
            all_taken_in(merge_start(endpoints), incoming.take(n)),
            endpoints + all_filed(incoming),
            incoming,
            n,
        ),
    decreases n,
{
    let all = endpoints + all_filed(incoming);
    if n == 0 {
        assert forall|i: int| 0 <= i < endpoints.len() implies is_among(
            #[trigger] endpoints[i],
            all,
        ) by {
            assert(all[i] == endpoints[i]);
            assert(merge::same_identity(endpoints[i], all[i]));
        }
    } else {
        lemma_underway(endpoints, incoming, n - 1);
        let before = all_taken_in(merge_start(endpoints), incoming.take(n - 1));
        assert(incoming.take(n).drop_last() =~= incoming.take(n - 1));
        assert(incoming.take(n).last() == incoming[n - 1]);
        assert(all[endpoints.len() + n - 1] == storage::filed(incoming[n - 1]));
        lemma_one_more_underway(before, all, incoming, n - 1);
    }
}

proof fn lemma_settled_add_nothing(state: MergeView, incoming: Seq<EndpointView>, n: int)
    requires
        0 <= n <= incoming.len(),
        forall|j: int|
            0 <= j < incoming.len() ==> is_settled(state, storage::filed(#[trigger] incoming[j])),
    ensures
        all_taken_in(state, incoming.take(n)) == state,
    decreases n,
{
    if n > 0 {
        lemma_settled_add_nothing(state, incoming, n - 1);
        assert(incoming.take(n).drop_last() =~= incoming.take(n - 1));
        assert(incoming.take(n).last() == incoming[n - 1]);
        let endpoint = storage::filed(incoming[n - 1]);
        assert(is_settled(state, endpoint));
        let at = last_key(state.keys, merge::dedup_key(endpoint));
        assert(state.endpoints.update(at, state.endpoints[at]) =~= state.endpoints);
    }
}

/// Importing the same requests once more changes nothing, wherever what a request is known by
/// tells it apart. (Parts that hold a `|` can be mistaken for others.)
pub proof fn law_import_is_done_once(endpoints: Seq<EndpointView>, incoming: Seq<EndpointView>)
    requires
        tells_apart(endpoints + all_filed(incoming)),
    ensures
        ({
            let once = all_taken_in(merge_start(endpoints), incoming).endpoints;
            let twice = all_taken_in(merge_start(once), incoming);
            &&& twice.endpoints == once
            &&& twice.added == 0
            &&& twice.updated == 0
        }),
{
    let after = all_taken_in(merge_start(endpoints), incoming);
    assert(incoming.take(incoming.len() as int) =~= incoming);
    lemma_underway(endpoints, incoming, incoming.len() as int);
    let start = merge_start(after.endpoints);
    assert forall|j: int| 0 <= j < incoming.len() implies is_settled(
        start,
        storage::filed(#[trigger] incoming[j]),
    ) by {
        assert(is_settled(after, storage::filed(incoming[j])));
    }
    lemma_settled_add_nothing(start, incoming, incoming.len() as int);
}

// ---------------------------------------------------------------------------
// Environments
// ---------------------------------------------------------------------------

/// Variables during an import, and the names, in lower case, that are taken.
#[verifier::ext_equal]
pub struct VariablesView {
    pub variables: Seq<(Seq<char>, Seq<char>)>,
    pub names: Set<Seq<char>>,
    pub added: nat,
}

pub open spec fn names_taken(variables: Seq<(Seq<char>, Seq<char>)>) -> Set<Seq<char>>
    decreases variables.len(),
{
    if variables.len() == 0 {
        Set::empty()
    } else {
        names_taken(variables.drop_last()).insert(text::unicode_lower(variables.last().0))
    }
}

/// The variables with those of the others added whose names are not taken.
pub open spec fn with_variables(
    variables: Seq<(Seq<char>, Seq<char>)>,
    others: Seq<(Seq<char>, Seq<char>)>,
) -> VariablesView
    decreases others.len(),
{
    if others.len() == 0 {
        VariablesView { variables, names: names_taken(variables), added: 0 }
    } else {
        let before = with_variables(variables, others.drop_last());
        let name = text::trim(others.last().0);
        let lower = text::unicode_lower(name);
        if name.len() == 0 || before.names.contains(lower) {
            before
        } else {
            VariablesView {
                variables: before.variables.push(others.last()),
                names: before.names.insert(lower),
                added: before.added + 1,
            }
        }
    }
}

/// Variables are merged without a change to those that are there.
pub proof fn law_merging_keeps_variables(
    variables: Seq<(Seq<char>, Seq<char>)>,
    others: Seq<(Seq<char>, Seq<char>)>,
)
    ensures
        variables.is_prefix_of(with_variables(variables, others).variables),
        with_variables(variables, others).variables.len() == variables.len() + with_variables(
            variables,
            others,
        ).added,
    decreases others.len(),
{
    if others.len() > 0 {
        law_merging_keeps_variables(variables, others.drop_last());
    }
}

fn taken_names(variables: &Vec<KeyValue>) -> (r: TextSet)
    ensures
        r@ == names_taken(text::views(variables@)),
{
    let ghost all = text::views(variables@);
    let mut r = TextSet::new();
    let mut i: usize = 0;
    while i < variables.len()
        invariant
            i <= variables@.len(),
            all == text::views(variables@),
            r@ == names_taken(all.take(i as int)),
        decreases variables@.len() - i,
    {
        proof {
            assert(all.take(i + 1).drop_last() =~= all.take(i as int));
            assert(all.take(i + 1).last() == variables@[i as int]@);
        }
        let _ = r.insert(to_lower(variables[i].key.as_str()));
        i += 1;
    }
    assert(all.take(all.len() as int) =~= all);
    r
}

fn merge_variables(variables: &mut Vec<KeyValue>, others: Vec<KeyValue>) -> (added: usize)
    ensures
        ({
            let after = with_variables(text::views(old(variables)@), text::views(others@));
            &&& text::views(final(variables)@) == after.variables
            &&& added == after.added
            &&& added <= others@.len()
        }),
{
    let ghost start = text::views(variables@);
    let ghost given = others@;
    let ghost all = text::views(given);
    let mut names = taken_names(variables);
    let mut added: usize = 0;
    assert(given.len() == others.len());
    for variable in it: others
        invariant
            it.seq() == given,
            it.index() <= given.len(),
            given.len() <= usize::MAX,
            all == text::views(given),
            added <= it.index(),
            with_variables(start, all.take(it.index() as int)) == (VariablesView {
                variables: text::views(variables@),
                names: names@,
                added: added as nat,
            }),
    {
        let ghost n = it.index() as int;
        proof {
            assert(variable == given[n]);
            assert(all.take(n + 1).drop_last() =~= all.take(n));
            assert(all.take(n + 1).last() == variable@);
            text::lemma_views_push(variables@, variable);
        }
        let name = trimmed(variable.key.as_str());
        if !name.as_str().is_empty() {
            let lower = to_lower(name.as_str());
            if !names.contains(lower.as_str()) {
                let _ = names.insert(lower);
                variables.push(variable);
                added += 1;
            }
        }
    }
    assert(all.take(all.len() as int) =~= all);
    added
}

/// Where the environment with the name first stands, case not counting; their number where there
/// is none.
pub open spec fn named_at(environments: Seq<EnvironmentView>, name: Seq<char>) -> int
    decreases environments.len(),
{
    if environments.len() == 0 || text::same_ignoring_case(environments[0].name, name) {
        0
    } else {
        1 + named_at(environments.drop_first(), name)
    }
}

fn find_named(environments: &Vec<Environment>, name: &str) -> (r: usize)
    ensures
        r == named_at(text::views(environments@), name@),
        r <= environments@.len(),
{
    let ghost all = text::views(environments@);
    let mut i: usize = 0;
    assert(all.skip(0) =~= all);
    while i < environments.len() && !eq_ignore_case(environments[i].name.as_str(), name)
        invariant
            i <= environments@.len(),
            all == text::views(environments@),
            named_at(all, name@) == i + named_at(all.skip(i as int), name@),
        decreases environments@.len() - i,
    {
        assert(all.skip(i as int)[0] == environments@[i as int]@);
        assert(all.skip(i as int).drop_first() =~= all.skip(i + 1));
        i += 1;
    }
    if i < environments.len() {
        assert(all.skip(i as int)[0] == environments@[i as int]@);
    }
    i
}

/// Environments during an import, and how many environments and variables were added.
#[verifier::ext_equal]
pub struct EnvironmentsView {
    pub environments: Seq<EnvironmentView>,
    pub added: nat,
    pub variables_merged: nat,
}

/// All environments are taken in, one after the other: merged into the one with the same name, or
/// added under the next of the ids.
pub open spec fn environments_taken_in(
    environments: Seq<EnvironmentView>,
    incoming: Seq<ImportedEnvironmentView>,
    ids: Seq<Seq<char>>,
) -> EnvironmentsView
    decreases incoming.len(),
{
    if incoming.len() == 0 {
        EnvironmentsView { environments, added: 0, variables_merged: 0 }
    } else {
        let before = environments_taken_in(environments, incoming.drop_last(), ids);
        let name = text::trim(incoming.last().name);
        let at = named_at(before.environments, name);
        if name.len() == 0 {
            before
        } else if at < before.environments.len() {
            let known = before.environments[at];
            let after = with_variables(known.variables, incoming.last().variables);
            EnvironmentsView {
                environments: before.environments.update(
                    at,
                    EnvironmentView { variables: after.variables, ..known },
                ),
                variables_merged: before.variables_merged + after.added,
                ..before
            }
        } else {
            let id = ids[before.added as int];
            EnvironmentsView {
                environments: before.environments.push(
                    EnvironmentView {
                        id,
                        name,
                        file_name: id + ".json"@,
                        variables: incoming.last().variables,
                    },
                ),
                added: before.added + 1,
                ..before
            }
        }
    }
}

/// The ids of the environments behind the first `count`.
pub open spec fn new_ids(environments: Seq<EnvironmentView>, count: nat) -> Seq<Seq<char>> {
    Seq::new(
        (environments.len() - count) as nat,
        |i: int| environments[count + i].id,
    )
}

proof fn lemma_enough_ids(
    environments: Seq<EnvironmentView>,
    incoming: Seq<ImportedEnvironmentView>,
    ids: Seq<Seq<char>>,
    more: Seq<Seq<char>>,
)
    requires
        environments_taken_in(environments, incoming, ids).added <= ids.len(),
        ids.is_prefix_of(more),
    ensures
        environments_taken_in(environments, incoming, ids) == environments_taken_in(
            environments,
            incoming,
            more,
        ),
    decreases incoming.len(),
{
    if incoming.len() > 0 {
        lemma_enough_ids(environments, incoming.drop_last(), ids, more);
    }
}

proof fn lemma_new_ids(
    environments: Seq<EnvironmentView>,
    incoming: Seq<ImportedEnvironmentView>,
    ids: Seq<Seq<char>>,
)
    requires
        environments_taken_in(environments, incoming, ids).added == ids.len(),
    ensures
        ({
            let after = environments_taken_in(environments, incoming, ids).environments;
            &&& after.len() == environments.len() + ids.len()
            &&& new_ids(after, environments.len()) == ids
        }),
    decreases incoming.len(),
{
    lemma_taken_in_places(environments, incoming, ids);
    let after = environments_taken_in(environments, incoming, ids).environments;
    assert(new_ids(after, environments.len()) =~= ids);
}

proof fn lemma_taken_in_places(
    environments: Seq<EnvironmentView>,
    incoming: Seq<ImportedEnvironmentView>,
    ids: Seq<Seq<char>>,
)
    ensures
        ({
            let after = environments_taken_in(environments, incoming, ids);
            &&& after.environments.len() == environments.len() + after.added
            &&& forall|i: int|
                0 <= i < after.added ==> (#[trigger] after.environments[environments.len() + i]).id
                    == ids[i]
            &&& forall|i: int|
                0 <= i < environments.len() ==> {
                    let known = environments[i];
                    let found = #[trigger] after.environments[i];
                    &&& found.id == known.id
                    &&& found.name == known.name
                    &&& found.file_name == known.file_name
                    &&& known.variables.is_prefix_of(found.variables)
                }
        }),
    decreases incoming.len(),
{
    if incoming.len() > 0 {
        lemma_taken_in_places(environments, incoming.drop_last(), ids);
        let before = environments_taken_in(environments, incoming.drop_last(), ids);
        let after = environments_taken_in(environments, incoming, ids);
        let name = text::trim(incoming.last().name);
        let at = named_at(before.environments, name);
        lemma_named_at(before.environments, name);
        if name.len() > 0 && at < before.environments.len() {
            let known = before.environments[at];
            law_merging_keeps_variables(known.variables, incoming.last().variables);
            assert forall|i: int| 0 <= i < after.added implies (
            #[trigger] after.environments[environments.len() + i]).id == ids[i] by {
                assert(before.environments[environments.len() + i].id == ids[i]);
            }
            assert forall|i: int| 0 <= i < environments.len() implies {
                let known = environments[i];
                let found = #[trigger] after.environments[i];
                &&& found.id == known.id
                &&& found.name == known.name
                &&& found.file_name == known.file_name
                &&& known.variables.is_prefix_of(found.variables)
            } by {
                assert(environments[i].variables.is_prefix_of(before.environments[i].variables));
            }
        } else if name.len() > 0 {
            assert forall|i: int| 0 <= i < after.added implies (
            #[trigger] after.environments[environments.len() + i]).id == ids[i] by {
                if i < before.added {
                    assert(before.environments[environments.len() + i].id == ids[i]);
                }
            }
            assert forall|i: int| 0 <= i < environments.len() implies {
                let known = environments[i];
                let found = #[trigger] after.environments[i];
                &&& found.id == known.id
                &&& found.name == known.name
                &&& found.file_name == known.file_name
                &&& known.variables.is_prefix_of(found.variables)
            } by {
                assert(after.environments[i] == before.environments[i]);
            }
        }
    }
}

proof fn lemma_named_at(environments: Seq<EnvironmentView>, name: Seq<char>)
    ensures
        0 <= named_at(environments, name) <= environments.len(),
    decreases environments.len(),
{
    if environments.len() > 0 && !text::same_ignoring_case(environments[0].name, name) {
        lemma_named_at(environments.drop_first(), name);
    }
}

/// An import keeps every environment and overwrites no variable of it.
pub proof fn law_import_keeps_environments(
    environments: Seq<EnvironmentView>,
    incoming: Seq<ImportedEnvironmentView>,
    ids: Seq<Seq<char>>,
    i: int,
)
    requires
        0 <= i < environments.len(),
    ensures
        ({
            let after = environments_taken_in(environments, incoming, ids);
            &&& after.environments.len() == environments.len() + after.added
            &&& after.environments[i].id == environments[i].id
            &&& after.environments[i].name == environments[i].name
            &&& after.environments[i].file_name == environments[i].file_name
            &&& environments[i].variables.is_prefix_of(after.environments[i].variables)
        }),
{
    lemma_taken_in_places(environments, incoming, ids);
}

/// Whether the variables have nothing that is missing.
pub open spec fn are_present(
    variables: Seq<(Seq<char>, Seq<char>)>,
    others: Seq<(Seq<char>, Seq<char>)>,
) -> bool {
    forall|j: int|
        0 <= j < others.len() ==> text::is_blank((#[trigger] others[j]).0) || names_taken(
            variables,
        ).contains(text::unicode_lower(text::trim(others[j].0)))
}

/// Whether no name of a variable has space around it.
pub open spec fn are_trimmed(variables: Seq<(Seq<char>, Seq<char>)>) -> bool {
    forall|j: int|
        0 <= j < variables.len() ==> text::trim((#[trigger] variables[j]).0) == variables[j].0
}

proof fn lemma_present_add_nothing(
    variables: Seq<(Seq<char>, Seq<char>)>,
    others: Seq<(Seq<char>, Seq<char>)>,
)
    requires
        are_present(variables, others),
    ensures
        with_variables(variables, others) == (VariablesView {
            variables,
            names: names_taken(variables),
            added: 0,
        }),
    decreases others.len(),
{
    if others.len() > 0 {
        let rest = others.drop_last();
        assert forall|j: int| 0 <= j < rest.len() implies text::is_blank((#[trigger] rest[j]).0)
            || names_taken(variables).contains(text::unicode_lower(text::trim(rest[j].0))) by {
            assert(rest[j] == others[j]);
        }
        lemma_present_add_nothing(variables, rest);
        assert(others.last() == others[others.len() - 1]);
    }
}

proof fn lemma_names_grow(
    variables: Seq<(Seq<char>, Seq<char>)>,
    more: Seq<(Seq<char>, Seq<char>)>,
)
    requires
        variables.is_prefix_of(more),
    ensures
        names_taken(variables).subset_of(names_taken(more)),
    decreases more.len(),
{
    if variables.len() < more.len() {
        assert(variables.is_prefix_of(more.drop_last())) by {
            assert(variables =~= more.drop_last().take(variables.len() as int));
        }
        lemma_names_grow(variables, more.drop_last());
    } else {
        assert(variables =~= more);
    }
}

proof fn lemma_added_are_present(
    variables: Seq<(Seq<char>, Seq<char>)>,
    others: Seq<(Seq<char>, Seq<char>)>,
)
    requires
        are_trimmed(others),
    ensures
        with_variables(variables, others).names == names_taken(
            with_variables(variables, others).variables,
        ),
        are_present(with_variables(variables, others).variables, others),
    decreases others.len(),
{
    if others.len() > 0 {
        let rest = others.drop_last();
        assert forall|j: int| 0 <= j < rest.len() implies text::trim((#[trigger] rest[j]).0)
            == rest[j].0 by {
            assert(rest[j] == others[j]);
        }
        lemma_added_are_present(variables, rest);
        let before = with_variables(variables, rest);
        let after = with_variables(variables, others);
        let last = others[others.len() - 1];
        assert(last == others.last());
        assert(text::trim(last.0) == last.0);
        if after.variables.len() > before.variables.len() {
            assert(after.variables.drop_last() =~= before.variables);
        }
        assert forall|j: int| 0 <= j < others.len() implies text::is_blank((#[trigger] others[j]).0)
            || names_taken(after.variables).contains(
            text::unicode_lower(text::trim(others[j].0)),
        ) by {
            if j < rest.len() {
                assert(rest[j] == others[j]);
            }
        }
    }
}

proof fn lemma_own_are_present(variables: Seq<(Seq<char>, Seq<char>)>)
    requires
        are_trimmed(variables),
    ensures
        are_present(variables, variables),
    decreases variables.len(),
{
    if variables.len() > 0 {
        let rest = variables.drop_last();
        assert forall|j: int| 0 <= j < rest.len() implies text::trim((#[trigger] rest[j]).0)
            == rest[j].0 by {
            assert(rest[j] == variables[j]);
        }
        lemma_own_are_present(rest);
        assert forall|j: int|
            0 <= j < variables.len() implies text::is_blank((#[trigger] variables[j]).0)
            || names_taken(variables).contains(text::unicode_lower(text::trim(variables[j].0))) by {
            if j < rest.len() {
                assert(rest[j] == variables[j]);
            }
        }
    }
}

/// Whether an environment that was taken in is found again and has nothing to add.
spec fn is_present(environments: Seq<EnvironmentView>, incoming: ImportedEnvironmentView) -> bool {
    let name = text::trim(incoming.name);
    let at = named_at(environments, name);
    name.len() == 0 || at < environments.len() && are_present(
        environments[at].variables,
        incoming.variables,
    )
}

/// A name is found in the same place while environments are only added behind the others.
proof fn lemma_named_at_stays(
    environments: Seq<EnvironmentView>,
    more: Seq<EnvironmentView>,
    name: Seq<char>,
)
    requires
        environments.len() <= more.len(),
        forall|i: int|
            0 <= i < environments.len() ==> more[i].name == (#[trigger] environments[i]).name,
        named_at(environments, name) < environments.len(),
    ensures
        named_at(more, name) == named_at(environments, name),
    decreases environments.len(),
{
    assert(more[0].name == environments[0].name);
    if !text::same_ignoring_case(environments[0].name, name) {
        let rest = environments.drop_first();
        assert forall|i: int| 0 <= i < rest.len() implies more.drop_first()[i].name == (
        #[trigger] rest[i]).name by {
            assert(rest[i] == environments[i + 1]);
        }
        lemma_named_at_stays(rest, more.drop_first(), name);
    }
}

/// An environment that is added is found under its name.
proof fn lemma_added_is_found(environments: Seq<EnvironmentView>, added: EnvironmentView)
    requires
        named_at(environments, added.name) == environments.len(),
    ensures
        named_at(environments.push(added), added.name) == environments.len(),
    decreases environments.len(),
{
    if environments.len() > 0 {
        let rest = environments.drop_first();
        lemma_named_at(rest, added.name);
        lemma_added_is_found(rest, added);
        assert(environments.push(added).drop_first() =~= rest.push(added));
    }
}

proof fn lemma_taken_in_are_present(
    environments: Seq<EnvironmentView>,
    incoming: Seq<ImportedEnvironmentView>,
    ids: Seq<Seq<char>>,
    n: int,
)
    requires
        0 <= n <= incoming.len(),
        forall|j: int| 0 <= j < incoming.len() ==> are_trimmed((#[trigger] incoming[j]).variables),
    ensures
        forall|j: int|
            0 <= j < n ==> is_present(
                environments_taken_in(environments, incoming.take(n), ids).environments,
                #[trigger] incoming[j],
            ),
    decreases n,
{
    if n > 0 {
        lemma_taken_in_are_present(environments, incoming, ids, n - 1);
        assert(incoming.take(n).drop_last() =~= incoming.take(n - 1));
        let last = incoming[n - 1];
        assert(incoming.take(n).last() == last);
        let before = environments_taken_in(environments, incoming.take(n - 1), ids).environments;
        let after = environments_taken_in(environments, incoming.take(n), ids).environments;
        let name = text::trim(last.name);
        let at = named_at(before, name);
        lemma_named_at(before, name);
        if name.len() > 0 && at < before.len() {
            lemma_added_are_present(before[at].variables, last.variables);
            law_merging_keeps_variables(before[at].variables, last.variables);
            lemma_names_grow(before[at].variables, after[at].variables);
            lemma_named_at_stays(before, after, name);
        } else if name.len() > 0 {
            lemma_own_are_present(last.variables);
            lemma_added_is_found(before, after.last());
            assert(after =~= before.push(after.last()));
        }
        assert forall|j: int| 0 <= j < n implies is_present(after, #[trigger] incoming[j]) by {
            if j < n - 1 {
                let earlier = text::trim(incoming[j].name);
                assert(is_present(before, incoming[j]));
                if earlier.len() > 0 {
                    lemma_named_at(before, earlier);
                    lemma_named_at_stays(before, after, earlier);
                }
            } else {
                text::lemma_trim_is_final(last.name);
            }
        }
    }
}

proof fn lemma_present_environments_stay(
    environments: Seq<EnvironmentView>,
    incoming: Seq<ImportedEnvironmentView>,
    ids: Seq<Seq<char>>,
    n: int,
)
    requires
        0 <= n <= incoming.len(),
        forall|j: int| 0 <= j < incoming.len() ==> is_present(environments, #[trigger] incoming[j]),
    ensures
        environments_taken_in(environments, incoming.take(n), ids) == (EnvironmentsView {
            environments,
            added: 0,
            variables_merged: 0,
        }),
    decreases n,
{
    if n > 0 {
        lemma_present_environments_stay(environments, incoming, ids, n - 1);
        assert(incoming.take(n).drop_last() =~= incoming.take(n - 1));
        let last = incoming[n - 1];
        assert(incoming.take(n).last() == last);
        assert(is_present(environments, last));
        let at = named_at(environments, text::trim(last.name));
        lemma_named_at(environments, text::trim(last.name));
        if text::trim(last.name).len() > 0 {
            lemma_present_add_nothing(environments[at].variables, last.variables);
            assert(environments.update(at, environments[at]) =~= environments);
        }
    }
}

/// Importing the same environments once more changes nothing, where no name of a variable has
/// space around it.
pub proof fn law_environments_are_imported_once(
    environments: Seq<EnvironmentView>,
    incoming: Seq<ImportedEnvironmentView>,
    ids: Seq<Seq<char>>,
    more_ids: Seq<Seq<char>>,
)
    requires
        forall|j: int| 0 <= j < incoming.len() ==> are_trimmed((#[trigger] incoming[j]).variables),
    ensures
        ({
            let once = environments_taken_in(environments, incoming, ids).environments;
            let twice = environments_taken_in(once, incoming, more_ids);
            &&& twice.environments == once
            &&& twice.added == 0
            &&& twice.variables_merged == 0
        }),
{
    let once = environments_taken_in(environments, incoming, ids).environments;
    assert(incoming.take(incoming.len() as int) =~= incoming);
    lemma_taken_in_are_present(environments, incoming, ids, incoming.len() as int);
    lemma_present_environments_stay(once, incoming, more_ids, incoming.len() as int);
}

/// Takes environments in, and says how many environments and how many variables were added.
/// The count of variables stops at the largest that the machine has.
pub fn merge_environments(
    environments: &mut Vec<Environment>,
    incoming: Vec<ImportedEnvironment>,
) -> (r: (usize, usize))
    ensures
        ({
            let before = text::views(old(environments)@);
            let ids = new_ids(text::views(final(environments)@), before.len());
            let after = environments_taken_in(before, text::views(incoming@), ids);
            &&& text::views(final(environments)@) == after.environments
            &&& ids.len() == after.added
            &&& forall|i: int|
                0 <= i < ids.len() ==> defaults::is_id(#[trigger] ids[i], "env"@)
            &&& r.0 == after.added
            &&& r.1 == (if after.variables_merged <= usize::MAX {
                after.variables_merged
            } else {
                usize::MAX as nat
            })
        }),
{
    let ghost start = text::views(environments@);
    let ghost given = incoming@;
    let ghost all = text::views(given);
    let ghost mut ids: Seq<Seq<char>> = Seq::empty();
    let mut added: usize = 0;
    let mut merged: usize = 0;
    assert(given.len() == incoming.len());
    for environment in it: incoming
        invariant
            it.seq() == given,
            it.index() <= given.len(),
            given.len() <= usize::MAX,
            all == text::views(given),
            added <= it.index(),
            ids.len() == added,
            forall|i: int| 0 <= i < ids.len() ==> defaults::is_id(#[trigger] ids[i], "env"@),
            ({
                let so_far = environments_taken_in(start, all.take(it.index() as int), ids);
                &&& text::views(environments@) == so_far.environments
                &&& added == so_far.added
                &&& merged == (if so_far.variables_merged <= usize::MAX {
                    so_far.variables_merged
                } else {
                    usize::MAX as nat
                })
            }),
    {
        let ghost n = it.index() as int;
        proof {
            assert(environment == given[n]);
            assert(all.take(n + 1).drop_last() =~= all.take(n));
            assert(all.take(n + 1).last() == environment@);
        }
        match non_empty_trimmed(environment.name.as_str()) {
            Some(name) => {
                let at = find_named(environments, name.as_str());
                if at < environments.len() {
                    let ghost before = environments@;
                    let mut known = environments.remove(at);
                    let count = merge_variables(&mut known.variables, environment.variables);
                    environments.insert(at, known);
                    assert(environments@ =~= before.update(at as int, known));
                    proof {
                        text::lemma_views_update(before, at as int, known);
                    }
                    merged = merged.saturating_add(count);
                } else {
                    let id = create_id("env");
                    let added_environment = Environment {
                        id: id.clone(),
                        name,
                        file_name: concat2(id.as_str(), ".json"),
                        variables: environment.variables,
                    };
                    proof {
                        let more = ids.push(id@);
                        lemma_enough_ids(start, all.take(n), ids, more);
                        ids = more;
                        text::lemma_views_push(environments@, added_environment);
                    }
                    environments.push(added_environment);
                    added += 1;
                }
            },
            None => {},
        }
    }
    proof {
        assert(all.take(all.len() as int) =~= all);
        lemma_new_ids(start, all, ids);
    }
    (added, merged)
}

// ---------------------------------------------------------------------------
// The workspace
// ---------------------------------------------------------------------------

/// The requests of a scan, with collections and folders looked up.
pub open spec fn scanned_endpoints(scan: ScanView) -> Seq<EndpointView> {
    scan.endpoints.map_values(
        |endpoint: EndpointView|
            looked_up(endpoint, scan.collection_names_by_id, scan.folders_by_id),
    )
}

/// The workspace once requests and environments were taken in.
pub open spec fn imported(
    ws: WorkspaceView,
    endpoints: Seq<EndpointView>,
    environments: Seq<EnvironmentView>,
    summary: ImportSummary,
    now: u64,
) -> WorkspaceView {
    let filled = WorkspaceView { saved_endpoints: endpoints, environments, ..ws };
    if changed_anything(summary) {
        let shown = workspace::touched(
            workspace::with_selection(requests::synced(filled)),
            now,
        );
        if summary.endpoints_added > 0 || summary.endpoints_updated > 0 {
            workspace::ui_touched(shown, now)
        } else {
            shown
        }
    } else {
        filled
    }
}

/// Whether an import of what was scanned went from one workspace to another and came to this.
pub open spec fn is_import(
    before: WorkspaceView,
    after: WorkspaceView,
    scan: ScanView,
    summary: ImportSummary,
    now: u64,
) -> bool {
    let taken = all_taken_in(merge_start(before.saved_endpoints), scanned_endpoints(scan));
    let ids = new_ids(after.environments, before.environments.len());
    let environments = environments_taken_in(before.environments, scan.environments, ids);
    &&& summary.directories_scanned == 0
    &&& summary.files_scanned == scan.files_scanned
    &&& summary.endpoints_added == taken.added
    &&& summary.endpoints_updated == taken.updated
    &&& summary.environments_added == environments.added
    &&& summary.environment_variables_merged == (if environments.variables_merged <= usize::MAX {
        environments.variables_merged
    } else {
        usize::MAX as nat
    })
    &&& ids.len() == environments.added
    &&& forall|i: int| 0 <= i < ids.len() ==> defaults::is_id(#[trigger] ids[i], "env"@)
    &&& after == imported(before, taken.endpoints, environments.environments, summary, now)
}

impl Workspace {
    /// Takes in what was scanned. The saved requests are to be stored where the summary says that
    /// one was added or changed.
    pub fn merge_postman_import(&mut self, scan_result: ImportScanResult, now: u64) -> (summary:
        ImportSummary)
        ensures
            is_import(old(self)@, final(self)@, scan_result@, summary, now),
    {
        let files_scanned = scan_result.files_scanned;
        let (endpoints_added, endpoints_updated) = merge_endpoints(
            &mut self.saved_endpoints,
            scan_result.endpoints,
            &scan_result.collection_names_by_id,
            &scan_result.folders_by_id,
        );
        let (environments_added, environment_variables_merged) = merge_environments(
            &mut self.environments,
            scan_result.environments,
        );
        let summary = ImportSummary {
            directories_scanned: 0,
            files_scanned,
            endpoints_added,
            endpoints_updated,
            environments_added,
            environment_variables_merged,
        };
        if summary.changed_anything() {
            self.sync_clean_tabs_from_saved_endpoints();
            self.ensure_selected_ids();
            self.mark_dirty(now);
            if endpoints_added > 0 || endpoints_updated > 0 {
                self.mark_workspace_ui_dirty(now);
            }
        }
        summary
    }
}

/// A workspace that takes in the same scan once more stays as it is, wherever what a request is
/// known by tells it apart and no name of a variable has space around it.
pub proof fn law_second_import_changes_nothing(
    before: WorkspaceView,
    between: WorkspaceView,
    after: WorkspaceView,
    scan: ScanView,
    first: ImportSummary,
    second: ImportSummary,
    start: u64,
    end: u64,
)
    requires
        is_import(before, between, scan, first, start),
        is_import(between, after, scan, second, end),
        tells_apart(before.saved_endpoints + all_filed(scanned_endpoints(scan))),
        forall|j: int|
            0 <= j < scan.environments.len() ==> are_trimmed(
                (#[trigger] scan.environments[j]).variables,
            ),
    ensures
        after == between,
        !changed_anything(second),
{
    let ids = new_ids(between.environments, before.environments.len());
    let more_ids = new_ids(after.environments, between.environments.len());
    law_import_is_done_once(before.saved_endpoints, scanned_endpoints(scan));
    law_environments_are_imported_once(before.environments, scan.environments, ids, more_ids);
}

/// A variable that an environment has not is added to it, with its value.
pub proof fn law_missing_variables_are_added(
    variables: Seq<(Seq<char>, Seq<char>)>,
    others: Seq<(Seq<char>, Seq<char>)>,
    j: int,
)
    requires
        0 <= j < others.len(),
        !text::is_blank(others[j].0),
        forall|i: int|
            0 <= i < variables.len() ==> text::unicode_lower((#[trigger] variables[i]).0)
                != text::unicode_lower(text::trim(others[j].0)),
        forall|i: int|
            0 <= i < j ==> text::unicode_lower(text::trim((#[trigger] others[i]).0))
                != text::unicode_lower(text::trim(others[j].0)),
    ensures
        with_variables(variables, others).variables.contains(others[j]),
    decreases others.len(),
{
    let rest = others.drop_last();
    let before = with_variables(variables, rest);
    let after = with_variables(variables, others);
    let name = text::unicode_lower(text::trim(others[j].0));
    if j == rest.len() {
        lemma_names_of(variables, rest, name);
        if before.names.contains(name) {
            if !names_taken(variables).contains(name) {
                let i = choose|i: int|
                    0 <= i < rest.len() && text::unicode_lower(text::trim((#[trigger] rest[i]).0))
                        == name;
                assert(rest[i] == others[i]);
            } else {
                lemma_taken_by(variables, name);
            }
        }
        assert(after.variables.last() == others[j]);
    } else {
        assert(rest[j] == others[j]);
        assert forall|i: int| 0 <= i < j implies text::unicode_lower(
            text::trim((#[trigger] rest[i]).0),
        ) != text::unicode_lower(text::trim(rest[j].0)) by {
            assert(rest[i] == others[i]);
        }
        law_missing_variables_are_added(variables, rest, j);
        let k = choose|k: int|
            0 <= k < before.variables.len() && before.variables[k] == others[j];
        assert(after.variables[k] == others[j]);
    }
}

proof fn lemma_names_of(
    variables: Seq<(Seq<char>, Seq<char>)>,
    others: Seq<(Seq<char>, Seq<char>)>,
    name: Seq<char>,
)
    ensures
        with_variables(variables, others).names.contains(name) ==> names_taken(variables).contains(
            name,
        ) || exists|i: int|
            0 <= i < others.len() && text::unicode_lower(text::trim((#[trigger] others[i]).0))
                == name,
    decreases others.len(),
{
    if others.len() > 0 {
        let rest = others.drop_last();
        lemma_names_of(variables, rest, name);
        if with_variables(variables, rest).names.contains(name) {
            if !names_taken(variables).contains(name) {
                let i = choose|i: int|
                    0 <= i < rest.len() && text::unicode_lower(text::trim((#[trigger] rest[i]).0))
                        == name;
                assert(others[i] == rest[i]);
            }
        } else if with_variables(variables, others).names.contains(name) {
            assert(text::unicode_lower(text::trim(others[others.len() - 1].0)) == name);
        }
    }
}

proof fn lemma_taken_by(variables: Seq<(Seq<char>, Seq<char>)>, name: Seq<char>)
    requires
        names_taken(variables).contains(name),
    ensures
        exists|i: int|
            0 <= i < variables.len() && text::unicode_lower((#[trigger] variables[i]).0) == name,
    decreases variables.len(),
{
    let rest = variables.drop_last();
    if names_taken(rest).contains(name) {
        lemma_taken_by(rest, name);
        let i = choose|i: int|
            0 <= i < rest.len() && text::unicode_lower((#[trigger] rest[i]).0) == name;
        assert(variables[i] == rest[i]);
    } else {
        assert(text::unicode_lower(variables[variables.len() - 1].0) == name);
    }
}

/// An environment that is imported under the name of one that is there is merged into it; the
/// others stay.
pub proof fn law_environment_is_merged_by_name(
    environments: Seq<EnvironmentView>,
    incoming: ImportedEnvironmentView,
    ids: Seq<Seq<char>>,
    at: int,
)
    requires
        0 <= at < environments.len(),
        !text::is_blank(incoming.name),
        text::same_ignoring_case(environments[at].name, text::trim(incoming.name)),
        forall|k: int|
            0 <= k < at ==> !text::same_ignoring_case(
                (#[trigger] environments[k]).name,
                text::trim(incoming.name),
            ),
    ensures
        ({
            let after = environments_taken_in(environments, seq![incoming], ids);
            &&& after.added == 0
            &&& after.environments == environments.update(
                at,
                EnvironmentView {
                    variables: with_variables(
                        environments[at].variables,
                        incoming.variables,
                    ).variables,
                    ..environments[at]
                },
            )
        }),
{
    reveal_with_fuel(environments_taken_in, 2);
    assert(seq![incoming].drop_last() =~= Seq::<ImportedEnvironmentView>::empty());
    lemma_first_named(environments, text::trim(incoming.name), at);
}

proof fn lemma_first_named(environments: Seq<EnvironmentView>, name: Seq<char>, at: int)
    requires
        0 <= at < environments.len(),
        text::same_ignoring_case(environments[at].name, name),
        forall|k: int|
            0 <= k < at ==> !text::same_ignoring_case((#[trigger] environments[k]).name, name),
    ensures
        named_at(environments, name) == at,
    decreases at,
{
    if at > 0 {
        let rest = environments.drop_first();
        assert(!text::same_ignoring_case(environments[0].name, name));
        assert forall|k: int| 0 <= k < at - 1 implies !text::same_ignoring_case(
            (#[trigger] rest[k]).name,
            name,
        ) by {
            assert(rest[k] == environments[k + 1]);
        }
        lemma_first_named(rest, name, at - 1);
    }
}

/// A request that is known is merged with what comes in: it stands where it stood, and what it
/// lacked is taken over.
pub proof fn law_known_request_is_merged(
    endpoints: Seq<EndpointView>,
    incoming: EndpointView,
    at: int,
)
    requires
        0 <= at < endpoints.len(),
        merge::dedup_key(endpoints[at]) == merge::dedup_key(storage::filed(incoming)),
        forall|k: int|
            at < k < endpoints.len() ==> merge::dedup_key(#[trigger] endpoints[k])
                != merge::dedup_key(storage::filed(incoming)),
    ensures
        ({
            let after = all_taken_in(merge_start(endpoints), seq![incoming]);
            &&& after.endpoints == endpoints.update(
                at,
                merge::merged(endpoints[at], storage::filed(incoming)),
            )
            &&& after.added == 0
            &&& after.updated == (if merge::merged(endpoints[at], storage::filed(incoming))
                == endpoints[at] {
                0nat
            } else {
                1nat
            })
        }),
{
    reveal_with_fuel(all_taken_in, 2);
    assert(seq![incoming].drop_last() =~= Seq::<EndpointView>::empty());
    let keys = dedup_keys(endpoints);
    let key = merge::dedup_key(storage::filed(incoming));
    lemma_last_key(keys, key);
    assert(keys[at] == key);
    assert(keys.contains(key));
    let found = last_key(keys, key);
    assert(keys[found] == merge::dedup_key(endpoints[found]));
    if found < at {
        lemma_last_is_last(keys, key, at);
    }
}

proof fn lemma_last_is_last(keys: Seq<Seq<char>>, key: Seq<char>, i: int)
    requires
        0 <= i < keys.len(),
        keys[i] == key,
    ensures
        last_key(keys, key) >= i,
    decreases keys.len(),
{
    if keys.last() != key {
        assert(keys.drop_last()[i] == key);
        lemma_last_is_last(keys.drop_last(), key, i);
    }
}

/// A request that names its collection or folder by id only gets their names, where they are
/// known; one that has them keeps its own.
pub proof fn law_names_are_looked_up(
    endpoint: EndpointView,
    collections: Map<Seq<char>, Seq<char>>,
    folders_by_id: Map<Seq<char>, FolderView>,
)
    ensures
        ({
            let after = looked_up(endpoint, collections, folders_by_id);
            let source = text::trim(endpoint.source_collection_id);
            &&& (text::is_blank(endpoint.collection) || text::trim(endpoint.collection)
                == "General"@) && collections.dom().contains(source) ==> after.collection
                == collections[source]
            &&& !text::is_blank(endpoint.collection) && text::trim(endpoint.collection)
                != "General"@ ==> after.collection == endpoint.collection
            &&& text::is_blank(endpoint.folder_path) ==> (folders::looked_up_path(
                text::trim(endpoint.source_folder_id),
                folders_by_id,
            ) matches Some(path) ==> after.folder_path == path)
            &&& !text::is_blank(endpoint.folder_path) ==> after.folder_path == endpoint.folder_path
            &&& after.body == endpoint.body
            &&& after.url == endpoint.url
            &&& after.headers == endpoint.headers
            &&& after.name == endpoint.name
        }),
{
}

/// An import that changed anything is saved, one that changed nothing leaves the workspace clean;
/// the tabs are saved only where requests came in or changed.
pub proof fn law_import_is_saved_where_it_changed_anything(
    ws: WorkspaceView,
    endpoints: Seq<EndpointView>,
    environments: Seq<EnvironmentView>,
    summary: ImportSummary,
    now: u64,
)
    ensures
        ({
            let after = imported(ws, endpoints, environments, summary, now);
            let requests_changed = summary.endpoints_added > 0 || summary.endpoints_updated > 0;
            let variables_changed = summary.environments_added > 0
                || summary.environment_variables_merged > 0;
            &&& after.saved_endpoints == endpoints
            &&& after.environments == environments
            &&& requests_changed || variables_changed ==> after.dirty && after.last_mutation == now
            &&& requests_changed ==> after.workspace_ui_dirty && after.workspace_ui_last_mutation
                == now
            &&& !requests_changed && !variables_changed ==> after.dirty == ws.dirty
                && after.last_mutation == ws.last_mutation && after.open_request_tabs
                == ws.open_request_tabs
        }),
{
}

/// An environment whose name is not known yet is added with all its variables, under a new id.
pub proof fn law_unknown_environment_is_added(
    environments: Seq<EnvironmentView>,
    incoming: ImportedEnvironmentView,
    id: Seq<char>,
)
    requires
        !text::is_blank(incoming.name),
        forall|i: int|
            0 <= i < environments.len() ==> text::ascii_lower((#[trigger] environments[i]).name)
                != text::ascii_lower(text::trim(incoming.name)),
    ensures
        environments_taken_in(environments, seq![incoming], seq![id]).environments
            == environments.push(
            EnvironmentView {
                id,
                name: text::trim(incoming.name),
                file_name: id + ".json"@,
                variables: incoming.variables,
            },
        ),
        environments_taken_in(environments, seq![incoming], seq![id]).added == 1,
        environments_taken_in(environments, seq![incoming], seq![id]).variables_merged == 0,
{
    let name = text::trim(incoming.name);
    let one = seq![incoming];
    assert(one.drop_last() =~= Seq::<ImportedEnvironmentView>::empty());
    let before = environments_taken_in(environments, one.drop_last(), seq![id]);
    assert(before.environments == environments && before.added == 0);
    lemma_not_named(environments, name);
}

proof fn lemma_not_named(environments: Seq<EnvironmentView>, name: Seq<char>)
    requires
        forall|i: int|
            0 <= i < environments.len() ==> text::ascii_lower((#[trigger] environments[i]).name)
                != text::ascii_lower(name),
    ensures
        named_at(environments, name) == environments.len(),
    decreases environments.len(),
{
    if environments.len() > 0 {
        let rest = environments.drop_first();
        assert(text::ascii_lower(environments[0].name) != text::ascii_lower(name));
        assert forall|i: int| 0 <= i < rest.len() implies text::ascii_lower(
            (#[trigger] rest[i]).name,
        ) != text::ascii_lower(name) by {
            assert(rest[i] == environments[i + 1]);
        }
        lemma_not_named(rest, name);
    }
}

/// An environment without a name is not imported.
pub proof fn law_nameless_environment_is_not_imported(
    environments: Seq<EnvironmentView>,
    incoming: ImportedEnvironmentView,
    ids: Seq<Seq<char>>,
)
    requires
        text::is_blank(incoming.name),
    ensures
        environments_taken_in(environments, seq![incoming], ids).environments == environments,
        environments_taken_in(environments, seq![incoming], ids).added == 0,
{
    let one = seq![incoming];
    assert(one.drop_last() =~= Seq::<ImportedEnvironmentView>::empty());
    assert(one.last() == incoming);
    let before = environments_taken_in(environments, one.drop_last(), ids);
    assert(before.environments == environments && before.added == 0);
}

} // verus!
