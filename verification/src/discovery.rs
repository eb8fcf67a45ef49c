//! Which workspaces and files of a Postman installation are imported.
use crate::bytes;
use crate::bytes::lossy_text;
use crate::folders;
use crate::folders::slugify_workspace_name;
use crate::json;
use crate::json::{parse_json, JsonTree};
use crate::models::EndpointView;
use crate::postman;
use crate::postman_cache;
use crate::postman_cache::{
    endpoint_from_requester_log_object, ContextView, Found, ImportScanResult,
    WorkspaceImportContext,
};
use crate::postman_export;
use crate::scan;
use crate::scan::{count_file, decode_escaped_json_string, merge_import_scan_result};
use crate::table::TextSet;
use crate::text;
use crate::text::{
    concat3, contains_part, ends_with, eq_ignore_case, same_text, starts_with, to_ascii_lower,
};
use vstd::prelude::*;

verus! {

// ---------------------------------------------------------------------------
// Patterns
// ---------------------------------------------------------------------------

/// What `regex::Regex::captures_iter` finds of a pattern in a text: of each match the texts of
/// its groups, the whole match first; `None` where the pattern is not one.
pub uninterp spec fn pattern_matches(pattern: Seq<char>, content: Seq<char>) -> Option<
    Seq<Seq<Option<Seq<char>>>>,
>;

/// What `regex::escape` makes of a text.
pub uninterp spec fn escaped_pattern(content: Seq<char>) -> Seq<char>;

/// The texts of the groups of a match.
spec fn groups(found: Seq<Option<String>>) -> Seq<Option<Seq<char>>> {
    found.map_values(|group: Option<String>| text::opt(group))
}

/// The texts of the groups of the matches.
spec fn all_groups(found: Seq<Vec<Option<String>>>) -> Seq<Seq<Option<Seq<char>>>> {
    found.map_values(|each: Vec<Option<String>>| groups(each@))
}

/// `regex::Regex::new` and `captures_iter`. What is found depends on the pattern and the text
/// alone.
#[verifier::external_body]
fn find_matches(pattern: &str, content: &str) -> (r: Option<Vec<Vec<Option<String>>>>)
    ensures
        match r {
            Some(found) => pattern_matches(pattern@, content@) == Some(all_groups(found@)),
            None => pattern_matches(pattern@, content@) is None,
        },
{
    let regex = regex::Regex::new(pattern).ok()?;
    let found = regex.captures_iter(content).map(
        |each| each.iter().map(|group| group.map(|part| part.as_str().to_owned())).collect(),
    );
    Some(found.collect())
}

/// `regex::escape`. The result depends on the text alone.
#[verifier::external_body]
fn escape_pattern(content: &str) -> (r: String)
    ensures
        r@ == escaped_pattern(content@),
{
    regex::escape(content)
}

/// A group of a match.
pub open spec fn group(found: Seq<Option<Seq<char>>>, index: int) -> Option<Seq<char>> {
    if 0 <= index < found.len() {
        found[index]
    } else {
        None
    }
}

fn get_group<'a>(found: &'a Vec<Option<String>>, index: usize) -> (r: Option<&'a String>)
    ensures
        match r {
            Some(part) => group(groups(found@), index as int) == Some(part@),
            None => group(groups(found@), index as int) is None,
        },
{
    if index < found.len() {
        match &found[index] {
            Some(part) => Some(part),
            None => None,
        }
    } else {
        None
    }
}

/// The matches of a pattern; none where it is not one.
pub open spec fn matches_of(pattern: Seq<char>, content: Seq<char>) -> Seq<
    Seq<Option<Seq<char>>>,
> {
    match pattern_matches(pattern, content) {
        Some(found) => found,
        None => Seq::empty(),
    }
}

fn get_matches(pattern: &str, content: &str) -> (r: Vec<Vec<Option<String>>>)
    ensures
        all_groups(r@) == matches_of(pattern@, content@),
{
    match find_matches(pattern, content) {
        Some(found) => found,
        None => {
            let none: Vec<Vec<Option<String>>> = Vec::new();
            assert(all_groups(none@) =~= Seq::empty());
            none
        },
    }
}

// ---------------------------------------------------------------------------
// Workspaces
// ---------------------------------------------------------------------------

/// The record of the workspace that was active last: its id and its name.
pub open spec fn last_active_pattern() -> Seq<char> {
    "lastActiveWorkspaceData.*?\"id\":\"([0-9a-fA-F-]{36})\",\"name\":\"([^\"]+)\""@
}

/// The route of a workspace: its id.
pub open spec fn route_pattern() -> Seq<char> {
    "workspace/[A-Za-z0-9._-]+~([0-9a-fA-F-]{36})"@
}

/// The route of the workspace of that slug: its id.
pub open spec fn slug_pattern(slug: Seq<char>) -> Seq<char> {
    "workspace/"@ + escaped_pattern(slug) + "~([0-9a-fA-F-]{36})"@
}

/// A collection of a workspace: its id and that of the workspace.
pub open spec fn collection_pattern() -> Seq<char> {
    "collection/([0-9A-Za-z-]{8,80})/([0-9a-fA-F-]{36})"@
}

/// The longest file of the local storage that is read.
pub const MAX_LOCAL_STORAGE_FILE: usize = 33_554_432;

/// The longest file of a database that is read.
pub const MAX_DATABASE_FILE: usize = 67_108_864;

/// The slug that a workspace must have to be taken, where the name that is asked for has one.
pub open spec fn wanted_slug(name: Option<Seq<char>>) -> Option<Seq<char>> {
    match name {
        Some(name) => if folders::slug(name).len() == 0 {
            None
        } else {
            Some(folders::slug(name))
        },
        None => None,
    }
}

/// The workspace that a match of the last active one states, where it is taken.
pub open spec fn active_workspace(
    found: Seq<Option<Seq<char>>>,
    slug: Option<Seq<char>>,
) -> Option<Seq<char>> {
    match (group(found, 1), group(found, 2)) {
        (Some(id), Some(name)) => if slug is None || folders::slug(name) == slug->0 {
            Some(id)
        } else {
            None
        },
        _ => None,
    }
}

/// The ids that the matches state, each match being read by `read`.
pub open spec fn stated_ids(
    found: Seq<Seq<Option<Seq<char>>>>,
    read: spec_fn(Seq<Option<Seq<char>>>) -> Option<Seq<char>>,
) -> Set<Seq<char>>
    decreases found.len(),
{
    if found.len() == 0 {
        Set::empty()
    } else {
        let rest = stated_ids(found.drop_last(), read);
        match read(found.last()) {
            Some(id) => rest.insert(id),
            None => rest,
        }
    }
}

/// The active workspaces in a text.
pub open spec fn active_in(content: Seq<char>, slug: Option<Seq<char>>) -> Set<Seq<char>> {
    stated_ids(
        matches_of(last_active_pattern(), content),
        |found: Seq<Option<Seq<char>>>| active_workspace(found, slug),
    )
}

/// The workspaces of that slug whose routes stand in a text.
pub open spec fn routed_in(content: Seq<char>, slug: Seq<char>) -> Set<Seq<char>> {
    stated_ids(
        matches_of(slug_pattern(slug), content),
        |found: Seq<Option<Seq<char>>>| group(found, 1),
    )
}

/// The collections in a text that belong to the workspaces.
pub open spec fn collections_in(content: Seq<char>, workspace_ids: Set<Seq<char>>) -> Set<
    Seq<char>,
> {
    stated_ids(
        matches_of(collection_pattern(), content),
        |found: Seq<Option<Seq<char>>>| collection_of(found, workspace_ids),
    )
}

/// The collection that a match states, where it belongs to one of the workspaces.
pub open spec fn collection_of(
    found: Seq<Option<Seq<char>>>,
    workspace_ids: Set<Seq<char>>,
) -> Option<Seq<char>> {
    match (group(found, 1), group(found, 2)) {
        (Some(id), Some(workspace)) => if workspace_ids.contains(workspace) {
            Some(id)
        } else {
            None
        },
        _ => None,
    }
}

/// The first workspace whose route stands in a text.
pub open spec fn first_route(content: Seq<char>) -> Option<Seq<char>> {
    let found = matches_of(route_pattern(), content);
    if found.len() > 0 {
        group(found[0], 1)
    } else {
        None
    }
}

/// The texts of the files that are not too long.
pub open spec fn file_texts(files: Seq<Vec<u8>>, limit: int) -> Seq<Seq<char>> {
    files.filter_map(
        |file: Vec<u8>|
            if file@.len() > limit {
                None
            } else {
                Some(bytes::lossy(file@))
            },
    )
}

/// All that is found in the texts.
pub open spec fn in_all(
    texts: Seq<Seq<char>>,
    find: spec_fn(Seq<char>) -> Set<Seq<char>>,
) -> Set<Seq<char>>
    decreases texts.len(),
{
    if texts.len() == 0 {
        Set::empty()
    } else {
        in_all(texts.drop_last(), find).union(find(texts.last()))
    }
}

/// The first workspace whose route stands in the texts.
pub open spec fn first_routed(texts: Seq<Seq<char>>) -> Set<Seq<char>>
    decreases texts.len(),
{
    if texts.len() == 0 {
        Set::empty()
    } else {
        match first_route(texts[0]) {
            Some(id) => Set::empty().insert(id),
            None => first_routed(texts.drop_first()),
        }
    }
}

/// The workspaces that are imported: the active ones, else those with a route; of the asked for
/// name, else the first.
pub open spec fn workspace_ids(files: Seq<Vec<u8>>, name: Option<Seq<char>>) -> Set<Seq<char>> {
    let texts = file_texts(files, MAX_LOCAL_STORAGE_FILE as int);
    let slug = wanted_slug(name);
    let active = in_all(texts, |content: Seq<char>| active_in(content, slug));
    if active != Set::<Seq<char>>::empty() {
        active
    } else {
        match slug {
            Some(slug) => in_all(texts, |content: Seq<char>| routed_in(content, slug)),
            None => first_routed(texts),
        }
    }
}

fn read_texts(files: &Vec<Vec<u8>>, limit: usize) -> (texts: Vec<String>)
    ensures
        text::views(texts@) == file_texts(files@, limit as int),
{
    let mut texts: Vec<String> = Vec::new();
    let ghost f = |file: Vec<u8>|
        if file@.len() > limit as int {
            None
        } else {
            Some(bytes::lossy(file@))
        };
    let mut i: usize = 0;
    assert(text::views(texts@) =~= files@.take(0).filter_map(f));
    while i < files.len()
        invariant
            i <= files@.len(),
            f == (|file: Vec<u8>|
                if file@.len() > limit as int {
                    None
                } else {
                    Some(bytes::lossy(file@))
                }),
            text::views(texts@) == files@.take(i as int).filter_map(f),
        decreases files@.len() - i,
    {
        proof {
            files@.lemma_filter_map_take_succ(f, i as int);
        }
        if files[i].len() <= limit {
            let content = lossy_text(files[i].as_slice());
            proof {
                text::lemma_views_push(texts@, content);
            }
            texts.push(content);
        }
        i += 1;
    }
    assert(files@.take(files@.len() as int) =~= files@);
    texts
}

fn add_active(content: &str, slug: &Option<String>, output: &mut TextSet)
    ensures
        final(output)@ == old(output)@.union(active_in(content@, text::opt(*slug))),
{
    let found = get_matches(
        "lastActiveWorkspaceData.*?\"id\":\"([0-9a-fA-F-]{36})\",\"name\":\"([^\"]+)\"",
        content,
    );
    let ghost all = all_groups(found@);
    let ghost start = output@;
    let ghost read = |each: Seq<Option<Seq<char>>>| active_workspace(each, text::opt(*slug));
    let mut i: usize = 0;
    assert(start.union(stated_ids(all.take(0), read)) =~= start);
    while i < found.len()
        invariant
            i <= found@.len(),
            all == all_groups(found@),
            read == (|each: Seq<Option<Seq<char>>>| active_workspace(each, text::opt(*slug))),
            output@ == start.union(stated_ids(all.take(i as int), read)),
        decreases found@.len() - i,
    {
        proof {
            assert(all.take(i + 1).drop_last() =~= all.take(i as int));
            assert(all[i as int] == groups(found@[i as int]@));
        }
        let ghost before = output@;
        let each = &found[i];
        if let Some(id) = get_group(each, 1) {
            if let Some(name) = get_group(each, 2) {
                let is_wanted = match slug {
                    Some(slug) => same_text(
                        slugify_workspace_name(name.as_str()).as_str(),
                        slug.as_str(),
                    ),
                    None => true,
                };
                if is_wanted {
                    let id = id.clone();
                    assert(before.insert(id@) =~= start.union(
                        stated_ids(all.take(i as int), read).insert(id@),
                    ));
                    output.insert(id);
                }
            }
        }
        i += 1;
    }
    assert(all.take(all.len() as int) =~= all);
    assert(read =~= |each: Seq<Option<Seq<char>>>| active_workspace(each, text::opt(*slug)));
}

fn add_first_groups(found: &Vec<Vec<Option<String>>>, output: &mut TextSet)
    ensures
        final(output)@ == old(output)@.union(
            stated_ids(
                all_groups(found@),
                |each: Seq<Option<Seq<char>>>| group(each, 1),
            ),
        ),
{
    let ghost all = all_groups(found@);
    let ghost start = output@;
    let ghost read = |each: Seq<Option<Seq<char>>>| group(each, 1);
    let mut i: usize = 0;
    assert(start.union(stated_ids(all.take(0), read)) =~= start);
    while i < found.len()
        invariant
            i <= found@.len(),
            all == all_groups(found@),
            read == (|each: Seq<Option<Seq<char>>>| group(each, 1)),
            output@ == start.union(stated_ids(all.take(i as int), read)),
        decreases found@.len() - i,
    {
        proof {
            assert(all.take(i + 1).drop_last() =~= all.take(i as int));
            assert(all[i as int] == groups(found@[i as int]@));
        }
        let ghost before = output@;
        if let Some(id) = get_group(&found[i], 1) {
            let id = id.clone();
            assert(before.insert(id@) =~= start.union(
                stated_ids(all.take(i as int), read).insert(id@),
            ));
            output.insert(id);
        }
        i += 1;
    }
    assert(all.take(all.len() as int) =~= all);
}

fn add_collections(content: &str, workspace_ids: &TextSet, output: &mut TextSet)
    ensures
        final(output)@ == old(output)@.union(collections_in(content@, workspace_ids@)),
{
    let found = get_matches("collection/([0-9A-Za-z-]{8,80})/([0-9a-fA-F-]{36})", content);
    let ghost all = all_groups(found@);
    let ghost start = output@;
    let ghost read = |each: Seq<Option<Seq<char>>>| collection_of(each, workspace_ids@);
    let mut i: usize = 0;
    assert(start.union(stated_ids(all.take(0), read)) =~= start);
    while i < found.len()
        invariant
            i <= found@.len(),
            all == all_groups(found@),
            read == (|each: Seq<Option<Seq<char>>>| collection_of(each, workspace_ids@)),
            output@ == start.union(stated_ids(all.take(i as int), read)),
        decreases found@.len() - i,
    {
        proof {
            assert(all.take(i + 1).drop_last() =~= all.take(i as int));
            assert(all[i as int] == groups(found@[i as int]@));
        }
        let ghost before = output@;
        let each = &found[i];
        if let Some(id) = get_group(each, 1) {
            if let Some(workspace) = get_group(each, 2) {
                if workspace_ids.contains(workspace.as_str()) {
                    let id = id.clone();
                    assert(before.insert(id@) =~= start.union(
                        stated_ids(all.take(i as int), read).insert(id@),
                    ));
                    output.insert(id);
                }
            }
        }
        i += 1;
    }
    assert(all.take(all.len() as int) =~= all);
}

fn all_active(texts: &Vec<String>, slug: &Option<String>) -> (r: TextSet)
    ensures
        r@ == in_all(
            text::views(texts@),
            |content: Seq<char>| active_in(content, text::opt(*slug)),
        ),
{
    let mut r = TextSet::new();
    let ghost all = text::views(texts@);
    let ghost find = |content: Seq<char>| active_in(content, text::opt(*slug));
    let mut i: usize = 0;
    while i < texts.len()
        invariant
            i <= texts@.len(),
            all == text::views(texts@),
            find == (|content: Seq<char>| active_in(content, text::opt(*slug))),
            r@ == in_all(all.take(i as int), find),
        decreases texts@.len() - i,
    {
        proof {
            assert(all.take(i + 1).drop_last() =~= all.take(i as int));
        }
        add_active(texts[i].as_str(), slug, &mut r);
        i += 1;
    }
    assert(all.take(all.len() as int) =~= all);
    r
}

fn all_routed(texts: &Vec<String>, slug: &str) -> (r: TextSet)
    ensures
        r@ == in_all(text::views(texts@), |content: Seq<char>| routed_in(content, slug@)),
{
    let pattern = concat3(
        "workspace/",
        escape_pattern(slug).as_str(),
        "~([0-9a-fA-F-]{36})",
    );
    let mut r = TextSet::new();
    let ghost all = text::views(texts@);
    let ghost find = |content: Seq<char>| routed_in(content, slug@);
    let mut i: usize = 0;
    while i < texts.len()
        invariant
            i <= texts@.len(),
            pattern@ == slug_pattern(slug@),
            all == text::views(texts@),
            find == (|content: Seq<char>| routed_in(content, slug@)),
            r@ == in_all(all.take(i as int), find),
        decreases texts@.len() - i,
    {
        proof {
            assert(all.take(i + 1).drop_last() =~= all.take(i as int));
        }
        let found = get_matches(pattern.as_str(), texts[i].as_str());
        add_first_groups(&found, &mut r);
        i += 1;
    }
    assert(all.take(all.len() as int) =~= all);
    r
}

fn get_first_routed(texts: &Vec<String>) -> (r: TextSet)
    ensures
        r@ == first_routed(text::views(texts@)),
{
    let mut r = TextSet::new();
    let ghost all = text::views(texts@);
    let mut i: usize = 0;
    assert(all.skip(0) =~= all);
    while i < texts.len()
        invariant
            i <= texts@.len(),
            all == text::views(texts@),
            r@ == Set::<Seq<char>>::empty(),
            first_routed(all) == first_routed(all.skip(i as int)),
        decreases texts@.len() - i,
    {
        let found = get_matches(
            "workspace/[A-Za-z0-9._-]+~([0-9a-fA-F-]{36})",
            texts[i].as_str(),
        );
        proof {
            assert(all.skip(i as int)[0] == texts@[i as int]@);
            assert(all.skip(i as int).drop_first() =~= all.skip(i + 1));
            assert(found@.len() > 0 ==> all_groups(found@)[0] == groups(found@[0]@));
        }
        if found.len() > 0 {
            if let Some(id) = get_group(&found[0], 1) {
                r.insert(id.clone());
                return r;
            }
        }
        i += 1;
    }
    r
}

/// The ids of the workspaces to import, by the files of the local storage.
pub fn collect_workspace_ids(
    local_storage_files: &Vec<Vec<u8>>,
    workspace_name_filter: Option<&str>,
) -> (r: TextSet)
    ensures
        r@ == workspace_ids(
            local_storage_files@,
            match workspace_name_filter {
                Some(name) => Some(name@),
                None => None,
            },
        ),
{
    let slug = match workspace_name_filter {
        Some(name) => {
            let slug = slugify_workspace_name(name);
            if slug.as_str().is_empty() {
                None
            } else {
                Some(slug)
            }
        },
        None => None,
    };
    let texts = read_texts(local_storage_files, MAX_LOCAL_STORAGE_FILE);
    let active = all_active(&texts, &slug);
    if !active.is_empty() {
        return active;
    }
    match slug {
        Some(slug) => all_routed(&texts, slug.as_str()),
        None => get_first_routed(&texts),
    }
}

/// The collections of the workspaces, by the files of the databases.
pub open spec fn collection_ids(
    files: Seq<Vec<u8>>,
    workspace_ids: Set<Seq<char>>,
) -> Set<Seq<char>> {
    if workspace_ids == Set::<Seq<char>>::empty() {
        Set::empty()
    } else {
        in_all(
            file_texts(files, MAX_DATABASE_FILE as int),
            |content: Seq<char>| collections_in(content, workspace_ids),
        )
    }
}

pub fn collect_collection_ids_for_workspaces(
    database_files: &Vec<Vec<u8>>,
    workspace_ids: &TextSet,
) -> (r: TextSet)
    ensures
        r@ == collection_ids(database_files@, workspace_ids@),
{
    let mut r = TextSet::new();
    if workspace_ids.is_empty() {
        return r;
    }
    let texts = read_texts(database_files, MAX_DATABASE_FILE);
    let ghost all = text::views(texts@);
    let ghost find = |content: Seq<char>| collections_in(content, workspace_ids@);
    let mut i: usize = 0;
    while i < texts.len()
        invariant
            i <= texts@.len(),
            all == text::views(texts@),
            find == (|content: Seq<char>| collections_in(content, workspace_ids@)),
            r@ == in_all(all.take(i as int), find),
        decreases texts@.len() - i,
    {
        proof {
            assert(all.take(i + 1).drop_last() =~= all.take(i as int));
        }
        add_collections(texts[i].as_str(), workspace_ids, &mut r);
        i += 1;
    }
    assert(all.take(all.len() as int) =~= all);
    r
}

/// The least number of collections by which the import is narrowed.
pub const MIN_COLLECTIONS: usize = 3;

/// What is imported. Where workspaces are known but few collections of theirs, the collections do
/// not narrow it.
pub fn build_workspace_import_context(
    workspace_ids: TextSet,
    collection_ids: TextSet,
) -> (r: WorkspaceImportContext)
    ensures
        r@ == (ContextView {
            workspace_ids: workspace_ids@,
            collection_ids: if workspace_ids@ != Set::<Seq<char>>::empty() && collection_ids@.len()
                < MIN_COLLECTIONS {
                Set::empty()
            } else {
                collection_ids@
            },
        }),
{
    if !workspace_ids.is_empty() && collection_ids.len() < MIN_COLLECTIONS {
        return WorkspaceImportContext { workspace_ids, collection_ids: TextSet::new() };
    }
    WorkspaceImportContext { workspace_ids, collection_ids }
}

// ---------------------------------------------------------------------------
// Requester logs
// ---------------------------------------------------------------------------

/// The resource in an edit conflict.
pub open spec fn conflict_pattern() -> Seq<char> {
    "BaseEditorModel~conflictState:\\s*(?:latestResource|currentResource):\",\"((?:\\\\.|[^\"])*)\""@
}

/// The endpoint that a conflict states, but for its id.
pub open spec fn conflict_endpoint(
    found: Seq<Option<Seq<char>>>,
    context: ContextView,
) -> Option<EndpointView> {
    match group(found, 1) {
        Some(encoded) => match scan::unescaped(encoded) {
            Some(content) => match json::parsed_json(content) {
                Some(JsonTree::Record(object)) => postman_cache::resource_endpoint(
                    object,
                    context,
                ),
                _ => None,
            },
            None => None,
        },
        None => None,
    }
}

/// What a requester log states.
pub open spec fn found_in_log(data: Seq<u8>, context: ContextView) -> Found {
    Found {
        endpoints: matches_of(conflict_pattern(), bytes::lossy(data)).filter_map(
            |found: Seq<Option<Seq<char>>>| conflict_endpoint(found, context),
        ),
        ..postman_cache::nothing_found()
    }
}

fn get_conflict_endpoint(
    found: &Vec<Option<String>>,
    import_context: &WorkspaceImportContext,
) -> (r: Option<crate::models::Endpoint>)
    ensures
        match r {
            Some(endpoint) => conflict_endpoint(groups(found@), import_context@) == Some(
                postman::anonymous(endpoint@),
            ) && crate::defaults::is_id(endpoint@.id, "ep"@),
            None => conflict_endpoint(groups(found@), import_context@) is None,
        },
{
    match get_group(found, 1) {
        Some(encoded) => match decode_escaped_json_string(encoded.as_str()) {
            Some(content) => match parse_json(content.as_str()) {
                Some(value) => match value.as_record() {
                    Some(object) => endpoint_from_requester_log_object(object, import_context),
                    None => None,
                },
                None => None,
            },
            None => None,
        },
        None => None,
    }
}

/// Counts a requester log and takes over what it states.
pub fn scan_postman_requester_log(
    raw: &[u8],
    import_context: &WorkspaceImportContext,
    result: &mut ImportScanResult,
)
    requires
        old(result).files_scanned < usize::MAX,
    ensures
        postman_cache::extended(
            scan::one_more_file(old(result)@),
            final(result)@,
            found_in_log(raw@, import_context@),
        ),
{
    count_file(result);
    let ghost start = result@;
    let ghost context = import_context@;
    let content = lossy_text(raw);
    let found = get_matches(
        "BaseEditorModel~conflictState:\\s*(?:latestResource|currentResource):\",\"((?:\\\\.|[^\"])*)\"",
        content.as_str(),
    );
    let ghost all = all_groups(found@);
    let ghost f = |each: Seq<Option<Seq<char>>>| conflict_endpoint(each, context);
    let mut i: usize = 0;
    proof {
        postman_export::lemma_appended_none(start.endpoints);
        assert(all.take(0).filter_map(f) =~= Seq::empty());
    }
    while i < found.len()
        invariant
            i <= found@.len(),
            context == import_context@,
            all == all_groups(found@),
            f == (|each: Seq<Option<Seq<char>>>| conflict_endpoint(each, context)),
            result@ == (postman_cache::ScanView { endpoints: result@.endpoints, ..start }),
            postman_export::appended(
                start.endpoints,
                result@.endpoints,
                all.take(i as int).filter_map(f),
            ),
        decreases found@.len() - i,
    {
        proof {
            all.lemma_filter_map_take_succ(f, i as int);
            assert(all[i as int] == groups(found@[i as int]@));
            assert(all.take(i as int).filter_map(f) + Seq::empty() =~= all.take(
                i as int,
            ).filter_map(f));
        }
        let ghost before = result@.endpoints;
        if let Some(endpoint) = get_conflict_endpoint(&found[i], import_context) {
            proof {
                let wanted = postman::anonymous(endpoint@);
                text::lemma_views_push(result.endpoints@, endpoint);
                postman_export::lemma_appended_one(before, endpoint@, wanted);
                postman_export::lemma_appended_twice(
                    start.endpoints,
                    before,
                    before.push(endpoint@),
                    all.take(i as int).filter_map(f),
                    seq![wanted],
                );
            }
            result.endpoints.push(endpoint);
        }
        i += 1;
    }
    proof {
        assert(all.take(all.len() as int) =~= all);
        let wanted = found_in_log(raw@, context);
        assert(start.environments + wanted.environments =~= start.environments);
        assert(start.collection_names_by_id.union_prefer_right(wanted.collections)
            =~= start.collection_names_by_id);
        assert(start.folders_by_id.union_prefer_right(wanted.folders) =~= start.folders_by_id);
    }
}

// ---------------------------------------------------------------------------
// Files
// ---------------------------------------------------------------------------

/// The largest exported file that is read.
pub const MAX_EXPORT_FILE: u64 = 8_388_608;

/// The largest cache file that is read.
pub const MAX_CACHE_FILE: u64 = 16_777_216;

/// The largest requester log that is read.
pub const MAX_LOG_FILE: u64 = 67_108_864;

/// The largest file of a store that is read.
pub const MAX_STORE_FILE: u64 = 100_663_296;

/// How many entries of a store are read.
pub const MAX_STORE_ENTRIES: usize = 1_500_000;

/// Whether the last component of a path names a store.
pub open spec fn names_store(name: Option<Seq<char>>) -> bool {
    match name {
        Some(name) => text::finishes_with(text::ascii_lower(name), "leveldb"@),
        None => false,
    }
}

pub fn is_leveldb_directory(name: Option<&str>) -> (r: bool)
    ensures
        r == names_store(
            match name {
                Some(name) => Some(name@),
                None => None,
            },
        ),
{
    match name {
        Some(name) => ends_with(to_ascii_lower(name).as_str(), "leveldb"),
        None => false,
    }
}

/// Whether a file with the extension belongs to a store.
pub open spec fn is_store_extension(extension: Option<Seq<char>>) -> bool {
    match extension {
        Some(extension) => text::same_ignoring_case(extension, "ldb"@) || text::same_ignoring_case(
            extension,
            "log"@,
        ),
        None => false,
    }
}

pub fn is_leveldb_data_file(extension: Option<&str>) -> (r: bool)
    ensures
        r == is_store_extension(
            match extension {
                Some(extension) => Some(extension@),
                None => None,
            },
        ),
{
    match extension {
        Some(extension) => eq_ignore_case(extension, "ldb") || eq_ignore_case(extension, "log"),
        None => false,
    }
}

/// Whether a file with the extension is read as an export, or as a stored request.
pub fn is_json_file(extension: Option<&str>) -> (r: bool)
    ensures
        r == match extension {
            Some(extension) => text::same_ignoring_case(extension@, "json"@),
            None => false,
        },
{
    match extension {
        Some(extension) => eq_ignore_case(extension, "json"),
        None => false,
    }
}

/// Whether a path leads into the HTTP cache.
pub fn is_postman_cache_data_file(path: &str) -> (r: bool)
    ensures
        r == (text::has_part(path@, "Cache/Cache_Data"@) || text::has_part(
            path@,
            "Cache\\Cache_Data"@,
        )),
{
    contains_part(path, "Cache/Cache_Data") || contains_part(path, "Cache\\Cache_Data")
}

/// Whether a path leads into the local storage.
pub fn is_local_storage_file(path: &str) -> (r: bool)
    ensures
        r == (text::has_part(path@, "Local Storage/leveldb"@) || text::has_part(
            path@,
            "Local Storage\\leveldb"@,
        )),
{
    contains_part(path, "Local Storage/leveldb") || contains_part(path, "Local Storage\\leveldb")
}

/// Whether a path leads into an indexed database.
pub fn is_indexed_database_file(path: &str) -> (r: bool)
    ensures
        r == text::has_part(path@, "indexeddb.leveldb"@),
{
    contains_part(path, "indexeddb.leveldb")
}

/// Whether a file of that name is a requester log.
pub fn is_requester_log(file_name: &str) -> (r: bool)
    ensures
        r == (text::begins_with(file_name@, "renderer-requester"@) && text::finishes_with(
            file_name@,
            ".log"@,
        )),
{
    starts_with(file_name, "renderer-requester") && ends_with(file_name, ".log")
}

/// Whether a file of a store goes into a copy of it.
pub fn is_copied_with_store(file_name: &str, extension: Option<&str>) -> (r: bool)
    ensures
        r == (is_store_extension(
            match extension {
                Some(extension) => Some(extension@),
                None => None,
            },
        ) || text::same_ignoring_case(file_name@, "CURRENT"@) || text::same_ignoring_case(
            file_name@,
            "LOCK"@,
        ) || text::same_ignoring_case(file_name@, "LOG"@) || text::same_ignoring_case(
            file_name@,
            "LOG.old"@,
        ) || text::begins_with(file_name@, "MANIFEST-"@)),
{
    is_leveldb_data_file(extension) || eq_ignore_case(file_name, "CURRENT") || eq_ignore_case(
        file_name,
        "LOCK",
    ) || eq_ignore_case(file_name, "LOG") || eq_ignore_case(file_name, "LOG.old") || starts_with(
        file_name,
        "MANIFEST-",
    )
}

/// How much a store counts when one of several is chosen.
pub open spec fn store_priority(path: Seq<char>) -> u8 {
    let path = text::ascii_lower(path);
    if text::has_part(path, "https_desktop.postman.com_0.indexeddb.leveldb"@) {
        3
    } else if text::has_part(path, "indexeddb.leveldb"@) {
        2
    } else if text::has_part(path, "local storage/leveldb"@) || text::has_part(
        path,
        "local storage\\leveldb"@,
    ) {
        1
    } else {
        0
    }
}

fn get_store_priority(path: &str) -> (r: u8)
    ensures
        r == store_priority(path@),
{
    let path = to_ascii_lower(path);
    let path = path.as_str();
    if contains_part(path, "https_desktop.postman.com_0.indexeddb.leveldb") {
        3
    } else if contains_part(path, "indexeddb.leveldb") {
        2
    } else if contains_part(path, "local storage/leveldb") || contains_part(
        path,
        "local storage\\leveldb",
    ) {
        1
    } else {
        0
    }
}

/// The latest of the times.
pub fn newest_leveldb_file_time(times: &Vec<u128>) -> (r: Option<u128>)
    ensures
        match r {
            Some(time) => times@.contains(time) && forall|i: int|
                0 <= i < times@.len() ==> #[trigger] times@[i] <= time,
            None => times@.len() == 0,
        },
{
    if times.len() == 0 {
        return None;
    }
    let mut newest: u128 = times[0];
    let mut i: usize = 1;
    assert(times@[0] == newest);
    while i < times.len()
        invariant
            1 <= i <= times@.len(),
            times@.contains(newest),
            forall|j: int| 0 <= j < i ==> #[trigger] times@[j] <= newest,
        decreases times@.len() - i,
    {
        if times[i] > newest {
            newest = times[i];
            assert(times@[i as int] == newest);
        }
        i += 1;
    }
    Some(newest)
}

/// A store, with the time of its newest file where it has any.
#[derive(Debug, PartialEq, Eq)]
pub struct StoreDirectory {
    pub path: String,
    pub newest: Option<u128>,
}

/// Whether the store at `j` is chosen over that at `i`: by priority, then by time, the later of
/// two that are equal in both. A store without files is not chosen at all.
pub open spec fn outranks(directories: Seq<StoreDirectory>, j: int, i: int) -> bool {
    let a = directories[j];
    let b = directories[i];
    let p = store_priority(a.path@);
    let q = store_priority(b.path@);
    a.newest is Some && (b.newest is None || p > q || p == q && (a.newest->0 > b.newest->0
        || a.newest->0 == b.newest->0 && j >= i))
}

/// The store that is chosen: the one that outranks all others.
pub fn select_latest_leveldb_directory(directories: &Vec<StoreDirectory>) -> (r: Option<usize>)
    ensures
        match r {
            Some(best) => best < directories@.len() && forall|i: int|
                0 <= i < directories@.len() ==> outranks(directories@, best as int, i),
            None => forall|i: int|
                0 <= i < directories@.len() ==> (#[trigger] directories@[i]).newest is None,
        },
{
    let mut best: Option<usize> = None;
    let mut best_priority: u8 = 0;
    let mut best_time: u128 = 0;
    let mut i: usize = 0;
    while i < directories.len()
        invariant
            i <= directories@.len(),
            match best {
                Some(k) => k < i && directories@[k as int].newest == Some(best_time)
                    && best_priority == store_priority(directories@[k as int].path@) && forall|
                    j: int,
                |
                    0 <= j < i ==> outranks(directories@, k as int, j),
                None => forall|j: int|
                    0 <= j < i ==> (#[trigger] directories@[j]).newest is None,
            },
        decreases directories@.len() - i,
    {
        if let Some(time) = directories[i].newest {
            let priority: u8 = get_store_priority(directories[i].path.as_str());
            let is_better = match best {
                Some(_) => priority > best_priority || (priority == best_priority && time
                    >= best_time),
                None => true,
            };
            if is_better {
                assert forall|j: int| 0 <= j < i + 1 implies outranks(
                    directories@,
                    i as int,
                    j,
                ) by {
                    if let Some(k) = best {
                        if j < i {
                            assert(outranks(directories@, k as int, j));
                        }
                    } else if j < i {
                        assert(directories@[j].newest is None);
                    }
                }
                best = Some(i);
                best_priority = priority;
                best_time = time;
            }
        }
        i += 1;
    }
    best
}

// ---------------------------------------------------------------------------
// Where to look
// ---------------------------------------------------------------------------

pub open spec fn part(name: Option<&str>) -> Option<Seq<char>> {
    match name {
        Some(name) => Some(name@),
        None => None,
    }
}

/// Whether a path leads to a store or to a file of one.
pub open spec fn leads_to_store(
    is_file: bool,
    name: Option<Seq<char>>,
    extension: Option<Seq<char>>,
) -> bool {
    is_file && is_store_extension(extension) || names_store(name)
}

/// Where the files of a path are looked for.
#[derive(Clone, Copy, Debug, PartialEq, Eq, Structural)]
pub enum ScanRoot {
    /// Below the path itself.
    Given,
    /// Below the directory of the installation that it belongs to.
    Installation,
}

/// Where the files of a path are looked for: a store is only part of an installation.
pub fn resolve_postman_scan_root(
    is_file: bool,
    name: Option<&str>,
    extension: Option<&str>,
) -> (r: ScanRoot)
    ensures
        r == (if leads_to_store(is_file, part(name), part(extension)) {
            ScanRoot::Installation
        } else {
            ScanRoot::Given
        }),
{
    if is_file && is_leveldb_data_file(extension) {
        return ScanRoot::Installation;
    }
    if is_leveldb_directory(name) {
        return ScanRoot::Installation;
    }
    ScanRoot::Given
}

/// The directory of the installation: of the directories from the path outward, given by whether
/// each holds the data of one, the first that does.
pub fn resolve_postman_context_root(holds_data: &Vec<bool>) -> (r: Option<usize>)
    ensures
        match r {
            Some(i) => i < holds_data@.len() && holds_data@[i as int] && forall|j: int|
                0 <= j < i ==> !(#[trigger] holds_data@[j]),
            None => forall|j: int| 0 <= j < holds_data@.len() ==> !(#[trigger] holds_data@[j]),
        },
{
    let mut i: usize = 0;
    while i < holds_data.len()
        invariant
            i <= holds_data@.len(),
            forall|j: int| 0 <= j < i ==> !(#[trigger] holds_data@[j]),
        decreases holds_data@.len() - i,
    {
        if holds_data[i] {
            return Some(i);
        }
        i += 1;
    }
    None
}

/// Which store is read for a path.
#[derive(Clone, Copy, Debug, PartialEq, Eq, Structural)]
pub enum StoreChoice {
    /// The directory that was given.
    Given,
    /// The directory of the file that was given.
    Enclosing,
    /// No store.
    Nothing,
    /// The best of those below the directory that was given.
    Best,
}

/// Which store is read for a path: a store itself, the store of a file of one, or else the best
/// of those below.
pub fn resolve_leveldb_directories_for_import(
    is_file: bool,
    name: Option<&str>,
    extension: Option<&str>,
    parent_name: Option<&str>,
) -> (r: StoreChoice)
    ensures
        r == (if names_store(part(name)) {
            StoreChoice::Given
        } else if is_file && is_store_extension(part(extension)) {
            if names_store(part(parent_name)) {
                StoreChoice::Enclosing
            } else {
                StoreChoice::Nothing
            }
        } else {
            StoreChoice::Best
        }),
{
    if is_leveldb_directory(name) {
        return StoreChoice::Given;
    }
    if is_file && is_leveldb_data_file(extension) {
        if is_leveldb_directory(parent_name) {
            return StoreChoice::Enclosing;
        }
        return StoreChoice::Nothing;
    }
    StoreChoice::Best
}

/// What all parts of a scan came to: exports, cache, store and logs, in this order. `None` where
/// the files cannot be counted.
pub fn scan_postman_directory(
    exports: ImportScanResult,
    cache: ImportScanResult,
    store: ImportScanResult,
    logs: ImportScanResult,
) -> (r: Option<ImportScanResult>)
    ensures
        match r {
            Some(all) => {
                &&& exports.files_scanned + cache.files_scanned + store.files_scanned
                    + logs.files_scanned <= usize::MAX
                &&& all@ == scan::merged_scans(
                    scan::merged_scans(scan::merged_scans(exports@, cache@), store@),
                    logs@,
                )
            },
            None => exports.files_scanned + cache.files_scanned + store.files_scanned
                + logs.files_scanned > usize::MAX,
        },
{
    let count = match exports.files_scanned.checked_add(cache.files_scanned) {
        Some(count) => count,
        None => {
            return None;
        },
    };
    let count = match count.checked_add(store.files_scanned) {
        Some(count) => count,
        None => {
            return None;
        },
    };
    match count.checked_add(logs.files_scanned) {
        Some(_) => {},
        None => {
            return None;
        },
    }
    let mut all = exports;
    merge_import_scan_result(&mut all, cache);
    merge_import_scan_result(&mut all, store);
    merge_import_scan_result(&mut all, logs);
    Some(all)
}

// ---------------------------------------------------------------------------
// Laws
// ---------------------------------------------------------------------------

proof fn lemma_stated_ids(
    found: Seq<Seq<Option<Seq<char>>>>,
    read: spec_fn(Seq<Option<Seq<char>>>) -> Option<Seq<char>>,
    id: Seq<char>,
)
    ensures
        stated_ids(found, read).contains(id) <==> exists|k: int|
            0 <= k < found.len() && read(#[trigger] found[k]) == Some(id),
    decreases found.len(),
{
    if found.len() > 0 {
        let rest = found.drop_last();
        let n = found.len() - 1;
        lemma_stated_ids(rest, read, id);
        assert(found[n] == found.last());
        if stated_ids(rest, read).contains(id) {
            let k = choose|k: int| 0 <= k < rest.len() && read(#[trigger] rest[k]) == Some(id);
            assert(found[k] == rest[k]);
        }
        if exists|k: int| 0 <= k < found.len() && read(#[trigger] found[k]) == Some(id) {
            let k = choose|k: int| 0 <= k < found.len() && read(#[trigger] found[k]) == Some(id);
            if k < n {
                assert(rest[k] == found[k]);
            }
        }
    }
}

proof fn lemma_in_all(
    texts: Seq<Seq<char>>,
    find: spec_fn(Seq<char>) -> Set<Seq<char>>,
    id: Seq<char>,
)
    ensures
        in_all(texts, find).contains(id) <==> exists|k: int|
            0 <= k < texts.len() && find(#[trigger] texts[k]).contains(id),
    decreases texts.len(),
{
    if texts.len() > 0 {
        let rest = texts.drop_last();
        let n = texts.len() - 1;
        lemma_in_all(rest, find, id);
        assert(texts[n] == texts.last());
        if in_all(rest, find).contains(id) {
            let k = choose|k: int| 0 <= k < rest.len() && find(#[trigger] rest[k]).contains(id);
            assert(texts[k] == rest[k]);
        }
        if exists|k: int| 0 <= k < texts.len() && find(#[trigger] texts[k]).contains(id) {
            let k = choose|k: int| 0 <= k < texts.len() && find(#[trigger] texts[k]).contains(id);
            if k < n {
                assert(rest[k] == texts[k]);
            }
        }
    }
}

proof fn lemma_file_text(files: Seq<Vec<u8>>, limit: int, f: int)
    requires
        0 <= f < files.len(),
        files[f]@.len() <= limit,
    ensures
        file_texts(files, limit).contains(bytes::lossy(files[f]@)),
{
    let g = |file: Vec<u8>|
        if file@.len() > limit {
            None
        } else {
            Some(bytes::lossy(file@))
        };
    text::lemma_filter_map_holds(files, g, f, bytes::lossy(files[f]@));
}

/// A collection that the databases name with one of the workspaces is imported with it, in
/// whichever file it stands.
pub proof fn law_collections_of_the_workspaces_are_found(
    files: Seq<Vec<u8>>,
    workspaces: Set<Seq<char>>,
    f: int,
    found: Seq<Option<Seq<char>>>,
    id: Seq<char>,
    workspace: Seq<char>,
)
    requires
        0 <= f < files.len(),
        files[f]@.len() <= 67_108_864,
        matches_of(
            "collection/([0-9A-Za-z-]{8,80})/([0-9a-fA-F-]{36})"@,
            bytes::lossy(files[f]@),
        ).contains(found),
        found.len() == 3,
        found[1] == Some(id),
        found[2] == Some(workspace),
        workspaces.contains(workspace),
    ensures
        collection_ids(files, workspaces).contains(id),
{
    let content = bytes::lossy(files[f]@);
    let all = matches_of(collection_pattern(), content);
    let read = |found: Seq<Option<Seq<char>>>| collection_of(found, workspaces);
    let find = |content: Seq<char>| collections_in(content, workspaces);
    let texts = file_texts(files, MAX_DATABASE_FILE as int);
    let k = choose|k: int| 0 <= k < all.len() && all[k] == found;
    assert(read(all[k]) == Some(id));
    lemma_stated_ids(all, read, id);
    lemma_file_text(files, MAX_DATABASE_FILE as int, f);
    let t = choose|t: int| 0 <= t < texts.len() && texts[t] == content;
    assert(find(texts[t]).contains(id));
    lemma_in_all(texts, find, id);
    assert(workspaces != Set::<Seq<char>>::empty());
}

/// A collection of another workspace is not.
pub proof fn law_other_collections_are_left_out(
    files: Seq<Vec<u8>>,
    workspaces: Set<Seq<char>>,
    id: Seq<char>,
)
    requires
        collection_ids(files, workspaces).contains(id),
    ensures
        exists|content: Seq<char>, k: int|
            0 <= k < matches_of(collection_pattern(), content).len() && {
                let found = #[trigger] matches_of(collection_pattern(), content)[k];
                &&& group(found, 1) == Some(id)
                &&& group(found, 2) matches Some(workspace) && workspaces.contains(workspace)
            },
{
    let read = |found: Seq<Option<Seq<char>>>| collection_of(found, workspaces);
    let find = |content: Seq<char>| collections_in(content, workspaces);
    let texts = file_texts(files, MAX_DATABASE_FILE as int);
    lemma_in_all(texts, find, id);
    let t = choose|t: int| 0 <= t < texts.len() && find(#[trigger] texts[t]).contains(id);
    let all = matches_of(collection_pattern(), texts[t]);
    lemma_stated_ids(all, read, id);
    let k = choose|k: int| 0 <= k < all.len() && read(#[trigger] all[k]) == Some(id);
    assert(collection_of(all[k], workspaces) == Some(id));
}

/// The workspace that was active last is imported, where no name is asked for or it has the one
/// that is.
pub proof fn law_active_workspace_is_found(
    files: Seq<Vec<u8>>,
    name: Option<Seq<char>>,
    f: int,
    found: Seq<Option<Seq<char>>>,
    id: Seq<char>,
    title: Seq<char>,
)
    requires
        0 <= f < files.len(),
        files[f]@.len() <= 33_554_432,
        matches_of(
            "lastActiveWorkspaceData.*?\"id\":\"([0-9a-fA-F-]{36})\",\"name\":\"([^\"]+)\""@,
            bytes::lossy(files[f]@),
        ).contains(found),
        found.len() == 3,
        found[1] == Some(id),
        found[2] == Some(title),
        name matches Some(asked) ==> folders::slug(asked).len() == 0 || folders::slug(asked)
            == folders::slug(title),
    ensures
        workspace_ids(files, name).contains(id),
{
    let content = bytes::lossy(files[f]@);
    let slug = wanted_slug(name);
    let all = matches_of(last_active_pattern(), content);
    let read = |found: Seq<Option<Seq<char>>>| active_workspace(found, slug);
    let find = |content: Seq<char>| active_in(content, slug);
    let texts = file_texts(files, MAX_LOCAL_STORAGE_FILE as int);
    let k = choose|k: int| 0 <= k < all.len() && all[k] == found;
    assert(read(all[k]) == Some(id));
    lemma_stated_ids(all, read, id);
    lemma_file_text(files, MAX_LOCAL_STORAGE_FILE as int, f);
    let t = choose|t: int| 0 <= t < texts.len() && texts[t] == content;
    assert(find(texts[t]).contains(id));
    lemma_in_all(texts, find, id);
    assert(in_all(texts, find).contains(id));
}

/// A resource that a requester log holds as an escaped string is imported like any other.
pub proof fn law_resource_in_a_log_is_found(
    data: Seq<u8>,
    found: Seq<Option<Seq<char>>>,
    encoded: Seq<char>,
    content: Seq<char>,
    object: postman::Fields,
    context: ContextView,
    endpoint: EndpointView,
)
    requires
        matches_of(conflict_pattern(), bytes::lossy(data)).contains(found),
        found.len() == 2,
        found[1] == Some(encoded),
        json::json_reading("\""@ + encoded + "\""@) == Ok::<JsonTree, Seq<char>>(
            JsonTree::Text(content),
        ),
        json::json_reading(content) == Ok::<JsonTree, Seq<char>>(JsonTree::Record(object)),
        postman_cache::resource_endpoint(object, context) == Some(endpoint),
    ensures
        found_in_log(data, context).endpoints.contains(endpoint),
{
    let all = matches_of(conflict_pattern(), bytes::lossy(data));
    let f = |found: Seq<Option<Seq<char>>>| conflict_endpoint(found, context);
    let k = choose|k: int| 0 <= k < all.len() && all[k] == found;
    assert(f(all[k]) == Some(endpoint));
    text::lemma_filter_map_holds(all, f, k, endpoint);
}

proof fn lemma_none_is_active(files: Seq<Vec<u8>>, name: Option<Seq<char>>)
    requires
        forall|f: int|
            0 <= f < files.len() ==> matches_of(
                last_active_pattern(),
                bytes::lossy((#[trigger] files[f])@),
            ).len() == 0,
    ensures
        ({
            let texts = file_texts(files, MAX_LOCAL_STORAGE_FILE as int);
            let slug = wanted_slug(name);
            in_all(texts, |content: Seq<char>| active_in(content, slug)) == Set::<
                Seq<char>,
            >::empty()
        }),
{
    let texts = file_texts(files, MAX_LOCAL_STORAGE_FILE as int);
    let slug = wanted_slug(name);
    let find = |content: Seq<char>| active_in(content, slug);
    let g = |file: Vec<u8>|
        if file@.len() > MAX_LOCAL_STORAGE_FILE as int {
            None
        } else {
            Some(bytes::lossy(file@))
        };
    assert forall|id: Seq<char>| !in_all(texts, find).contains(id) by {
        lemma_in_all(texts, find, id);
        if in_all(texts, find).contains(id) {
            let t = choose|t: int| 0 <= t < texts.len() && find(#[trigger] texts[t]).contains(id);
            assert(texts.contains(texts[t]));
            files.lemma_filter_map_contains(g, texts[t]);
            let f = choose|f: int| 0 <= f < files.len() && g(files[f]) == Some(texts[t]);
            assert(bytes::lossy(files[f]@) == texts[t]);
        }
    }
    assert(in_all(texts, find) =~= Set::<Seq<char>>::empty());
}

/// Where no workspace was active, the workspaces are imported to whose pages a route with the
/// asked name leads.
pub proof fn law_routed_workspace_is_found(
    files: Seq<Vec<u8>>,
    asked: Seq<char>,
    f: int,
    found: Seq<Option<Seq<char>>>,
    id: Seq<char>,
)
    requires
        forall|f: int|
            0 <= f < files.len() ==> matches_of(
                last_active_pattern(),
                bytes::lossy((#[trigger] files[f])@),
            ).len() == 0,
        folders::slug(asked).len() > 0,
        0 <= f < files.len(),
        files[f]@.len() <= 33_554_432,
        matches_of(
            "workspace/"@ + escaped_pattern(folders::slug(asked)) + "~([0-9a-fA-F-]{36})"@,
            bytes::lossy(files[f]@),
        ).contains(found),
        found.len() == 2,
        found[1] == Some(id),
    ensures
        workspace_ids(files, Some(asked)).contains(id),
{
    lemma_none_is_active(files, Some(asked));
    let content = bytes::lossy(files[f]@);
    let slug = folders::slug(asked);
    let all = matches_of(slug_pattern(slug), content);
    let read = |found: Seq<Option<Seq<char>>>| group(found, 1);
    let find = |content: Seq<char>| routed_in(content, slug);
    let texts = file_texts(files, MAX_LOCAL_STORAGE_FILE as int);
    let k = choose|k: int| 0 <= k < all.len() && all[k] == found;
    assert(read(all[k]) == Some(id));
    lemma_stated_ids(all, read, id);
    lemma_file_text(files, MAX_LOCAL_STORAGE_FILE as int, f);
    let t = choose|t: int| 0 <= t < texts.len() && texts[t] == content;
    assert(find(texts[t]).contains(id));
    lemma_in_all(texts, find, id);
}

/// Where no workspace was active and none is asked for, the workspace of the first route in the
/// first file that has one is imported, and no other.
pub proof fn law_first_route_is_followed(
    files: Seq<Vec<u8>>,
    f: int,
    id: Seq<char>,
)
    requires
        forall|f: int|
            0 <= f < files.len() ==> matches_of(
                last_active_pattern(),
                bytes::lossy((#[trigger] files[f])@),
            ).len() == 0 && files[f]@.len() <= 33_554_432,
        0 <= f < files.len(),
        forall|g: int|
            0 <= g < f ==> matches_of(
                "workspace/[A-Za-z0-9._-]+~([0-9a-fA-F-]{36})"@,
                bytes::lossy((#[trigger] files[g])@),
            ).len() == 0,
        ({
            let all = matches_of(
                "workspace/[A-Za-z0-9._-]+~([0-9a-fA-F-]{36})"@,
                bytes::lossy(files[f]@),
            );
            all.len() > 0 && all[0].len() == 2 && all[0][1] == Some(id)
        }),
    ensures
        workspace_ids(files, None) == Set::<Seq<char>>::empty().insert(id),
{
    lemma_none_is_active(files, None);
    let texts = file_texts(files, MAX_LOCAL_STORAGE_FILE as int);
    let g = |file: Vec<u8>|
        if file@.len() > MAX_LOCAL_STORAGE_FILE as int {
            None
        } else {
            Some(bytes::lossy(file@))
        };
    let contents = files.map_values(|file: Vec<u8>| bytes::lossy(file@));
    text::lemma_filter_map_of_all(files, g);
    assert(texts =~= contents);
    lemma_first_routed(texts, f, id);
}

proof fn lemma_first_routed(texts: Seq<Seq<char>>, f: int, id: Seq<char>)
    requires
        0 <= f < texts.len(),
        forall|g: int| 0 <= g < f ==> first_route(#[trigger] texts[g]) is None,
        first_route(texts[f]) == Some(id),
    ensures
        first_routed(texts) == Set::<Seq<char>>::empty().insert(id),
    decreases f,
{
    if f > 0 {
        let rest = texts.drop_first();
        assert(first_route(texts[0]) is None);
        assert forall|g: int| 0 <= g < f - 1 implies first_route(#[trigger] rest[g]) is None by {
            assert(rest[g] == texts[g + 1]);
        }
        lemma_first_routed(rest, f - 1, id);
    }
}

/// A store is known by the end of its name, a file of one by its extension, in any case of
/// letters.
pub proof fn law_stores_are_known_by_name(name: Seq<char>, ending: Seq<char>, extension: Seq<char>)
    requires
        text::same_ignoring_case(ending, "leveldb"@),
    ensures
        names_store(Some(name + ending)),
        !names_store(None),
        is_store_extension(Some(extension)) <==> text::ascii_lower(extension) == text::ascii_lower(
            "ldb"@,
        ) || text::ascii_lower(extension) == text::ascii_lower("log"@),
        !is_store_extension(None),
{
    reveal_strlit("leveldb");
    let lower = text::ascii_lower(name + ending);
    assert(text::ascii_lower("leveldb"@) =~= "leveldb"@);
    assert(lower =~= text::ascii_lower(name) + text::ascii_lower(ending));
    assert(lower.subrange(lower.len() - 7, lower.len() as int) =~= "leveldb"@);
}

/// The store of the desktop database counts most, other databases come next, then local storage.
pub proof fn law_databases_come_first(path: Seq<char>)
    ensures
        ({
            let lower = text::ascii_lower(path);
            let desktop = text::has_part(lower, "https_desktop.postman.com_0.indexeddb.leveldb"@);
            let database = text::has_part(lower, "indexeddb.leveldb"@);
            let local = text::has_part(lower, "local storage/leveldb"@) || text::has_part(
                lower,
                "local storage\\leveldb"@,
            );
            &&& desktop <==> store_priority(path) == 3
            &&& store_priority(path) >= 2 <==> desktop || database
            &&& store_priority(path) >= 1 <==> desktop || database || local
        }),
{
}

/// Of two stores exactly one is chosen over the other, where one has files: that which counts
/// more; of two that count the same, that with the newer file.
pub proof fn law_better_store_is_chosen(directories: Seq<StoreDirectory>, i: int, j: int)
    requires
        0 <= i < directories.len(),
        0 <= j < directories.len(),
        i != j,
        directories[j].newest is Some,
    ensures
        outranks(directories, j, i) <==> !outranks(directories, i, j),
        directories[i].newest is None ==> outranks(directories, j, i),
        directories[i].newest is Some && store_priority(directories[j].path@) > store_priority(
            directories[i].path@,
        ) ==> outranks(directories, j, i),
        directories[i].newest matches Some(time) ==> store_priority(directories[j].path@)
            == store_priority(directories[i].path@) && directories[j].newest->0 > time ==> outranks(
            directories,
            j,
            i,
        ),
{
}

} // verus!
