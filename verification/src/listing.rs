//! The list of requests, by collection and folder.
use crate::folders;
use crate::folders::collection_name_of;
use crate::models::{Endpoint, EndpointView};
use crate::sorting;
use crate::sorting::{listed_places, KeyView, SortKey};
use crate::tabs;
use crate::tabs::{RequestTab, TabView};
use crate::text;
use crate::text::{copy_opt, is_text, less, same_text, trimmed};
use crate::workspace;
use crate::workspace::{Workspace, WorkspaceView};
use vstd::prelude::*;

verus! {

/// A request in the list: a saved one, an open one, or both.
pub struct SidebarRequestItem {
    pub endpoint_id: String,
    pub saved_endpoint_id: Option<String>,
    pub tab_id: Option<String>,
    pub method: String,
    pub name: String,
    pub collection: String,
    pub folder_path: String,
    pub is_dirty: bool,
}

#[verifier::ext_equal]
pub struct ItemView {
    pub endpoint_id: Seq<char>,
    pub saved_endpoint_id: Option<Seq<char>>,
    pub tab_id: Option<Seq<char>>,
    pub method: Seq<char>,
    pub name: Seq<char>,
    pub collection: Seq<char>,
    pub folder_path: Seq<char>,
    pub is_dirty: bool,
}

impl View for SidebarRequestItem {
    type V = ItemView;

    open spec fn view(&self) -> ItemView {
        ItemView {
            endpoint_id: self.endpoint_id@,
            saved_endpoint_id: text::opt(self.saved_endpoint_id),
            tab_id: text::opt(self.tab_id),
            method: self.method@,
            name: self.name@,
            collection: self.collection@,
            folder_path: self.folder_path@,
            is_dirty: self.is_dirty,
        }
    }
}

impl Clone for SidebarRequestItem {
    fn clone(&self) -> (r: Self)
        ensures
            r@ == self@,
    {
        SidebarRequestItem {
            endpoint_id: self.endpoint_id.clone(),
            saved_endpoint_id: copy_opt(&self.saved_endpoint_id),
            tab_id: copy_opt(&self.tab_id),
            method: self.method.clone(),
            name: self.name.clone(),
            collection: self.collection.clone(),
            folder_path: self.folder_path.clone(),
            is_dirty: self.is_dirty,
        }
    }
}

/// How an endpoint stands in the list.
pub open spec fn item_of(
    endpoint: EndpointView,
    saved_endpoint_id: Option<Seq<char>>,
    tab_id: Option<Seq<char>>,
    is_dirty: bool,
) -> ItemView {
    ItemView {
        endpoint_id: endpoint.id,
        saved_endpoint_id,
        tab_id,
        method: endpoint.method,
        name: endpoint.name,
        collection: folders::collection_name(endpoint.collection),
        folder_path: text::trim(endpoint.folder_path),
        is_dirty,
    }
}

fn make_item(
    endpoint: &Endpoint,
    saved_endpoint_id: Option<String>,
    tab_id: Option<String>,
    is_dirty: bool,
) -> (r: SidebarRequestItem)
    ensures
        r@ == item_of(endpoint@, text::opt(saved_endpoint_id), text::opt(tab_id), is_dirty),
{
    SidebarRequestItem {
        endpoint_id: endpoint.id.clone(),
        saved_endpoint_id,
        tab_id,
        method: endpoint.method.clone(),
        name: endpoint.name.clone(),
        collection: collection_name_of(endpoint.collection.as_str()),
        folder_path: trimmed(endpoint.folder_path.as_str()),
        is_dirty,
    }
}

/// Where the item of the saved endpoint first stands; their number where there is none.
pub open spec fn item_at(items: Seq<ItemView>, saved_id: Seq<char>) -> int
    decreases items.len(),
{
    if items.len() == 0 || items[0].saved_endpoint_id == Some(saved_id) {
        0
    } else {
        1 + item_at(items.drop_first(), saved_id)
    }
}

fn find_item(items: &Vec<SidebarRequestItem>, saved_id: &str) -> (r: usize)
    ensures
        r == item_at(text::views(items@), saved_id@),
        r <= items@.len(),
{
    let ghost all = text::views(items@);
    let mut i: usize = 0;
    assert(all.skip(0) =~= all);
    while i < items.len() && !is_text(&items[i].saved_endpoint_id, saved_id)
        invariant
            i <= items@.len(),
            all == text::views(items@),
            item_at(all, saved_id@) == i + item_at(all.skip(i as int), saved_id@),
        decreases items@.len() - i,
    {
        assert(all.skip(i as int)[0] == items@[i as int]@);
        assert(all.skip(i as int).drop_first() =~= all.skip(i + 1));
        i += 1;
    }
    if i < items.len() {
        assert(all.skip(i as int)[0] == items@[i as int]@);
    }
    i
}

/// The items with an open tab: in place of that of its saved endpoint, or behind all.
pub open spec fn with_tab_item(items: Seq<ItemView>, tab: TabView) -> Seq<ItemView> {
    match tab.saved_endpoint_id {
        Some(id) => {
            let at = item_at(items, id);
            if at < items.len() {
                items.update(at, item_of(tab.draft, Some(id), Some(tab.id), tab.is_dirty))
            } else {
                items.push(item_of(tab.draft, None, Some(tab.id), tab.is_dirty))
            }
        },
        None => items.push(item_of(tab.draft, None, Some(tab.id), tab.is_dirty)),
    }
}

pub open spec fn with_tab_items(items: Seq<ItemView>, open: Seq<TabView>) -> Seq<ItemView>
    decreases open.len(),
{
    if open.len() == 0 {
        items
    } else {
        with_tab_item(with_tab_items(items, open.drop_last()), open.last())
    }
}

pub open spec fn saved_items(endpoints: Seq<EndpointView>) -> Seq<ItemView> {
    endpoints.map_values(
        |endpoint: EndpointView| item_of(endpoint, Some(endpoint.id), None, false),
    )
}

pub open spec fn item_key(item: ItemView) -> KeyView {
    sorting::listing_key(item.collection, item.folder_path, item.name)
}

pub open spec fn sorted_items(items: Seq<ItemView>) -> Seq<ItemView> {
    sorting::listing(items.map_values(|item: ItemView| item_key(item))).map_values(
        |place: int| items[place],
    )
}

/// The list of the requests of a workspace.
pub open spec fn listed(ws: WorkspaceView) -> Seq<ItemView> {
    sorted_items(with_tab_items(saved_items(ws.saved_endpoints), ws.open_request_tabs))
}

fn add_tab_item(items: &mut Vec<SidebarRequestItem>, tab: &RequestTab)
    ensures
        text::views(final(items)@) == with_tab_item(text::views(old(items)@), tab@),
{
    match &tab.saved_endpoint_id {
        Some(id) => {
            let at = find_item(items, id.as_str());
            if at < items.len() {
                let item = make_item(
                    &tab.draft,
                    Some(id.clone()),
                    Some(tab.id.clone()),
                    tab.is_dirty,
                );
                proof {
                    text::lemma_views_update(items@, at as int, item);
                }
                items.set(at, item);
                return;
            }
        },
        None => {},
    }
    let item = make_item(&tab.draft, None, Some(tab.id.clone()), tab.is_dirty);
    proof {
        text::lemma_views_push(items@, item);
    }
    items.push(item);
}

fn sort_items(items: &Vec<SidebarRequestItem>) -> (r: Vec<SidebarRequestItem>)
    ensures
        text::views(r@) == sorted_items(text::views(items@)),
{
    let ghost all = text::views(items@);
    let ghost wanted = all.map_values(|item: ItemView| item_key(item));
    let mut keys: Vec<SortKey> = Vec::new();
    let mut i: usize = 0;
    while i < items.len()
        invariant
            i <= items@.len(),
            all == text::views(items@),
            keys@.len() == i,
            forall|j: int| 0 <= j < i ==> (#[trigger] keys@[j])@ == item_key(all[j]),
        decreases items@.len() - i,
    {
        keys.push(
            SortKey::new(
                items[i].collection.as_str(),
                items[i].folder_path.as_str(),
                items[i].name.as_str(),
            ),
        );
        i += 1;
    }
    assert(text::views(keys@) =~= wanted);
    let places = listed_places(&keys);
    let ghost order = sorting::listing(wanted);
    proof {
        sorting::law_listing_is_in_order(wanted);
    }
    let mut r: Vec<SidebarRequestItem> = Vec::new();
    let mut n: usize = 0;
    while n < places.len()
        invariant
            n <= places@.len(),
            all == text::views(items@),
            order == places@.map_values(|place: usize| place as int),
            forall|k: int| 0 <= k < order.len() ==> 0 <= #[trigger] order[k] < all.len(),
            r@.len() == n,
            forall|j: int| 0 <= j < n ==> (#[trigger] r@[j])@ == all[order[j]],
        decreases places@.len() - n,
    {
        assert(order[n as int] == places@[n as int] as int);
        r.push(items[places[n]].clone());
        n += 1;
    }
    assert(text::views(r@) =~= sorted_items(all));
    r
}

// ---------------------------------------------------------------------------
// Groups
// ---------------------------------------------------------------------------

/// The requests of a folder.
pub struct FolderGroup {
    pub folder_path: String,
    pub items: Vec<SidebarRequestItem>,
}

/// The requests of a collection, by folder.
pub struct CollectionGroup {
    pub collection: String,
    pub folders: Vec<FolderGroup>,
}

pub struct FolderGroupView {
    pub folder_path: Seq<char>,
    pub items: Seq<ItemView>,
}

pub struct CollectionGroupView {
    pub collection: Seq<char>,
    pub folders: Seq<FolderGroupView>,
}

impl View for FolderGroup {
    type V = FolderGroupView;

    open spec fn view(&self) -> FolderGroupView {
        FolderGroupView { folder_path: self.folder_path@, items: text::views(self.items@) }
    }
}

impl View for CollectionGroup {
    type V = CollectionGroupView;

    open spec fn view(&self) -> CollectionGroupView {
        CollectionGroupView { collection: self.collection@, folders: text::views(self.folders@) }
    }
}

/// The names with one more, in their order; a name stands there once.
pub open spec fn with_name(names: Seq<Seq<char>>, name: Seq<char>) -> Seq<Seq<char>>
    decreases names.len(),
{
    if names.len() == 0 || text::comes_before(name, names[0]) {
        seq![name] + names
    } else if names[0] == name {
        names
    } else {
        seq![names[0]] + with_name(names.drop_first(), name)
    }
}

/// The names in their order, each of them once.
pub open spec fn ordered_names(names: Seq<Seq<char>>) -> Seq<Seq<char>>
    decreases names.len(),
{
    if names.len() == 0 {
        Seq::empty()
    } else {
        with_name(ordered_names(names.drop_last()), names.last())
    }
}

fn insert_name(names: &mut Vec<String>, name: String)
    ensures
        text::views(final(names)@) == with_name(text::views(old(names)@), name@),
{
    let ghost all = text::views(names@);
    let mut i: usize = 0;
    assert(all.skip(0) =~= all);
    assert(all.take(0) + with_name(all, name@) =~= with_name(all, name@));
    while i < names.len() && !less(name.as_str(), names[i].as_str())
        invariant
            i <= names@.len(),
            names@ == old(names)@,
            all == text::views(names@),
            with_name(all, name@) == all.take(i as int) + with_name(all.skip(i as int), name@),
        decreases names@.len() - i,
    {
        let ghost rest = all.skip(i as int);
        assert(rest[0] == names@[i as int]@);
        if same_text(names[i].as_str(), name.as_str()) {
            assert(all.take(i as int) + rest =~= all);
            return;
        }
        proof {
            assert(rest.drop_first() =~= all.skip(i + 1));
            assert(all.take(i as int) + (seq![rest[0]] + with_name(all.skip(i + 1), name@))
                =~= all.take(i + 1) + with_name(all.skip(i + 1), name@));
        }
        i += 1;
    }
    let ghost rest = all.skip(i as int);
    if i < names.len() {
        assert(rest[0] == names@[i as int]@);
    }
    names.insert(i, name);
    assert(text::views(names@) =~= all.take(i as int) + (seq![name@] + rest));
}

pub open spec fn collections_of(items: Seq<ItemView>) -> Seq<Seq<char>> {
    ordered_names(items.map_values(|item: ItemView| item.collection))
}

pub open spec fn folders_of(items: Seq<ItemView>) -> Seq<Seq<char>> {
    ordered_names(items.map_values(|item: ItemView| item.folder_path))
}

pub open spec fn in_collection(items: Seq<ItemView>, collection: Seq<char>) -> Seq<ItemView> {
    items.filter(|item: ItemView| item.collection == collection)
}

pub open spec fn in_folder(items: Seq<ItemView>, folder_path: Seq<char>) -> Seq<ItemView> {
    items.filter(|item: ItemView| item.folder_path == folder_path)
}

/// The requests of a collection, by folder.
pub open spec fn by_folder(items: Seq<ItemView>) -> Seq<FolderGroupView> {
    folders_of(items).map_values(
        |folder_path: Seq<char>|
            FolderGroupView { folder_path, items: in_folder(items, folder_path) },
    )
}

/// The requests by collection and folder; within a folder they stay in their order.
pub open spec fn grouped(items: Seq<ItemView>) -> Seq<CollectionGroupView> {
    collections_of(items).map_values(
        |collection: Seq<char>|
            CollectionGroupView {
                collection,
                folders: by_folder(in_collection(items, collection)),
            },
    )
}

fn find_collections(items: &Vec<SidebarRequestItem>) -> (r: Vec<String>)
    ensures
        text::views(r@) == collections_of(text::views(items@)),
{
    let ghost all = text::views(items@).map_values(|item: ItemView| item.collection);
    let mut r: Vec<String> = Vec::new();
    let mut i: usize = 0;
    assert(text::views(r@) =~= ordered_names(all.take(0)));
    while i < items.len()
        invariant
            i <= items@.len(),
            all == text::views(items@).map_values(|item: ItemView| item.collection),
            text::views(r@) == ordered_names(all.take(i as int)),
        decreases items@.len() - i,
    {
        proof {
            assert(all.take(i + 1).drop_last() =~= all.take(i as int));
            assert(all.take(i + 1).last() == items@[i as int].collection@);
        }
        insert_name(&mut r, items[i].collection.clone());
        i += 1;
    }
    assert(all.take(all.len() as int) =~= all);
    r
}

fn find_folders(items: &Vec<SidebarRequestItem>) -> (r: Vec<String>)
    ensures
        text::views(r@) == folders_of(text::views(items@)),
{
    let ghost all = text::views(items@).map_values(|item: ItemView| item.folder_path);
    let mut r: Vec<String> = Vec::new();
    let mut i: usize = 0;
    assert(text::views(r@) =~= ordered_names(all.take(0)));
    while i < items.len()
        invariant
            i <= items@.len(),
            all == text::views(items@).map_values(|item: ItemView| item.folder_path),
            text::views(r@) == ordered_names(all.take(i as int)),
        decreases items@.len() - i,
    {
        proof {
            assert(all.take(i + 1).drop_last() =~= all.take(i as int));
            assert(all.take(i + 1).last() == items@[i as int].folder_path@);
        }
        insert_name(&mut r, items[i].folder_path.clone());
        i += 1;
    }
    assert(all.take(all.len() as int) =~= all);
    r
}

fn pick_collection(items: &Vec<SidebarRequestItem>, collection: &str) -> (r: Vec<
    SidebarRequestItem,
>)
    ensures
        text::views(r@) == in_collection(text::views(items@), collection@),
{
    let ghost all = text::views(items@);
    let ghost p = |item: ItemView| item.collection == collection@;
    let mut r: Vec<SidebarRequestItem> = Vec::new();
    let mut i: usize = 0;
    reveal(Seq::filter);
    assert(text::views(r@) =~= all.take(0).filter(p));
    while i < items.len()
        invariant
            i <= items@.len(),
            all == text::views(items@),
            p == (|item: ItemView| item.collection == collection@),
            text::views(r@) == all.take(i as int).filter(p),
        decreases items@.len() - i,
    {
        let item = items[i].clone();
        proof {
            assert(all.take(i + 1).drop_last() =~= all.take(i as int));
            assert(all.take(i + 1).last() == item@);
            text::lemma_views_push(r@, item);
            reveal(Seq::filter);
        }
        if same_text(item.collection.as_str(), collection) {
            r.push(item);
        }
        i += 1;
    }
    assert(all.take(all.len() as int) =~= all);
    r
}

fn pick_folder(items: &Vec<SidebarRequestItem>, folder_path: &str) -> (r: Vec<SidebarRequestItem>)
    ensures
        text::views(r@) == in_folder(text::views(items@), folder_path@),
{
    let ghost all = text::views(items@);
    let ghost p = |item: ItemView| item.folder_path == folder_path@;
    let mut r: Vec<SidebarRequestItem> = Vec::new();
    let mut i: usize = 0;
    reveal(Seq::filter);
    assert(text::views(r@) =~= all.take(0).filter(p));
    while i < items.len()
        invariant
            i <= items@.len(),
            all == text::views(items@),
            p == (|item: ItemView| item.folder_path == folder_path@),
            text::views(r@) == all.take(i as int).filter(p),
        decreases items@.len() - i,
    {
        let item = items[i].clone();
        proof {
            assert(all.take(i + 1).drop_last() =~= all.take(i as int));
            assert(all.take(i + 1).last() == item@);
            text::lemma_views_push(r@, item);
            reveal(Seq::filter);
        }
        if same_text(item.folder_path.as_str(), folder_path) {
            r.push(item);
        }
        i += 1;
    }
    assert(all.take(all.len() as int) =~= all);
    r
}

fn group_by_folder(items: &Vec<SidebarRequestItem>) -> (r: Vec<FolderGroup>)
    ensures
        text::views(r@) == by_folder(text::views(items@)),
{
    let ghost all = text::views(items@);
    let names = find_folders(items);
    let mut r: Vec<FolderGroup> = Vec::new();
    let mut i: usize = 0;
    while i < names.len()
        invariant
            i <= names@.len(),
            all == text::views(items@),
            r@.len() == i,
            forall|j: int|
                0 <= j < i ==> (#[trigger] r@[j])@ == (FolderGroupView {
                    folder_path: names@[j]@,
                    items: in_folder(all, names@[j]@),
                }),
        decreases names@.len() - i,
    {
        r.push(
            FolderGroup {
                folder_path: names[i].clone(),
                items: pick_folder(items, names[i].as_str()),
            },
        );
        i += 1;
    }
    assert(text::views(r@) =~= by_folder(all));
    r
}

/// The requests by collection and folder.
pub fn group_items(items: &Vec<SidebarRequestItem>) -> (r: Vec<CollectionGroup>)
    ensures
        text::views(r@) == grouped(text::views(items@)),
{
    let ghost all = text::views(items@);
    let names = find_collections(items);
    let mut r: Vec<CollectionGroup> = Vec::new();
    let mut i: usize = 0;
    while i < names.len()
        invariant
            i <= names@.len(),
            all == text::views(items@),
            r@.len() == i,
            forall|j: int|
                0 <= j < i ==> (#[trigger] r@[j])@ == (CollectionGroupView {
                    collection: names@[j]@,
                    folders: by_folder(in_collection(all, names@[j]@)),
                }),
        decreases names@.len() - i,
    {
        let part = pick_collection(items, names[i].as_str());
        r.push(CollectionGroup { collection: names[i].clone(), folders: group_by_folder(&part) });
        i += 1;
    }
    assert(text::views(r@) =~= grouped(all));
    r
}

impl Workspace {
    /// The list of the requests: every saved one, and every open tab that shows none of them.
    pub fn sidebar_request_items(&self) -> (r: Vec<SidebarRequestItem>)
        ensures
            text::views(r@) == listed(self@),
    {
        let ghost saved = self@.saved_endpoints;
        let ghost open = self@.open_request_tabs;
        let mut items: Vec<SidebarRequestItem> = Vec::new();
        let mut i: usize = 0;
        while i < self.saved_endpoints.len()
            invariant
                i <= self.saved_endpoints@.len(),
                saved == text::views(self.saved_endpoints@),
                items@.len() == i,
                forall|j: int|
                    0 <= j < i ==> (#[trigger] items@[j])@ == item_of(
                        saved[j],
                        Some(saved[j].id),
                        None,
                        false,
                    ),
            decreases self.saved_endpoints@.len() - i,
        {
            let endpoint = &self.saved_endpoints[i];
            items.push(make_item(endpoint, Some(endpoint.id.clone()), None, false));
            i += 1;
        }
        assert(text::views(items@) =~= saved_items(saved));
        let mut n: usize = 0;
        while n < self.open_request_tabs.len()
            invariant
                n <= self.open_request_tabs@.len(),
                open == text::views(self.open_request_tabs@),
                text::views(items@) == with_tab_items(saved_items(saved), open.take(n as int)),
            decreases self.open_request_tabs@.len() - n,
        {
            proof {
                assert(open.take(n + 1).drop_last() =~= open.take(n as int));
                assert(open.take(n + 1).last() == self.open_request_tabs@[n as int]@);
            }
            add_tab_item(&mut items, &self.open_request_tabs[n]);
            n += 1;
        }
        assert(open.take(open.len() as int) =~= open);
        sort_items(&items)
    }
}

// ---------------------------------------------------------------------------
// Nothing is left out
// ---------------------------------------------------------------------------

/// Whether the list holds a saved request.
pub open spec fn lists_saved(items: Seq<ItemView>, id: Seq<char>) -> bool {
    exists|i: int| 0 <= i < items.len() && (#[trigger] items[i]).saved_endpoint_id == Some(id)
}

proof fn lemma_item_at(items: Seq<ItemView>, saved_id: Seq<char>)
    ensures
        0 <= item_at(items, saved_id) <= items.len(),
        item_at(items, saved_id) < items.len() ==> items[item_at(
            items,
            saved_id,
        )].saved_endpoint_id == Some(saved_id),
    decreases items.len(),
{
    if items.len() == 0 || items[0].saved_endpoint_id == Some(saved_id) {
    } else {
        lemma_item_at(items.drop_first(), saved_id);
    }
}

proof fn lemma_tabs_keep_saved(items: Seq<ItemView>, open: Seq<TabView>, id: Seq<char>)
    requires
        lists_saved(items, id),
    ensures
        lists_saved(with_tab_items(items, open), id),
    decreases open.len(),
{
    if open.len() > 0 {
        lemma_tabs_keep_saved(items, open.drop_last(), id);
        let before = with_tab_items(items, open.drop_last());
        let after = with_tab_item(before, open.last());
        let i = choose|i: int|
            0 <= i < before.len() && (#[trigger] before[i]).saved_endpoint_id == Some(id);
        match open.last().saved_endpoint_id {
            Some(saved_id) => lemma_item_at(before, saved_id),
            None => {},
        }
        assert(after[i].saved_endpoint_id == Some(id));
    }
}

proof fn lemma_sorting_keeps_items(items: Seq<ItemView>, i: int)
    requires
        0 <= i < items.len(),
    ensures
        sorted_items(items).contains(items[i]),
{
    let keys = items.map_values(|item: ItemView| item_key(item));
    sorting::law_listing_is_in_order(keys);
    sorting::lemma_listing_is_complete(keys, i);
    let order = sorting::listing(keys);
    let k = choose|k: int| 0 <= k < order.len() && order[k] == i;
    assert(sorted_items(items)[k] == items[i]);
}

/// Every saved request is in the list.
pub proof fn law_saved_requests_are_listed(ws: WorkspaceView, i: int)
    requires
        0 <= i < ws.saved_endpoints.len(),
    ensures
        lists_saved(listed(ws), ws.saved_endpoints[i].id),
{
    let id = ws.saved_endpoints[i].id;
    let saved = saved_items(ws.saved_endpoints);
    assert(saved[i].saved_endpoint_id == Some(id));
    lemma_tabs_keep_saved(saved, ws.open_request_tabs, id);
    let items = with_tab_items(saved, ws.open_request_tabs);
    let k = choose|k: int|
        0 <= k < items.len() && (#[trigger] items[k]).saved_endpoint_id == Some(id);
    lemma_sorting_keeps_items(items, k);
    let n = choose|n: int| 0 <= n < listed(ws).len() && listed(ws)[n] == items[k];
    assert(listed(ws)[n].saved_endpoint_id == Some(id));
}

proof fn lemma_with_name(names: Seq<Seq<char>>, name: Seq<char>, other: Seq<char>)
    ensures
        with_name(names, name).contains(name),
        names.contains(other) ==> with_name(names, name).contains(other),
    decreases names.len(),
{
    let after = with_name(names, name);
    if names.len() == 0 || text::comes_before(name, names[0]) {
        assert(after[0] == name);
        if names.contains(other) {
            let i = choose|i: int| 0 <= i < names.len() && names[i] == other;
            assert(after[i + 1] == other);
        }
    } else if names[0] == name {
        assert(after[0] == name);
    } else {
        let rest = names.drop_first();
        lemma_with_name(rest, name, other);
        let inner = with_name(rest, name);
        let k = choose|k: int| 0 <= k < inner.len() && inner[k] == name;
        assert(after[k + 1] == name);
        if names.contains(other) {
            let i = choose|i: int| 0 <= i < names.len() && names[i] == other;
            if i == 0 {
                assert(after[0] == other);
            } else {
                assert(rest[i - 1] == other);
                let n = choose|n: int| 0 <= n < inner.len() && inner[n] == other;
                assert(after[n + 1] == other);
            }
        }
    }
}

proof fn lemma_ordered_names(names: Seq<Seq<char>>, i: int)
    requires
        0 <= i < names.len(),
    ensures
        ordered_names(names).contains(names[i]),
    decreases names.len(),
{
    let rest = names.drop_last();
    lemma_with_name(ordered_names(rest), names.last(), names[i]);
    if i < rest.len() {
        lemma_ordered_names(rest, i);
        assert(rest[i] == names[i]);
    }
}

/// Every request of the list stands in the group of its collection and its folder.
pub proof fn law_requests_are_grouped(items: Seq<ItemView>, i: int)
    requires
        0 <= i < items.len(),
    ensures
        exists|c: int, f: int|
            0 <= c < grouped(items).len() && grouped(items)[c].collection == items[i].collection
                && 0 <= f < grouped(items)[c].folders.len()
                && (#[trigger] grouped(items)[c].folders[f]).folder_path == items[i].folder_path
                && grouped(items)[c].folders[f].items.contains(items[i]),
{
    let item = items[i];
    let collections = items.map_values(|item: ItemView| item.collection);
    lemma_ordered_names(collections, i);
    let c = choose|c: int|
        0 <= c < collections_of(items).len() && collections_of(items)[c] == item.collection;
    let part = in_collection(items, item.collection);
    items.lemma_filter_contains(|other: ItemView| other.collection == item.collection, i);
    let p = choose|p: int| 0 <= p < part.len() && part[p] == item;
    let paths = part.map_values(|item: ItemView| item.folder_path);
    lemma_ordered_names(paths, p);
    let f = choose|f: int|
        0 <= f < folders_of(part).len() && folders_of(part)[f] == item.folder_path;
    part.lemma_filter_contains(|other: ItemView| other.folder_path == item.folder_path, p);
    let group = grouped(items)[c];
    assert(group.collection == item.collection);
    assert(group.folders[f].folder_path == item.folder_path);
    assert(group.folders[f].items.contains(item));
}

// ---------------------------------------------------------------------------
// Unfolding
// ---------------------------------------------------------------------------

/// The collection and folder of the active tab, where they are to be unfolded.
pub open spec fn to_unfold(ws: WorkspaceView) -> Option<(Seq<char>, Seq<char>)> {
    match ws.active_request_tab_id {
        Some(id) => {
            let at = tabs::tab_index(ws.open_request_tabs, id);
            if ws.expand_to_selection && at < ws.open_request_tabs.len() {
                let draft = ws.open_request_tabs[at].draft;
                Some((folders::collection_name(draft.collection), text::trim(draft.folder_path)))
            } else {
                None
            }
        },
        None => None,
    }
}

impl Workspace {
    /// The collection and folder that are to be unfolded in the list. This is done once.
    pub fn unfold_selection(&mut self) -> (r: Option<(String, String)>)
        ensures
            match r {
                Some(place) => to_unfold(old(self)@) == Some((place.0@, place.1@)),
                None => to_unfold(old(self)@) is None,
            },
            final(self)@ == (WorkspaceView { expand_to_selection: false, ..old(self)@ }),
    {
        let due = self.expand_to_selection;
        self.expand_to_selection = false;
        if !due {
            return None;
        }
        match self.active_request_tab_index() {
            Some(i) => {
                let draft = &self.open_request_tabs[i].draft;
                Some(
                    (
                        collection_name_of(draft.collection.as_str()),
                        trimmed(draft.folder_path.as_str()),
                    ),
                )
            },
            None => None,
        }
    }
}

// ---------------------------------------------------------------------------
// What stands in the list
// ---------------------------------------------------------------------------

/// Whether an item shows an endpoint: its name and method, the collection that it belongs to and
/// its folder.
pub open spec fn shows(item: ItemView, endpoint: EndpointView) -> bool {
    &&& item.endpoint_id == endpoint.id
    &&& item.name == endpoint.name
    &&& item.method == endpoint.method
    &&& item.folder_path == text::trim(endpoint.folder_path)
    &&& item.collection == (if text::is_blank(endpoint.collection) {
        "General"@
    } else {
        text::trim(endpoint.collection)
    })
}

/// An open tab is in the list with its draft, and with a mark where it has unsaved changes.
pub proof fn law_open_tabs_are_listed(ws: WorkspaceView, i: int)
    requires
        0 <= i < ws.open_request_tabs.len(),
        forall|j: int|
            i < j < ws.open_request_tabs.len() ==> (
            #[trigger] ws.open_request_tabs[j]).saved_endpoint_id is None
                || ws.open_request_tabs[j].saved_endpoint_id
                != ws.open_request_tabs[i].saved_endpoint_id,
    ensures
        exists|k: int|
            0 <= k < listed(ws).len() && {
                let item = #[trigger] listed(ws)[k];
                &&& item.tab_id == Some(ws.open_request_tabs[i].id)
                &&& item.is_dirty == ws.open_request_tabs[i].is_dirty
                &&& shows(item, ws.open_request_tabs[i].draft)
            },
{
    let open = ws.open_request_tabs;
    let saved = saved_items(ws.saved_endpoints);
    lemma_tab_is_listed(saved, open, i, open.len() as int);
    assert(open.take(open.len() as int) =~= open);
    let items = with_tab_items(saved, open);
    let k = choose|k: int|
        0 <= k < items.len() && is_item_of_tab(#[trigger] items[k], open[i]);
    lemma_sorting_keeps_items(items, k);
    let n = choose|n: int| 0 <= n < listed(ws).len() && listed(ws)[n] == items[k];
    assert(listed(ws)[n].tab_id == Some(open[i].id));
}

/// Whether an item is that of a tab.
spec fn is_item_of_tab(item: ItemView, tab: TabView) -> bool {
    &&& item == item_of(tab.draft, item.saved_endpoint_id, Some(tab.id), tab.is_dirty)
    &&& item.saved_endpoint_id is Some ==> item.saved_endpoint_id == tab.saved_endpoint_id
}

proof fn lemma_tab_is_listed(items: Seq<ItemView>, open: Seq<TabView>, i: int, n: int)
    requires
        0 <= i < n <= open.len(),
        forall|j: int|
            i < j < open.len() ==> (#[trigger] open[j]).saved_endpoint_id is None
                || open[j].saved_endpoint_id != open[i].saved_endpoint_id,
    ensures
        exists|k: int|
            0 <= k < with_tab_items(items, open.take(n)).len() && is_item_of_tab(
                #[trigger] with_tab_items(items, open.take(n))[k],
                open[i],
            ),
    decreases n,
{
    let before = with_tab_items(items, open.take(n - 1));
    let after = with_tab_items(items, open.take(n));
    let tab = open[n - 1];
    assert(open.take(n).drop_last() =~= open.take(n - 1));
    assert(open.take(n).last() == tab);
    match tab.saved_endpoint_id {
        Some(id) => lemma_item_at(before, id),
        None => {},
    }
    if i == n - 1 {
        let at = match tab.saved_endpoint_id {
            Some(id) => item_at(before, id),
            None => before.len() as int,
        };
        assert(is_item_of_tab(after[at], open[i]));
    } else {
        lemma_tab_is_listed(items, open, i, n - 1);
        let k = choose|k: int|
            0 <= k < before.len() && is_item_of_tab(#[trigger] before[k], open[i]);
        assert(after[k] == before[k]);
        assert(is_item_of_tab(after[k], open[i]));
    }
}

/// A saved request that no tab shows is in the list as it is saved.
pub proof fn law_saved_requests_are_shown(ws: WorkspaceView, i: int)
    requires
        0 <= i < ws.saved_endpoints.len(),
        forall|j: int|
            0 <= j < ws.open_request_tabs.len() ==> (
            #[trigger] ws.open_request_tabs[j]).saved_endpoint_id != Some(ws.saved_endpoints[i].id),
    ensures
        exists|k: int|
            0 <= k < listed(ws).len() && {
                let item = #[trigger] listed(ws)[k];
                &&& item.saved_endpoint_id == Some(ws.saved_endpoints[i].id)
                &&& item.tab_id is None
                &&& !item.is_dirty
                &&& shows(item, ws.saved_endpoints[i])
            },
{
    let saved = saved_items(ws.saved_endpoints);
    let id = ws.saved_endpoints[i].id;
    let open = ws.open_request_tabs;
    lemma_item_stays(saved, open, i, open.len() as int);
    assert(open.take(open.len() as int) =~= open);
    let items = with_tab_items(saved, open);
    lemma_sorting_keeps_items(items, i);
    let n = choose|n: int| 0 <= n < listed(ws).len() && listed(ws)[n] == items[i];
    assert(listed(ws)[n].saved_endpoint_id == Some(id));
}

proof fn lemma_item_stays(items: Seq<ItemView>, open: Seq<TabView>, i: int, n: int)
    requires
        0 <= i < items.len(),
        0 <= n <= open.len(),
        items[i].saved_endpoint_id is Some,
        forall|j: int|
            0 <= j < open.len() ==> (#[trigger] open[j]).saved_endpoint_id
                != items[i].saved_endpoint_id,
    ensures
        i < with_tab_items(items, open.take(n)).len(),
        with_tab_items(items, open.take(n))[i] == items[i],
    decreases n,
{
    if n > 0 {
        lemma_item_stays(items, open, i, n - 1);
        let before = with_tab_items(items, open.take(n - 1));
        let tab = open[n - 1];
        assert(open.take(n).drop_last() =~= open.take(n - 1));
        assert(open.take(n).last() == tab);
        match tab.saved_endpoint_id {
            Some(id) => lemma_item_at(before, id),
            None => {},
        }
    } else {
        assert(open.take(0) =~= Seq::<TabView>::empty());
    }
}

/// The list is in the order of collection, folder and name, case not counting, and nothing stands
/// in it that is not a request or an open tab.
pub proof fn law_list_is_in_order(ws: WorkspaceView, a: int, b: int)
    requires
        0 <= a < b < listed(ws).len(),
    ensures
        ({
            let first = listed(ws)[a];
            let second = listed(ws)[b];
            !sorting::key_before(
                (
                    text::unicode_lower(second.collection),
                    text::unicode_lower(second.folder_path),
                    text::unicode_lower(second.name),
                ),
                (
                    text::unicode_lower(first.collection),
                    text::unicode_lower(first.folder_path),
                    text::unicode_lower(first.name),
                ),
            )
        }),
        listed(ws).len() <= ws.saved_endpoints.len() + ws.open_request_tabs.len(),
{
    let items = with_tab_items(saved_items(ws.saved_endpoints), ws.open_request_tabs);
    let keys = items.map_values(|item: ItemView| item_key(item));
    sorting::law_listing_is_in_order(keys);
    let order = sorting::listing(keys);
    assert(listed(ws)[a] == items[order[a]]);
    assert(listed(ws)[b] == items[order[b]]);
    sorting::lemma_keys_are_ordered(keys[order[a]], keys[order[b]]);
    lemma_item_count(saved_items(ws.saved_endpoints), ws.open_request_tabs);
}

proof fn lemma_item_count(items: Seq<ItemView>, open: Seq<TabView>)
    ensures
        with_tab_items(items, open).len() <= items.len() + open.len(),
    decreases open.len(),
{
    if open.len() > 0 {
        lemma_item_count(items, open.drop_last());
        if let Some(id) = open.last().saved_endpoint_id {
            lemma_item_at(with_tab_items(items, open.drop_last()), id);
        }
    }
}

/// In the group of a collection and folder stand requests of that collection and folder only.
pub proof fn law_groups_hold_their_own(items: Seq<ItemView>, c: int, f: int, k: int)
    requires
        0 <= c < grouped(items).len(),
        0 <= f < grouped(items)[c].folders.len(),
        0 <= k < grouped(items)[c].folders[f].items.len(),
    ensures
        ({
            let item = grouped(items)[c].folders[f].items[k];
            &&& item.collection == grouped(items)[c].collection
            &&& item.folder_path == grouped(items)[c].folders[f].folder_path
            &&& items.contains(item)
        }),
{
    let collection = grouped(items)[c].collection;
    let p = |item: ItemView| item.collection == collection;
    let part = in_collection(items, collection);
    let folder_path = grouped(items)[c].folders[f].folder_path;
    let q = |item: ItemView| item.folder_path == folder_path;
    let group = in_folder(part, folder_path);
    assert(grouped(items)[c].folders[f].items == group);
    part.lemma_filter_pred(q, k);
    assert(group.contains(group[k]));
    part.lemma_filter_contains_rev(q, group[k]);
    let j = choose|j: int| 0 <= j < part.len() && part[j] == group[k];
    items.lemma_filter_pred(p, j);
    items.lemma_filter_contains_rev(p, part[j]);
}

/// The list unfolds to the collection and folder of the active tab, where it is asked to.
pub proof fn law_list_unfolds_to_the_active_tab(ws: WorkspaceView, id: Seq<char>, at: int)
    requires
        ws.active_request_tab_id == Some(id),
        workspace::is_first_tab(ws.open_request_tabs, id, at),
    ensures
        ws.expand_to_selection ==> to_unfold(ws) == Some(
            (
                if text::is_blank(ws.open_request_tabs[at].draft.collection) {
                    "General"@
                } else {
                    text::trim(ws.open_request_tabs[at].draft.collection)
                },
                text::trim(ws.open_request_tabs[at].draft.folder_path),
            ),
        ),
        !ws.expand_to_selection ==> to_unfold(ws) is None,
{
    workspace::lemma_first_tab(ws.open_request_tabs, id, at);
}

} // verus!
