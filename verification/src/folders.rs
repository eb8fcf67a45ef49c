//! Folder paths, file names and slugs.
use crate::models::{Endpoint, EndpointView};
use crate::table::TextMap;
use crate::text;
use crate::text::{
    ascii_alphanumeric, ascii_lower_char, chars_of, concat4, non_empty_trimmed, split_any,
    string_between, trimmed,
};
use vstd::prelude::*;
use vstd::string::*;

verus! {

/// The names of the folders on a path, the outermost first. Folders are set apart by `/` or
/// `\`; white space around a name and empty names do not count.
pub open spec fn folder_names(path: Seq<char>) -> Seq<Seq<char>> {
    text::split_at_any(path, '/', '\\').filter_map(|name: Seq<char>| text::trimmed_content(name))
}

pub fn split_folder_path(input: &str) -> (names: Vec<String>)
    ensures
        text::views(names@) == folder_names(input@),
{
    let items = split_any(input, '/', '\\');
    let mut names: Vec<String> = Vec::new();
    let ghost all = text::views(items@);
    let ghost f = |name: Seq<char>| text::trimmed_content(name);
    let mut i: usize = 0;
    assert(text::views(names@) =~= all.take(0).filter_map(f));
    while i < items.len()
        invariant
            i <= items@.len(),
            all == text::views(items@),
            f == (|name: Seq<char>| text::trimmed_content(name)),
            text::views(names@) == all.take(i as int).filter_map(f),
        decreases items@.len() - i,
    {
        proof {
            all.lemma_filter_map_take_succ(f, i as int);
        }
        if let Some(name) = non_empty_trimmed(items[i].as_str()) {
            proof {
                text::lemma_views_push(names@, name);
            }
            names.push(name);
        }
        i += 1;
    }
    assert(all.take(all.len() as int) =~= all);
    names
}

/// The path written with ` / ` between the names of its folders.
pub open spec fn normal_path(path: Seq<char>) -> Seq<char> {
    text::join(folder_names(path), " / "@)
}

pub fn normalize_folder_path(input: &str) -> (r: String)
    ensures
        r@ == normal_path(input@),
{
    text::joined(&split_folder_path(input), " / ")
}

/// A name that a folder can have.
pub open spec fn is_folder_name(name: Seq<char>) -> bool {
    name.len() > 0 && text::trim(name) == name && !name.contains('/') && !name.contains('\\')
}

/// A normalized path stays as it is.
pub proof fn law_normal_path_is_final(path: Seq<char>)
    ensures
        normal_path(normal_path(path)) == normal_path(path),
{
    lemma_folder_names_are_clean(path);
    law_joined_folders_are_found(folder_names(path));
}

/// Folder names that were joined to a path are found again.
pub proof fn law_joined_folders_are_found(names: Seq<Seq<char>>)
    requires
        forall|i: int| 0 <= i < names.len() ==> is_folder_name(#[trigger] names[i]),
    ensures
        folder_names(text::join(names, " / "@)) == names,
    decreases names.len(),
{
    reveal_strlit(" / ");
    let f = |name: Seq<char>| text::trimmed_content(name);
    let path = text::join(names, " / "@);
    if names.len() == 0 {
        assert(text::split_at_any(path, '/', '\\') =~= seq![path]);
        assert(seq![path].drop_last() =~= Seq::<Seq<char>>::empty());
        assert(text::trim(path).len() == 0);
        reveal_with_fuel(Seq::filter_map, 2);
        assert(folder_names(path) =~= names);
    } else if names.len() == 1 {
        assert(is_folder_name(names[0]));
        assert forall|j: int| 0 <= j < path.len() implies path[j] != '/' && path[j] != '\\' by {
            assert(names[0].contains(path[j]));
        }
        text::lemma_first_of(path, '/', '\\', path.len() as int);
        assert(text::split_at_any(path, '/', '\\') =~= seq![path]);
        assert(seq![path].drop_last() =~= Seq::<Seq<char>>::empty());
        reveal_with_fuel(Seq::filter_map, 2);
        assert(folder_names(path) =~= names);
    } else {
        let rest = names.drop_first();
        text::lemma_join_first(names, " / "@);
        let tail = text::join(rest, " / "@);
        let first = names[0];
        assert(is_folder_name(first));
        let n = first.len() as int + 1;
        assert forall|j: int| 0 <= j < n implies path[j] != '/' && path[j] != '\\' by {
            if j < first.len() {
                assert(first.contains(first[j]));
            }
        }
        text::lemma_first_of(path, '/', '\\', n);
        assert(path.take(n) =~= first.push(' '));
        assert(path.skip(n + 1) =~= seq![' '] + tail);
        lemma_trim_padded(first);
        lemma_filter_map_first(
            seq![path.take(n)] + text::split_at_any(path.skip(n + 1), '/', '\\'),
            f,
        );
        assert((seq![path.take(n)] + text::split_at_any(path.skip(n + 1), '/', '\\')).drop_first()
            =~= text::split_at_any(path.skip(n + 1), '/', '\\'));
        lemma_leading_space(tail);
        assert forall|i: int| 0 <= i < rest.len() implies is_folder_name(#[trigger] rest[i]) by {
            assert(rest[i] == names[i + 1]);
        }
        law_joined_folders_are_found(rest);
        assert(seq![first] + rest =~= names);
    }
}

/// Filtering from the front.
proof fn lemma_filter_map_first<A, B>(items: Seq<A>, f: spec_fn(A) -> Option<B>)
    requires
        items.len() > 0,
    ensures
        items.filter_map(f) == (match f(items[0]) {
            Some(b) => seq![b],
            None => Seq::empty(),
        }) + items.drop_first().filter_map(f),
    decreases items.len(),
{
    let init = items.drop_last();
    if items.len() == 1 {
        assert(init.filter_map(f) =~= Seq::empty());
        assert(items.drop_first().filter_map(f) =~= Seq::empty());
        reveal_with_fuel(Seq::filter_map, 2);
    } else {
        lemma_filter_map_first(init, f);
        let rest = items.drop_first();
        assert(rest.drop_last() =~= init.drop_first());
        assert(rest.last() == items.last());
        assert(init[0] == items[0]);
    }
}

/// A space in front of a path adds no folder.
proof fn lemma_leading_space(path: Seq<char>)
    ensures
        folder_names(seq![' '] + path) == folder_names(path),
{
    let f = |name: Seq<char>| text::trimmed_content(name);
    let padded = seq![' '] + path;
    let n = text::first_of(path, '/', '\\');
    text::lemma_first_of_bounds(path, '/', '\\');
    assert(padded.drop_first() =~= path);
    assert(text::first_of(padded, '/', '\\') == 1 + n);
    let old_parts = text::split_at_any(path, '/', '\\');
    let new_parts = text::split_at_any(padded, '/', '\\');
    if n < path.len() {
        assert(padded.take(n + 1) =~= seq![' '] + path.take(n));
        assert(padded.skip(n + 2) =~= path.skip(n + 1));
        assert(old_parts.drop_first() =~= text::split_at_any(path.skip(n + 1), '/', '\\'));
        assert(new_parts.drop_first() =~= text::split_at_any(path.skip(n + 1), '/', '\\'));
        lemma_trim_leading_space(path.take(n));
    } else {
        assert(old_parts.drop_first() =~= Seq::<Seq<char>>::empty());
        assert(new_parts.drop_first() =~= Seq::<Seq<char>>::empty());
        lemma_trim_leading_space(path);
    }
    lemma_filter_map_first(old_parts, f);
    lemma_filter_map_first(new_parts, f);
}

proof fn lemma_trim_leading_space(s: Seq<char>)
    ensures
        text::trim(seq![' '] + s) == text::trim(s),
{
    assert((seq![' '] + s).drop_first() =~= s);
}

proof fn lemma_trim_padded(s: Seq<char>)
    requires
        s.len() > 0,
        text::trim(s) == s,
    ensures
        text::trim(s.push(' ')) == s,
{
    text::lemma_trimmed_ends(s);
    let padded = s.push(' ');
    assert(text::trim_start(padded) == padded);
    assert(padded.drop_last() =~= s);
}

/// Every name on a path is a name that a folder can have.
pub proof fn lemma_folder_names_are_clean(path: Seq<char>)
    ensures
        forall|i: int|
            0 <= i < folder_names(path).len() ==> is_folder_name(#[trigger] folder_names(path)[i]),
{
    let f = |name: Seq<char>| text::trimmed_content(name);
    let parts = text::split_at_any(path, '/', '\\');
    text::lemma_split_is_clean(path, '/', '\\');
    assert forall|i: int| 0 <= i < folder_names(path).len() implies is_folder_name(
        #[trigger] folder_names(path)[i],
    ) by {
        let name = folder_names(path)[i];
        parts.lemma_filter_map_contains(f, name);
        let part = choose|part: Seq<char>| parts.contains(part) && #[trigger] f(part) == Some(name);
        let k = choose|k: int| 0 <= k < parts.len() && parts[k] == part;
        text::lemma_trim_is_part(part);
        text::lemma_trim_is_final(part);
        assert forall|c: char| (c == '/' || c == '\\') implies !name.contains(c) by {
            if name.contains(c) {
                let j = choose|j: int| 0 <= j < name.len() && name[j] == c;
                assert(part.contains(name[j]));
                assert(parts[k].contains(c));
            }
        }
    }
}

/// Characters that a file name keeps.
pub open spec fn is_safe_char(c: char) -> bool {
    text::is_ascii_alphanumeric(c) || c == '-' || c == '_' || c == '.'
}

/// The text without leading `c`.
pub open spec fn strip_front(s: Seq<char>, c: char) -> Seq<char>
    decreases s.len(),
{
    if s.len() > 0 && s[0] == c {
        strip_front(s.drop_first(), c)
    } else {
        s
    }
}

/// The text without trailing `c`.
pub open spec fn strip_back(s: Seq<char>, c: char) -> Seq<char>
    decreases s.len(),
{
    if s.len() > 0 && s.last() == c {
        strip_back(s.drop_last(), c)
    } else {
        s
    }
}

/// The text without `c` at either end.
pub open spec fn strip(s: Seq<char>, c: char) -> Seq<char> {
    strip_back(strip_front(s, c), c)
}

pub fn stripped(s: &str, c: char) -> (r: String)
    ensures
        r@ == strip(s@, c),
{
    let chars = chars_of(s);
    let mut from: usize = 0;
    assert(chars@.skip(0) =~= chars@);
    while from < chars.len() && chars[from] == c
        invariant
            from <= chars@.len(),
            strip_front(chars@, c) == strip_front(chars@.skip(from as int), c),
        decreases chars@.len() - from,
    {
        assert(chars@.skip(from as int).drop_first() =~= chars@.skip(from + 1));
        from += 1;
    }
    let ghost rest = chars@.skip(from as int);
    let mut to: usize = chars.len();
    assert(rest =~= chars@.subrange(from as int, to as int));
    while from < to && chars[to - 1] == c
        invariant
            from <= to <= chars@.len(),
            strip_back(rest, c) == strip_back(chars@.subrange(from as int, to as int), c),
        decreases to,
    {
        assert(chars@.subrange(from as int, to as int).drop_last() =~= chars@.subrange(
            from as int,
            to - 1,
        ));
        to -= 1;
    }
    string_between(&chars, from, to)
}

/// The text as a file name: `_` in place of every other character, no dots, and inside them no
/// underscores, at the ends. A text of which nothing is left is `untitled`.
pub open spec fn safe_segment(s: Seq<char>) -> Seq<char> {
    let safe = s.map_values(
        |c: char|
            if is_safe_char(c) {
                c
            } else {
                '_'
            },
    );
    let name = text::trim(strip(strip(safe, '.'), '_'));
    if name.len() == 0 {
        "untitled"@
    } else {
        name
    }
}

pub fn safe_path_segment(input: &str) -> (r: String)
    ensures
        r@ == safe_segment(input@),
{
    let ghost f = |c: char|
        if is_safe_char(c) {
            c
        } else {
            '_'
        };
    let mut output = String::new();
    for c in it: input.chars()
        invariant
            it.seq() == input@,
            f == (|c: char|
                if is_safe_char(c) {
                    c
                } else {
                    '_'
                }),
            output@ == input@.take(it.index() as int).map_values(f),
    {
        let ghost n = it.index() as int;
        if ascii_alphanumeric(c) || c == '-' || c == '_' || c == '.' {
            output.push(c);
        } else {
            output.push('_');
        }
        assert(input@.take(n + 1) =~= input@.take(n).push(c));
        assert(input@.take(n + 1).map_values(f) =~= input@.take(n).map_values(f).push(f(c)));
    }
    assert(input@.take(input@.len() as int) =~= input@);
    let inner = stripped(output.as_str(), '.');
    let inner = stripped(inner.as_str(), '_');
    let name = trimmed(inner.as_str());
    if name.as_str().is_empty() {
        "untitled".to_owned()
    } else {
        name
    }
}

/// A file name is never empty and holds nothing but ASCII letters, digits, `-`, `_` and `.`.
pub proof fn law_segment_is_safe(s: Seq<char>)
    ensures
        safe_segment(s).len() > 0,
        forall|i: int|
            0 <= i < safe_segment(s).len() ==> is_safe_char(#[trigger] safe_segment(s)[i]),
{
    reveal_strlit("untitled");
    let f = |c: char|
        if is_safe_char(c) {
            c
        } else {
            '_'
        };
    let safe = s.map_values(f);
    let outer = strip(safe, '.');
    let inner = strip(outer, '_');
    lemma_strip_is_part(safe, '.');
    lemma_strip_is_part(outer, '_');
    text::lemma_trim_is_part(inner);
    assert forall|i: int| 0 <= i < text::trim(inner).len() implies is_safe_char(
        #[trigger] text::trim(inner)[i],
    ) by {
        assert(inner.contains(text::trim(inner)[i]));
        let j = choose|j: int| 0 <= j < inner.len() && inner[j] == text::trim(inner)[i];
        assert(outer.contains(inner[j]));
        let k = choose|k: int| 0 <= k < outer.len() && outer[k] == inner[j];
        assert(safe.contains(outer[k]));
    }
}

proof fn lemma_strip_is_part(s: Seq<char>, c: char)
    ensures
        forall|i: int| 0 <= i < strip(s, c).len() ==> s.contains(#[trigger] strip(s, c)[i]),
{
    let front = strip_front(s, c);
    lemma_strip_front_is_part(s, c);
    lemma_strip_back_is_part(front, c);
    assert forall|i: int| 0 <= i < strip(s, c).len() implies s.contains(
        #[trigger] strip(s, c)[i],
    ) by {
        let j = choose|j: int| 0 <= j < front.len() && front[j] == strip(s, c)[i];
        assert(s.contains(front[j]));
    }
}

proof fn lemma_strip_front_is_part(s: Seq<char>, c: char)
    ensures
        forall|i: int|
            0 <= i < strip_front(s, c).len() ==> s.contains(#[trigger] strip_front(s, c)[i]),
    decreases s.len(),
{
    if s.len() > 0 && s[0] == c {
        let rest = s.drop_first();
        lemma_strip_front_is_part(rest, c);
        assert forall|i: int| 0 <= i < strip_front(s, c).len() implies s.contains(
            #[trigger] strip_front(s, c)[i],
        ) by {
            let j = choose|j: int| 0 <= j < rest.len() && rest[j] == strip_front(rest, c)[i];
            assert(s[j + 1] == strip_front(s, c)[i]);
        }
    }
}

proof fn lemma_strip_back_is_part(s: Seq<char>, c: char)
    ensures
        forall|i: int|
            0 <= i < strip_back(s, c).len() ==> s.contains(#[trigger] strip_back(s, c)[i]),
    decreases s.len(),
{
    if s.len() > 0 && s.last() == c {
        let rest = s.drop_last();
        lemma_strip_back_is_part(rest, c);
        assert forall|i: int| 0 <= i < strip_back(s, c).len() implies s.contains(
            #[trigger] strip_back(s, c)[i],
        ) by {
            let j = choose|j: int| 0 <= j < rest.len() && rest[j] == strip_back(rest, c)[i];
            assert(s[j] == strip_back(s, c)[i]);
        }
    }
}

/// Letters and digits in lower case, and one `-` for each run of other characters.
pub open spec fn dashed(s: Seq<char>) -> Seq<char>
    decreases s.len(),
{
    if s.len() == 0 {
        Seq::empty()
    } else {
        let init = s.drop_last();
        if text::is_ascii_alphanumeric(s.last()) {
            dashed(init).push(text::lower_char(s.last()))
        } else if init.len() > 0 && !text::is_ascii_alphanumeric(init.last()) {
            dashed(init)
        } else {
            dashed(init).push('-')
        }
    }
}

/// The name of a workspace as it stands in a route.
pub open spec fn slug(s: Seq<char>) -> Seq<char> {
    strip(dashed(s), '-')
}

pub fn slugify_workspace_name(value: &str) -> (r: String)
    ensures
        r@ == slug(value@),
{
    let mut output = String::new();
    let mut previous_dash = false;
    for c in it: value.chars()
        invariant
            it.seq() == value@,
            output@ == dashed(value@.take(it.index() as int)),
            previous_dash == (it.index() > 0 && !text::is_ascii_alphanumeric(
                value@[it.index() - 1],
            )),
    {
        let ghost n = it.index() as int;
        proof {
            assert(value@.take(n + 1).drop_last() =~= value@.take(n));
        }
        if ascii_alphanumeric(c) {
            output.push(ascii_lower_char(c));
            previous_dash = false;
        } else if !previous_dash {
            output.push('-');
            previous_dash = true;
        }
    }
    assert(value@.take(value@.len() as int) =~= value@);
    stripped(output.as_str(), '-')
}

/// Whether nothing but lowercase letters, digits and single dashes stand in the text.
pub open spec fn is_dashed(s: Seq<char>) -> bool {
    &&& forall|i: int|
        0 <= i < s.len() ==> s[i] == '-' || ('a' <= #[trigger] s[i] && s[i] <= 'z') || ('0' <= s[i]
            && s[i] <= '9')
    &&& forall|i: int, j: int|
        0 <= i && j == i + 1 && j < s.len() ==> #[trigger] s[i] != '-' || #[trigger] s[j] != '-'
}

/// Whether the text is a slug: lowercase letters, digits, and single dashes between them.
pub open spec fn is_slug(s: Seq<char>) -> bool {
    &&& is_dashed(s)
    &&& s.len() > 0 ==> s[0] != '-' && s.last() != '-'
}

/// A slug holds nothing but lowercase letters, digits and single dashes between them, and a text
/// that is one already stays as it is. So does the slug of a slug.
pub proof fn law_slug_is_clean_and_final(s: Seq<char>)
    ensures
        is_slug(slug(s)),
        is_slug(s) ==> slug(s) == s,
        slug(slug(s)) == slug(s),
{
    lemma_dashed(s);
    lemma_strip_is_between(dashed(s), '-');
    if is_slug(s) {
        lemma_dashed_is_final(s);
    }
    lemma_dashed_is_final(slug(s));
}

proof fn lemma_dashed(s: Seq<char>)
    ensures
        is_dashed(dashed(s)),
        dashed(s).len() == 0 <==> s.len() == 0,
        s.len() > 0 ==> (dashed(s).last() == '-' <==> !text::is_ascii_alphanumeric(s.last())),
    decreases s.len(),
{
    if s.len() > 0 {
        lemma_dashed(s.drop_last());
    }
}

proof fn lemma_dashed_is_final(s: Seq<char>)
    requires
        is_dashed(s),
    ensures
        dashed(s) == s,
    decreases s.len(),
{
    if s.len() > 0 {
        let init = s.drop_last();
        let n = s.len() as int;
        assert(is_dashed(init)) by {
            assert forall|i: int| 0 <= i < init.len() implies init[i] == '-' || ('a'
                <= #[trigger] init[i] && init[i] <= 'z') || ('0' <= init[i] && init[i] <= '9') by {
                assert(init[i] == s[i]);
            }
        }
        lemma_dashed_is_final(init);
        if n > 1 {
            assert(s[n - 2] != '-' || s[n - 1] != '-');
            assert(init.last() == s[n - 2]);
        }
        assert(init.push(s.last()) =~= s);
    }
}

/// What is left between the ends stands together in the text, and `c` at neither end of it.
proof fn lemma_strip_is_between(s: Seq<char>, c: char)
    ensures
        exists|i: int, j: int| 0 <= i <= j <= s.len() && strip(s, c) == #[trigger] s.subrange(i, j),
        strip(s, c).len() > 0 ==> strip(s, c)[0] != c && strip(s, c).last() != c,
{
    let front = strip_front(s, c);
    let i = s.len() - front.len();
    let j = i + strip(s, c).len();
    lemma_strip_front_is_rest(s, c);
    lemma_strip_back_is_start(front, c);
    assert(strip(s, c) =~= s.subrange(i, j));
}

proof fn lemma_strip_front_is_rest(s: Seq<char>, c: char)
    ensures
        strip_front(s, c).len() <= s.len(),
        strip_front(s, c) == s.skip(s.len() - strip_front(s, c).len()),
        strip_front(s, c).len() > 0 ==> strip_front(s, c)[0] != c,
    decreases s.len(),
{
    if s.len() > 0 && s[0] == c {
        lemma_strip_front_is_rest(s.drop_first(), c);
    }
    assert(strip_front(s, c) =~= s.skip(s.len() - strip_front(s, c).len()));
}

proof fn lemma_strip_back_is_start(s: Seq<char>, c: char)
    ensures
        strip_back(s, c).len() <= s.len(),
        strip_back(s, c) == s.take(strip_back(s, c).len() as int),
        strip_back(s, c).len() > 0 ==> strip_back(s, c).last() != c,
    decreases s.len(),
{
    if s.len() > 0 && s.last() == c {
        lemma_strip_back_is_start(s.drop_last(), c);
    }
    assert(strip_back(s, c) =~= s.take(strip_back(s, c).len() as int));
}

/// The third component of a model path `type/id/workspace`.
pub open spec fn model_workspace(path: Seq<char>) -> Option<Seq<char>> {
    let parts = text::split_at(path, '/');
    if parts.len() > 2 {
        Some(parts[2])
    } else {
        None
    }
}

pub fn workspace_id_from_model_path(path: &str) -> (r: Option<String>)
    ensures
        text::opt(r) == model_workspace(path@),
{
    let parts = split_any(path, '/', '/');
    if parts.len() > 2 {
        assert(text::views(parts@)[2] == parts@[2]@);
        Some(parts[2].clone())
    } else {
        None
    }
}

// ---------------------------------------------------------------------------
// Imported folders
// ---------------------------------------------------------------------------

/// What is known of a folder of an imported collection.
#[derive(Debug, PartialEq, Eq)]
pub struct ImportedFolderMeta {
    pub name: String,
    pub parent_folder_id: Option<String>,
}

#[verifier::ext_equal]
pub struct FolderView {
    pub name: Seq<char>,
    pub parent_folder_id: Option<Seq<char>>,
}

impl View for ImportedFolderMeta {
    type V = FolderView;

    open spec fn view(&self) -> FolderView {
        FolderView { name: self.name@, parent_folder_id: text::opt(self.parent_folder_id) }
    }
}

/// The names of the folder and of those around it, the outermost first, at most `depth` of
/// them. Blank names do not count.
pub open spec fn enclosing_names(
    id: Seq<char>,
    folders: Map<Seq<char>, FolderView>,
    depth: nat,
) -> Seq<Seq<char>>
    decreases depth,
{
    if depth == 0 || !folders.dom().contains(id) {
        Seq::empty()
    } else {
        let folder = folders[id];
        let own = match text::trimmed_content(folder.name) {
            Some(name) => seq![name],
            None => Seq::empty(),
        };
        let around = match folder.parent_folder_id {
            Some(parent) => match text::trimmed_content(parent) {
                Some(parent) => enclosing_names(parent, folders, (depth - 1) as nat),
                None => Seq::empty(),
            },
            None => Seq::empty(),
        };
        around + own
    }
}

/// How far out the folders around a folder are looked up.
pub const FOLDER_DEPTH: u32 = 32;

/// The path of a folder, where any name on it is known.
pub open spec fn looked_up_path(
    folder_id: Seq<char>,
    folders: Map<Seq<char>, FolderView>,
) -> Option<Seq<char>> {
    match text::trimmed_content(folder_id) {
        None => None,
        Some(id) => {
            let names = enclosing_names(id, folders, FOLDER_DEPTH as nat);
            if names.len() == 0 {
                None
            } else {
                Some(text::join(names, " / "@))
            }
        },
    }
}

fn collect_names(
    id: &str,
    folders_by_id: &TextMap<ImportedFolderMeta>,
    depth: u32,
) -> (names: Vec<String>)
    ensures
        text::views(names@) == enclosing_names(id@, folders_by_id@, depth as nat),
    decreases depth,
{
    if depth == 0 {
        let names: Vec<String> = Vec::new();
        assert(text::views(names@) =~= Seq::empty());
        return names;
    }
    match folders_by_id.get(id) {
        None => {
            let names: Vec<String> = Vec::new();
            assert(text::views(names@) =~= Seq::empty());
            names
        },
        Some(folder) => {
            let parent = match &folder.parent_folder_id {
                Some(parent) => non_empty_trimmed(parent.as_str()),
                None => None,
            };
            let mut names = match parent {
                Some(parent) => collect_names(parent.as_str(), folders_by_id, depth - 1),
                None => Vec::new(),
            };
            let ghost around = text::views(names@);
            assert(parent is None ==> around =~= Seq::empty());
            assert(around + Seq::<Seq<char>>::empty() =~= around);
            if let Some(name) = non_empty_trimmed(folder.name.as_str()) {
                proof {
                    text::lemma_views_push(names@, name);
                    assert(around + seq![name@] =~= around.push(name@));
                }
                names.push(name);
            }
            names
        },
    }
}

/// The path of a folder, looked up by its id.
pub fn resolve_folder_path_from_lookup(
    folder_id: &str,
    folders_by_id: &TextMap<ImportedFolderMeta>,
) -> (r: Option<String>)
    ensures
        text::opt(r) == looked_up_path(folder_id@, folders_by_id@),
{
    match non_empty_trimmed(folder_id) {
        None => None,
        Some(id) => {
            let names = collect_names(id.as_str(), folders_by_id, FOLDER_DEPTH);
            if names.len() == 0 {
                None
            } else {
                Some(text::joined(&names, " / "))
            }
        },
    }
}

// ---------------------------------------------------------------------------
// Where requests are stored
// ---------------------------------------------------------------------------

/// The name of a collection: without the space around it, and a common one where it is blank.
pub open spec fn collection_name(collection: Seq<char>) -> Seq<char> {
    match text::trimmed_content(collection) {
        Some(name) => name,
        None => "General"@,
    }
}

pub fn collection_name_of(collection: &str) -> (r: String)
    ensures
        r@ == collection_name(collection@),
{
    match non_empty_trimmed(collection) {
        Some(name) => name,
        None => "General".to_owned(),
    }
}

/// The directories below the store in which a request is written, the outermost first.
pub open spec fn storage_directories(endpoint: EndpointView) -> Seq<Seq<char>> {
    seq![safe_segment(collection_name(endpoint.collection))] + folder_names(
        endpoint.folder_path,
    ).map_values(|name: Seq<char>| safe_segment(name))
}

/// The name of the file in which a request is written.
pub open spec fn storage_file_name(endpoint: EndpointView) -> Seq<char> {
    safe_segment(endpoint.method) + "__"@ + safe_segment(endpoint.id) + ".json"@
}

/// Where a request is written: the directories below the store, and the file name.
pub fn endpoint_storage_location(endpoint: &Endpoint) -> (r: (Vec<String>, String))
    ensures
        text::views(r.0@) == storage_directories(endpoint@),
        r.1@ == storage_file_name(endpoint@),
{
    let collection = collection_name_of(endpoint.collection.as_str());
    let top = safe_path_segment(collection.as_str());
    let ghost top_view = top@;
    let mut directories: Vec<String> = Vec::new();
    proof {
        text::lemma_views_push(directories@, top);
    }
    directories.push(top);
    let names = split_folder_path(endpoint.folder_path.as_str());
    let ghost all = text::views(names@);
    let ghost f = |name: Seq<char>| safe_segment(name);
    let mut i: usize = 0;
    assert(text::views(directories@) =~= seq![top_view] + all.take(0).map_values(f));
    while i < names.len()
        invariant
            i <= names@.len(),
            all == text::views(names@),
            f == (|name: Seq<char>| safe_segment(name)),
            text::views(directories@) == seq![top_view] + all.take(i as int).map_values(f),
        decreases names@.len() - i,
    {
        let directory = safe_path_segment(names[i].as_str());
        proof {
            text::lemma_views_push(directories@, directory);
            all.lemma_map_take_succ(f, i as int);
            assert((seq![top_view] + all.take(i as int).map_values(f)).push(directory@)
                =~= seq![top_view] + all.take(i + 1).map_values(f));
        }
        directories.push(directory);
        i += 1;
    }
    assert(all.take(all.len() as int) =~= all);
    let file_name = concat4(
        safe_path_segment(endpoint.method.as_str()).as_str(),
        "__",
        safe_path_segment(endpoint.id.as_str()).as_str(),
        ".json",
    );
    (directories, file_name)
}

/// Requests are written to different files unless their ids are the same as file names, for all
/// methods without `_`.
pub proof fn law_files_are_kept_apart(a: EndpointView, b: EndpointView)
    requires
        !safe_segment(a.method).contains('_'),
        !safe_segment(b.method).contains('_'),
        safe_segment(a.id) != safe_segment(b.id),
    ensures
        storage_file_name(a) != storage_file_name(b),
{
    lemma_file_name_parts(a);
    lemma_file_name_parts(b);
}

/// Method and id stand in a file name before and after the first `_`.
proof fn lemma_file_name_parts(endpoint: EndpointView)
    requires
        !safe_segment(endpoint.method).contains('_'),
    ensures
        ({
            let name = storage_file_name(endpoint);
            let n = text::first_index(name, '_');
            &&& safe_segment(endpoint.method) == name.take(n)
            &&& safe_segment(endpoint.id) == name.subrange(n + 2, name.len() - 5)
        }),
{
    reveal_strlit("__");
    reveal_strlit(".json");
    let method = safe_segment(endpoint.method);
    let name = storage_file_name(endpoint);
    assert forall|j: int| 0 <= j < method.len() implies name[j] != '_' by {
        assert(method.contains(method[j]));
    }
    text::lemma_first_of(name, '_', '_', method.len() as int);
    assert(name.take(method.len() as int) =~= method);
    assert(name.subrange(method.len() as int + 2, name.len() - 5) =~= safe_segment(endpoint.id));
}

// ---------------------------------------------------------------------------
// Laws
// ---------------------------------------------------------------------------

/// A path names its folders between slashes of either kind; blank names do not count.
pub proof fn law_slashes_part_folders(a: Seq<char>, b: Seq<char>)
    ensures
        folder_names(a + "/"@ + b) == folder_names(a) + folder_names(b),
        folder_names(a + "\\"@ + b) == folder_names(a) + folder_names(b),
        is_folder_name(a) ==> folder_names(a) == seq![a],
        text::is_blank(a) && !a.contains('/') && !a.contains('\\') ==> folder_names(a).len() == 0,
{
    reveal_strlit("/");
    reveal_strlit("\\");
    let f = |name: Seq<char>| text::trimmed_content(name);
    assert("/"@ =~= seq!['/']);
    assert("\\"@ =~= seq!['\\']);
    text::lemma_split_in_turn(a, b, '/', '/', '\\');
    text::lemma_split_in_turn(a, b, '\\', '/', '\\');
    text::lemma_filter_map_in_turn(
        text::split_at_any(a, '/', '\\'),
        text::split_at_any(b, '/', '\\'),
        f,
    );
    if !a.contains('/') && !a.contains('\\') {
        assert forall|j: int| 0 <= j < a.len() implies a[j] != '/' && a[j] != '\\' by {
            assert(a.contains(a[j]));
        }
        text::lemma_first_of(a, '/', '\\', a.len() as int);
        assert(text::split_at_any(a, '/', '\\') =~= seq![a]);
        Seq::lemma_filter_map_singleton(a, f);
    }
}

/// Whether the folders lead from an id to the outermost one: each is known by its id, and says
/// which one is around it.
pub open spec fn leads_out(
    id: Seq<char>,
    folders: Map<Seq<char>, FolderView>,
    names: Seq<Seq<char>>,
    ids: Seq<Seq<char>>,
) -> bool
    decreases names.len(),
{
    &&& names.len() == ids.len()
    &&& names.len() > 0
    &&& ids.last() == id
    &&& folders.dom().contains(id)
    &&& folders[id].name == names.last()
    &&& if names.len() == 1 {
        folders[id].parent_folder_id is None
    } else {
        let outer = ids[ids.len() - 2];
        &&& folders[id].parent_folder_id == Some(outer)
        &&& text::trim(outer) == outer && outer.len() > 0
        &&& leads_out(outer, folders, names.drop_last(), ids.drop_last())
    }
}

/// The path of a folder that is looked up names all folders around it, the outermost first.
pub proof fn law_looked_up_path_names_all_folders(
    id: Seq<char>,
    folders: Map<Seq<char>, FolderView>,
    names: Seq<Seq<char>>,
    ids: Seq<Seq<char>>,
)
    requires
        leads_out(id, folders, names, ids),
        names.len() <= FOLDER_DEPTH,
        id.len() > 0,
        text::trim(id) == id,
        forall|i: int| 0 <= i < names.len() ==> is_folder_name(#[trigger] names[i]),
    ensures
        looked_up_path(id, folders) matches Some(path) && folder_names(path) == names,
{
    lemma_enclosing_names(id, folders, names, ids, FOLDER_DEPTH as nat);
    law_joined_folders_are_found(names);
}

proof fn lemma_enclosing_names(
    id: Seq<char>,
    folders: Map<Seq<char>, FolderView>,
    names: Seq<Seq<char>>,
    ids: Seq<Seq<char>>,
    depth: nat,
)
    requires
        leads_out(id, folders, names, ids),
        names.len() <= depth,
        forall|i: int| 0 <= i < names.len() ==> is_folder_name(#[trigger] names[i]),
    ensures
        enclosing_names(id, folders, depth) == names,
    decreases names.len(),
{
    assert(is_folder_name(names[names.len() - 1]));
    if names.len() == 1 {
        assert(Seq::<Seq<char>>::empty() + seq![names.last()] =~= names);
    } else {
        let rest = names.drop_last();
        let outer = ids[ids.len() - 2];
        assert forall|i: int| 0 <= i < rest.len() implies is_folder_name(#[trigger] rest[i]) by {
            assert(rest[i] == names[i]);
        }
        lemma_enclosing_names(outer, folders, rest, ids.drop_last(), (depth - 1) as nat);
        assert(rest + seq![names.last()] =~= names);
    }
}

/// The workspace of a model stands behind the second slash of its path.
pub proof fn law_workspace_of_a_model(kind: Seq<char>, id: Seq<char>, workspace: Seq<char>)
    requires
        !kind.contains('/'),
        !id.contains('/'),
        !workspace.contains('/'),
    ensures
        model_workspace(kind + "/"@ + id + "/"@ + workspace) == Some(workspace),
        model_workspace(kind + "/"@ + id) is None,
{
    reveal_strlit("/");
    assert("/"@ =~= seq!['/']);
    lemma_whole_piece(kind);
    lemma_whole_piece(id);
    lemma_whole_piece(workspace);
    text::lemma_split_in_turn(kind, id, '/', '/', '/');
    text::lemma_split_in_turn(kind + "/"@ + id, workspace, '/', '/', '/');
}

proof fn lemma_whole_piece(s: Seq<char>)
    requires
        !s.contains('/'),
    ensures
        text::split_at(s, '/') == seq![s],
{
    assert forall|j: int| 0 <= j < s.len() implies s[j] != '/' by {
        assert(s.contains(s[j]));
    }
    text::lemma_first_of(s, '/', '/', s.len() as int);
}

/// A request is written below a directory for its collection and one for each of its folders, in
/// a file named by its method and its id.
pub proof fn law_request_is_written_in_its_place(endpoint: EndpointView, i: int)
    requires
        0 <= i < folder_names(endpoint.folder_path).len(),
    ensures
        storage_directories(endpoint).len() == folder_names(endpoint.folder_path).len() + 1,
        storage_directories(endpoint)[0] == safe_segment(
            if text::is_blank(endpoint.collection) {
                "General"@
            } else {
                text::trim(endpoint.collection)
            },
        ),
        storage_directories(endpoint)[i + 1] == safe_segment(
            folder_names(endpoint.folder_path)[i],
        ),
        storage_file_name(endpoint) == safe_segment(endpoint.method) + "__"@ + safe_segment(
            endpoint.id,
        ) + ".json"@,
{
}

/// A name of letters, digits and dashes is a segment of a path as it is.
pub proof fn law_plain_segment_stays(s: Seq<char>)
    requires
        s.len() > 0,
        forall|i: int|
            0 <= i < s.len() ==> text::is_ascii_alphanumeric(#[trigger] s[i]) || s[i] == '-',
    ensures
        safe_segment(s) == s,
        safe_segment(Seq::empty()) == "untitled"@,
{
    let safe = s.map_values(
        |c: char|
            if is_safe_char(c) {
                c
            } else {
                '_'
            },
    );
    assert(safe =~= s);
    assert(s[0] != '.' && s[0] != '_');
    assert(s[s.len() - 1] != '.' && s[s.len() - 1] != '_');
    assert(strip(s, '.') == s && strip(s, '_') == s);
    assert(text::trim(s) == s);
    let none = Seq::<char>::empty().map_values(
        |c: char|
            if is_safe_char(c) {
                c
            } else {
                '_'
            },
    );
    assert(none =~= Seq::<char>::empty());
}

/// A slug keeps the letters and digits of a name, in lower case.
pub proof fn law_slug_of_words(a: Seq<char>, b: Seq<char>, gap: Seq<char>)
    requires
        a.len() > 0,
        b.len() > 0,
        gap.len() > 0,
        forall|i: int| 0 <= i < a.len() ==> text::is_ascii_alphanumeric(#[trigger] a[i]),
        forall|i: int| 0 <= i < b.len() ==> text::is_ascii_alphanumeric(#[trigger] b[i]),
        forall|i: int| 0 <= i < gap.len() ==> !text::is_ascii_alphanumeric(#[trigger] gap[i]),
    ensures
        slug(a + gap + b) == text::ascii_lower(a) + "-"@ + text::ascii_lower(b),
{
    reveal_strlit("-");
    lemma_dashed_letters(Seq::empty(), a);
    assert(Seq::<char>::empty() + a =~= a);
    assert(dashed(Seq::empty()) + text::ascii_lower(a) =~= text::ascii_lower(a));
    lemma_dashed_gap(a, gap);
    lemma_dashed_letters(a + gap, b);
    let whole = dashed(a + gap + b);
    assert(whole =~= text::ascii_lower(a) + "-"@ + text::ascii_lower(b));
    assert(whole[0] == text::lower_char(a[0]));
    assert(whole.last() == text::lower_char(b.last()));
    assert(text::is_ascii_alphanumeric(a[0]) && text::is_ascii_alphanumeric(b[b.len() - 1]));
    assert(strip(whole, '-') == whole);
}

proof fn lemma_dashed_letters(before: Seq<char>, letters: Seq<char>)
    requires
        forall|i: int|
            0 <= i < letters.len() ==> text::is_ascii_alphanumeric(#[trigger] letters[i]),
    ensures
        dashed(before + letters) == dashed(before) + text::ascii_lower(letters),
    decreases letters.len(),
{
    if letters.len() == 0 {
        assert(before + letters =~= before);
        assert(dashed(before) + text::ascii_lower(letters) =~= dashed(before));
    } else {
        let rest = letters.drop_last();
        assert forall|i: int| 0 <= i < rest.len() implies text::is_ascii_alphanumeric(
            #[trigger] rest[i],
        ) by {
            assert(rest[i] == letters[i]);
        }
        lemma_dashed_letters(before, rest);
        let whole = before + letters;
        assert(whole.drop_last() =~= before + rest);
        assert(whole.last() == letters[letters.len() - 1]);
        assert(dashed(whole) =~= dashed(before) + text::ascii_lower(letters));
    }
}

proof fn lemma_dashed_gap(before: Seq<char>, gap: Seq<char>)
    requires
        gap.len() > 0,
        before.len() > 0,
        text::is_ascii_alphanumeric(before.last()),
        forall|i: int| 0 <= i < gap.len() ==> !text::is_ascii_alphanumeric(#[trigger] gap[i]),
    ensures
        dashed(before + gap) == dashed(before).push('-'),
    decreases gap.len(),
{
    let whole = before + gap;
    let rest = gap.drop_last();
    assert(whole.drop_last() =~= before + rest);
    assert(whole.last() == gap[gap.len() - 1]);
    if rest.len() > 0 {
        assert forall|i: int| 0 <= i < rest.len() implies !text::is_ascii_alphanumeric(
            #[trigger] rest[i],
        ) by {
            assert(rest[i] == gap[i]);
        }
        lemma_dashed_gap(before, rest);
        assert((before + rest).last() == rest[rest.len() - 1]);
    } else {
        assert(before + rest =~= before);
    }
}

/// A request without a collection is in the general one; the name of any other is taken without
/// the white space around it.
pub proof fn law_collection_has_a_name(name: Seq<char>)
    ensures
        text::is_blank(name) ==> collection_name(name) == "General"@,
        !text::is_blank(name) ==> collection_name(name) == text::trim(name),
{
}

} // verus!
