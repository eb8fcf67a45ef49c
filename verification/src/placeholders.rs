//! Placeholders: `${name}` in requests, `{{ name }}` in Postman data.
use crate::table::TextMap;
use crate::text;
use crate::text::{ascii_alphanumeric, chars_of, string_between, whitespace};
use vstd::prelude::*;
use vstd::string::*;

verus! {

/// The characters that may stand at a place of a placeholder.
#[derive(Clone, Copy)]
pub enum CharClass {
    /// Letters, digits and `_`.
    Name,
    /// Letters, digits, `_`, `.` and `-`.
    PostmanName,
    /// White space.
    Space,
}

pub open spec fn in_class(c: char, class: CharClass) -> bool {
    match class {
        CharClass::Name => text::is_ascii_alphanumeric(c) || c == '_',
        CharClass::PostmanName => text::is_ascii_alphanumeric(c) || c == '_' || c == '.' || c
            == '-',
        CharClass::Space => text::is_whitespace(c),
    }
}

fn belongs(c: char, class: CharClass) -> (r: bool)
    ensures
        r == in_class(c, class),
{
    match class {
        CharClass::Name => ascii_alphanumeric(c) || c == '_',
        CharClass::PostmanName => ascii_alphanumeric(c) || c == '_' || c == '.' || c == '-',
        CharClass::Space => whitespace(c),
    }
}

/// How many characters of the class the text begins with.
pub open spec fn run(s: Seq<char>, class: CharClass) -> int
    decreases s.len(),
{
    if s.len() > 0 && in_class(s[0], class) {
        1 + run(s.drop_first(), class)
    } else {
        0
    }
}

/// The end of the run of characters of the class that starts at `from`.
fn run_end(chars: &Vec<char>, from: usize, class: CharClass) -> (end: usize)
    requires
        from <= chars@.len(),
    ensures
        from <= end <= chars@.len(),
        end == from + run(chars@.skip(from as int), class),
{
    let mut end: usize = from;
    while end < chars.len() && belongs(chars[end], class)
        invariant
            from <= end <= chars@.len(),
            run(chars@.skip(from as int), class) == end - from + run(
                chars@.skip(end as int),
                class,
            ),
        decreases chars@.len() - end,
    {
        assert(chars@.skip(end as int).drop_first() =~= chars@.skip(end + 1));
        end += 1;
    }
    end
}

proof fn lemma_run(s: Seq<char>, class: CharClass)
    ensures
        0 <= run(s, class) <= s.len(),
        forall|i: int| 0 <= i < run(s, class) ==> in_class(#[trigger] s[i], class),
        run(s, class) < s.len() ==> !in_class(s[run(s, class)], class),
    decreases s.len(),
{
    if s.len() > 0 && in_class(s[0], class) {
        let rest = s.drop_first();
        lemma_run(rest, class);
        assert forall|i: int| 0 <= i < run(s, class) implies in_class(#[trigger] s[i], class) by {
            if i > 0 {
                assert(s[i] == rest[i - 1]);
            }
        }
    }
}

proof fn lemma_run_of(s: Seq<char>, class: CharClass, n: int)
    requires
        0 <= n < s.len(),
        forall|i: int| 0 <= i < n ==> in_class(#[trigger] s[i], class),
        !in_class(s[n], class),
    ensures
        run(s, class) == n,
    decreases n,
{
    if n > 0 {
        assert(in_class(s[0], class));
        let rest = s.drop_first();
        assert forall|i: int| 0 <= i < n - 1 implies in_class(#[trigger] rest[i], class) by {
            assert(rest[i] == s[i + 1]);
        }
        lemma_run_of(rest, class, n - 1);
    }
}

// ---------------------------------------------------------------------------
// `${name}`
// ---------------------------------------------------------------------------

/// The name in the placeholder that the text begins with: `${`, a letter or `_`, letters,
/// digits and `_`, `}`.
pub open spec fn leading_placeholder(s: Seq<char>) -> Option<Seq<char>> {
    let n = run(s.skip(2), CharClass::Name);
    if s.len() >= 2 && s[0] == '$' && s[1] == '{' && n > 0 && !('0' <= s[2] && s[2] <= '9') && 2 + n
        < s.len() && s[2 + n] == '}' {
        Some(s.subrange(2, 2 + n))
    } else {
        None
    }
}

/// The text with each placeholder replaced by the value of its variable. A placeholder of an
/// unknown variable stays as it is.
pub open spec fn resolved(s: Seq<char>, variables: Map<Seq<char>, Seq<char>>) -> Seq<char>
    decreases s.len(),
{
    if s.len() == 0 {
        Seq::empty()
    } else {
        match leading_placeholder(s) {
            Some(name) => (if variables.dom().contains(name) {
                variables[name]
            } else {
                s.take(name.len() as int + 3)
            }) + resolved(s.skip(name.len() as int + 3), variables),
            None => seq![s[0]] + resolved(s.skip(1), variables),
        }
    }
}

/// The end of the name in the placeholder that starts at `at`.
fn placeholder_name_end(chars: &Vec<char>, at: usize) -> (r: Option<usize>)
    requires
        at < chars@.len(),
    ensures
        match r {
            Some(end) => at + 2 <= end < chars@.len() && leading_placeholder(chars@.skip(at as int))
                == Some(chars@.subrange(at + 2, end as int)),
            None => leading_placeholder(chars@.skip(at as int)) is None,
        },
{
    let ghost rest = chars@.skip(at as int);
    if chars.len() - at < 2 || chars[at] != '$' || chars[at + 1] != '{' {
        return None;
    }
    let end = run_end(chars, at + 2, CharClass::Name);
    proof {
        assert(rest.skip(2) =~= chars@.skip(at + 2));
        lemma_run(rest.skip(2), CharClass::Name);
    }
    if end == at + 2 || end == chars.len() {
        return None;
    }
    if '0' <= chars[at + 2] && chars[at + 2] <= '9' {
        return None;
    }
    if chars[end] != '}' {
        return None;
    }
    assert(rest.subrange(2, end - at) =~= chars@.subrange(at + 2, end as int));
    Some(end)
}

/// Replaces each placeholder by the value of its variable.
pub fn resolve_placeholders(template: &str, env_vars: &TextMap<String>) -> (r: String)
    ensures
        r@ == resolved(template@, env_vars@),
{
    let chars = chars_of(template);
    let mut out = String::new();
    let mut at: usize = 0;
    assert(chars@.skip(0) =~= chars@);
    assert(out@ + resolved(template@, env_vars@) =~= resolved(template@, env_vars@));
    while at < chars.len()
        invariant
            chars@ == template@,
            at <= chars@.len(),
            resolved(template@, env_vars@) == out@ + resolved(
                template@.skip(at as int),
                env_vars@,
            ),
        decreases chars@.len() - at,
    {
        let ghost rest = template@.skip(at as int);
        let ghost before = out@;
        match placeholder_name_end(&chars, at) {
            Some(end) => {
                let name = string_between(&chars, at + 2, end);
                match env_vars.get(name.as_str()) {
                    Some(value) => {
                        out.append(value.as_str());
                    },
                    None => {
                        let whole = string_between(&chars, at, end + 1);
                        assert(whole@ =~= rest.take(end + 1 - at));
                        out.append(whole.as_str());
                    },
                }
                proof {
                    assert(rest.skip(end + 1 - at) =~= template@.skip(end + 1));
                    let piece = out@.skip(before.len() as int);
                    assert(out@ =~= before + piece);
                    let tail = resolved(template@.skip(end + 1), env_vars@);
                    assert(before + (piece + tail) =~= out@ + tail);
                    assert(resolved(rest, env_vars@) =~= piece + tail);
                }
                at = end + 1;
            },
            None => {
                out.push(chars[at]);
                proof {
                    assert(rest.skip(1) =~= template@.skip(at + 1));
                    let tail = resolved(template@.skip(at + 1), env_vars@);
                    assert(before + (seq![rest[0]] + tail) =~= out@ + tail);
                }
                at += 1;
            },
        }
    }
    assert(template@.skip(at as int).len() == 0);
    assert(out@ + resolved(template@.skip(at as int), env_vars@) =~= out@);
    out
}

/// Without variables nothing is replaced.
pub proof fn law_unknown_placeholders_stay(s: Seq<char>)
    ensures
        resolved(s, Map::empty()) == s,
    decreases s.len(),
{
    if s.len() > 0 {
        match leading_placeholder(s) {
            Some(name) => {
                lemma_run(s.skip(2), CharClass::Name);
                law_unknown_placeholders_stay(s.skip(name.len() as int + 3));
                assert(s.take(name.len() as int + 3) + s.skip(name.len() as int + 3) =~= s);
            },
            None => {
                law_unknown_placeholders_stay(s.skip(1));
                assert(seq![s[0]] + s.skip(1) =~= s);
            },
        }
    }
}

/// A text without `$` holds no placeholder: it stays as it is, whatever the variables.
pub proof fn law_plain_text_stays(s: Seq<char>, variables: Map<Seq<char>, Seq<char>>)
    requires
        !s.contains('$'),
    ensures
        resolved(s, variables) == s,
    decreases s.len(),
{
    if s.len() > 0 {
        assert(s[0] != '$');
        let rest = s.skip(1);
        assert(!rest.contains('$')) by {
            if rest.contains('$') {
                let k = choose|k: int| 0 <= k < rest.len() && rest[k] == '$';
                assert(s[k + 1] == '$');
            }
        }
        law_plain_text_stays(rest, variables);
        assert(seq![s[0]] + rest =~= s);
    }
}

/// Whether a placeholder can have the name.
pub open spec fn is_name(name: Seq<char>) -> bool {
    &&& name.len() > 0
    &&& !('0' <= name[0] && name[0] <= '9')
    &&& forall|i: int| 0 <= i < name.len() ==> in_class(#[trigger] name[i], CharClass::Name)
}

/// The first placeholder of a text is replaced by the value of its variable, or stays where there
/// is no such variable; what comes before it stays, and what comes behind it counts by itself.
pub proof fn law_placeholder_is_replaced(
    before: Seq<char>,
    name: Seq<char>,
    rest: Seq<char>,
    variables: Map<Seq<char>, Seq<char>>,
)
    requires
        !before.contains('$'),
        is_name(name),
    ensures
        resolved(before + "${"@ + name + "}"@ + rest, variables) == before + (
        if variables.dom().contains(name) {
            variables[name]
        } else {
            "${"@ + name + "}"@
        }) + resolved(rest, variables),
    decreases before.len(),
{
    reveal_strlit("${");
    reveal_strlit("}");
    let s = before + "${"@ + name + "}"@ + rest;
    if before.len() > 0 {
        let less = before.skip(1);
        assert(before.contains(before[0]));
        assert(!less.contains('$')) by {
            if less.contains('$') {
                let k = choose|k: int| 0 <= k < less.len() && less[k] == '$';
                assert(before[k + 1] == '$');
            }
        }
        law_placeholder_is_replaced(less, name, rest, variables);
        assert(s.skip(1) =~= less + "${"@ + name + "}"@ + rest);
        let value = if variables.dom().contains(name) {
            variables[name]
        } else {
            "${"@ + name + "}"@
        };
        assert(seq![s[0]] + (less + value + resolved(rest, variables)) =~= before + value
            + resolved(rest, variables));
    } else {
        let n = name.len() as int;
        let inner = s.skip(2);
        assert forall|i: int| 0 <= i < n implies in_class(
            #[trigger] inner[i],
            CharClass::Name,
        ) by {
            assert(inner[i] == name[i]);
        }
        assert(inner[n] == '}');
        lemma_run_of(inner, CharClass::Name, n);
        assert(s[2] == name[0]);
        assert(s.subrange(2, 2 + n) =~= name);
        assert(s.take(n + 3) =~= "${"@ + name + "}"@);
        assert(s.skip(n + 3) =~= rest);
        assert(before =~= Seq::empty());
        if variables.dom().contains(name) {
            assert(before + variables[name] =~= variables[name]);
        } else {
            assert(before + ("${"@ + name + "}"@) =~= "${"@ + name + "}"@);
        }
    }
}

/// A text with one placeholder: it is replaced by the value of its variable, and what stands
/// around it stays.
pub proof fn law_one_placeholder_is_replaced(
    before: Seq<char>,
    name: Seq<char>,
    after: Seq<char>,
    variables: Map<Seq<char>, Seq<char>>,
)
    requires
        !before.contains('$'),
        !after.contains('$'),
        is_name(name),
        variables.dom().contains(name),
    ensures
        resolved(before + "${"@ + name + "}"@ + after, variables) == before + variables[name]
            + after,
{
    law_placeholder_is_replaced(before, name, after, variables);
    law_plain_text_stays(after, variables);
}

// ---------------------------------------------------------------------------
// `{{ name }}`
// ---------------------------------------------------------------------------

/// The name in the Postman placeholder that the text begins with, and the length of the whole:
/// `{{`, white space, the name, white space, `}}`.
pub open spec fn leading_postman_placeholder(s: Seq<char>) -> Option<(Seq<char>, int)> {
    let from = 2 + run(s.skip(2), CharClass::Space);
    let to = from + run(s.skip(from), CharClass::PostmanName);
    let end = to + run(s.skip(to), CharClass::Space);
    if s.len() >= 2 && s[0] == '{' && s[1] == '{' && from < to && end + 2 <= s.len() && s[end] == '}'
        && s[end + 1] == '}' {
        Some((s.subrange(from, to), end + 2))
    } else {
        None
    }
}

pub proof fn lemma_postman_placeholder_length(s: Seq<char>)
    ensures
        match leading_postman_placeholder(s) {
            Some((name, length)) => 0 < length <= s.len(),
            None => true,
        },
{
    let from = 2 + run(s.skip(2), CharClass::Space);
    let to = from + run(s.skip(from), CharClass::PostmanName);
    lemma_run(s.skip(2), CharClass::Space);
    lemma_run(s.skip(from), CharClass::PostmanName);
    lemma_run(s.skip(to), CharClass::Space);
}

/// The text with each Postman placeholder `{{ name }}` written as `${name}`.
pub open spec fn normalized(s: Seq<char>) -> Seq<char>
    decreases s.len(),
{
    if s.len() == 0 {
        Seq::empty()
    } else {
        match leading_postman_placeholder(s) {
            Some((name, length)) => {
                proof {
                    lemma_postman_placeholder_length(s);
                }
                "${"@ + name + "}"@ + normalized(s.skip(length))
            },
            None => seq![s[0]] + normalized(s.skip(1)),
        }
    }
}

/// The bounds of the name in the Postman placeholder that starts at `at`, and the end of the
/// whole.
fn postman_placeholder_bounds(chars: &Vec<char>, at: usize) -> (r: Option<(usize, usize, usize)>)
    requires
        at < chars@.len(),
    ensures
        match r {
            Some((from, to, end)) => at < from < to < end <= chars@.len()
                && leading_postman_placeholder(chars@.skip(at as int)) == Some(
                (chars@.subrange(from as int, to as int), end - at),
            ),
            None => leading_postman_placeholder(chars@.skip(at as int)) is None,
        },
{
    let ghost rest = chars@.skip(at as int);
    if chars.len() - at < 2 || chars[at] != '{' || chars[at + 1] != '{' {
        return None;
    }
    let from = run_end(chars, at + 2, CharClass::Space);
    assert(rest.skip(2) =~= chars@.skip(at + 2));
    let to = run_end(chars, from, CharClass::PostmanName);
    assert(rest.skip(from - at) =~= chars@.skip(from as int));
    let end = run_end(chars, to, CharClass::Space);
    assert(rest.skip(to - at) =~= chars@.skip(to as int));
    if from == to || chars.len() - end < 2 || chars[end] != '}' || chars[end + 1] != '}' {
        return None;
    }
    assert(rest.subrange(from - at, to - at) =~= chars@.subrange(from as int, to as int));
    Some((from, to, end + 2))
}

/// Writes each Postman placeholder as a placeholder of this application.
pub fn normalize_postman_placeholders(input: &str) -> (r: String)
    ensures
        r@ == normalized(input@),
{
    let chars = chars_of(input);
    let mut out = String::new();
    let mut at: usize = 0;
    assert(chars@.skip(0) =~= chars@);
    assert(out@ + normalized(input@) =~= normalized(input@));
    while at < chars.len()
        invariant
            chars@ == input@,
            at <= chars@.len(),
            normalized(input@) == out@ + normalized(input@.skip(at as int)),
        decreases chars@.len() - at,
    {
        let ghost rest = input@.skip(at as int);
        let ghost before = out@;
        match postman_placeholder_bounds(&chars, at) {
            Some((from, to, end)) => {
                let name = string_between(&chars, from, to);
                out.append("${");
                out.append(name.as_str());
                out.append("}");
                proof {
                    assert(rest.skip(end - at) =~= input@.skip(end as int));
                    let tail = normalized(input@.skip(end as int));
                    assert(before + ("${"@ + name@ + "}"@ + tail) =~= out@ + tail);
                }
                at = end;
            },
            None => {
                out.push(chars[at]);
                proof {
                    assert(rest.skip(1) =~= input@.skip(at + 1));
                    let tail = normalized(input@.skip(at + 1));
                    assert(before + (seq![rest[0]] + tail) =~= out@ + tail);
                }
                at += 1;
            },
        }
    }
    assert(input@.skip(at as int).len() == 0);
    assert(out@ + normalized(input@.skip(at as int)) =~= out@);
    out
}

/// A text in which every Postman placeholder was written as one of this application holds no
/// Postman placeholder any more: doing so twice changes nothing.
pub proof fn law_normalized_once(s: Seq<char>)
    ensures
        normalized(normalized(s)) == normalized(s),
    decreases s.len(),
{
    reveal_strlit("${");
    reveal_strlit("}");
    if s.len() > 0 {
        match leading_postman_placeholder(s) {
            Some((name, length)) => {
                let rest = normalized(s.skip(length));
                let piece = "${"@ + name + "}"@;
                lemma_postman_placeholder(s);
                law_normalized_once(s.skip(length));
                assert(piece[2] == name[0]);
                assert forall|i: int| 0 <= i < piece.len() implies (#[trigger] piece[i] != '{' || (i
                    + 1 < piece.len() && piece[i + 1] != '{')) by {
                    if 2 <= i < 2 + name.len() {
                        assert(piece[i] == name[i - 2]);
                    }
                }
                lemma_plain_start(piece, rest);
            },
            None => {
                let rest = normalized(s.skip(1));
                let t = seq![s[0]] + rest;
                law_normalized_once(s.skip(1));
                lemma_plain_until_placeholder(s.skip(1));
                let k = plain_length(s.skip(1));
                if let Some((name, length)) = leading_postman_placeholder(t) {
                    lemma_postman_placeholder(t);
                    if k < s.len() - 1 && length > k + 1 {
                        assert(t[k + 1] == '$');
                    }
                    assert forall|i: int| 0 <= i < length implies s[i] == t[i] by {
                        if i > 0 {
                            assert(s.skip(1)[i - 1] == rest[i - 1]);
                        }
                    }
                    lemma_same_placeholder(t, s);
                }
                assert(t.skip(1) =~= rest);
            },
        }
    }
}

/// How many characters stand before the first Postman placeholder.
spec fn plain_length(s: Seq<char>) -> int
    decreases s.len(),
{
    if s.len() == 0 || leading_postman_placeholder(s) is Some {
        0
    } else {
        1 + plain_length(s.skip(1))
    }
}

/// Up to its first Postman placeholder a text stays as it is; in place of that stands a `$`.
proof fn lemma_plain_until_placeholder(s: Seq<char>)
    ensures
        0 <= plain_length(s) <= s.len(),
        normalized(s).len() >= plain_length(s),
        forall|i: int| 0 <= i < plain_length(s) ==> #[trigger] normalized(s)[i] == s[i],
        if plain_length(s) == s.len() {
            normalized(s).len() == s.len()
        } else {
            plain_length(s) < normalized(s).len() && normalized(s)[plain_length(s)] == '$'
        },
    decreases s.len(),
{
    reveal_strlit("${");
    if s.len() > 0 && leading_postman_placeholder(s) is None {
        let rest = s.skip(1);
        lemma_plain_until_placeholder(rest);
        assert forall|i: int| 0 <= i < plain_length(s) implies #[trigger] normalized(s)[i]
            == s[i] by {
            if i > 0 {
                assert(normalized(rest)[i - 1] == rest[i - 1]);
            }
        }
    }
}

/// The characters before which no Postman placeholder begins stay as they are.
proof fn lemma_plain_start(piece: Seq<char>, rest: Seq<char>)
    requires
        forall|i: int|
            0 <= i < piece.len() ==> (#[trigger] piece[i] != '{' || (i + 1 < piece.len() && piece[i
                + 1] != '{')),
    ensures
        normalized(piece + rest) == piece + normalized(rest),
    decreases piece.len(),
{
    let whole = piece + rest;
    if piece.len() == 0 {
        assert(whole =~= rest);
        assert(piece + normalized(rest) =~= normalized(rest));
    } else {
        let after = piece.skip(1);
        assert forall|i: int| 0 <= i < after.len() implies (#[trigger] after[i] != '{' || (i + 1
            < after.len() && after[i + 1] != '{')) by {
            assert(after[i] == piece[i + 1]);
        }
        lemma_plain_start(after, rest);
        assert(whole.skip(1) =~= after + rest);
        assert(whole[0] == piece[0]);
        if piece.len() > 1 {
            assert(whole[1] == piece[1]);
        }
        assert(leading_postman_placeholder(whole) is None);
        assert(normalized(whole) =~= piece + normalized(rest));
    }
}

/// The characters of a Postman placeholder.
proof fn lemma_postman_placeholder(s: Seq<char>)
    ensures
        leading_postman_placeholder(s) matches Some((name, length)) ==> {
            &&& 0 < length <= s.len()
            &&& name.len() > 0
            &&& forall|i: int|
                0 <= i < name.len() ==> in_class(#[trigger] name[i], CharClass::PostmanName)
            &&& forall|i: int| 0 <= i < length ==> #[trigger] s[i] != '$'
        },
{
    if leading_postman_placeholder(s) is Some {
        let from = 2 + run(s.skip(2), CharClass::Space);
        let to = from + run(s.skip(from), CharClass::PostmanName);
        let end = to + run(s.skip(to), CharClass::Space);
        lemma_run(s.skip(2), CharClass::Space);
        lemma_run(s.skip(from), CharClass::PostmanName);
        lemma_run(s.skip(to), CharClass::Space);
        assert forall|i: int| from <= i < to implies in_class(
            #[trigger] s[i],
            CharClass::PostmanName,
        ) by {
            assert(s[i] == s.skip(from)[i - from]);
        }
        assert forall|i: int| 0 <= i < end + 2 implies #[trigger] s[i] != '$' by {
            if 2 <= i < from {
                assert(s[i] == s.skip(2)[i - 2]);
            } else if to <= i < end {
                assert(s[i] == s.skip(to)[i - to]);
            }
        }
    }
}

/// A text that begins with the characters of a Postman placeholder begins with that placeholder.
proof fn lemma_same_placeholder(s: Seq<char>, t: Seq<char>)
    requires
        leading_postman_placeholder(s) matches Some((name, length)) && length <= t.len() && forall|
            i: int,
        |
            0 <= i < length ==> t[i] == #[trigger] s[i],
    ensures
        leading_postman_placeholder(t) is Some,
{
    let from = 2 + run(s.skip(2), CharClass::Space);
    let to = from + run(s.skip(from), CharClass::PostmanName);
    let end = to + run(s.skip(to), CharClass::Space);
    lemma_run(s.skip(2), CharClass::Space);
    lemma_run(s.skip(from), CharClass::PostmanName);
    lemma_run(s.skip(to), CharClass::Space);
    lemma_same_run(s, t, CharClass::Space, 2, end);
    lemma_same_run(s, t, CharClass::PostmanName, from, end);
    lemma_same_run(s, t, CharClass::Space, to, end);
    assert(t[0] == s[0] && t[1] == s[1] && t[end] == s[end] && t[end + 1] == s[end + 1]);
}

proof fn lemma_same_run(s: Seq<char>, t: Seq<char>, class: CharClass, from: int, end: int)
    requires
        0 <= from <= end < s.len(),
        end < t.len(),
        from + run(s.skip(from), class) <= end,
        forall|i: int| 0 <= i <= end ==> t[i] == #[trigger] s[i],
    ensures
        run(t.skip(from), class) == run(s.skip(from), class),
{
    let n = run(s.skip(from), class);
    let rest = t.skip(from);
    lemma_run(s.skip(from), class);
    assert forall|i: int| 0 <= i < n implies in_class(#[trigger] rest[i], class) by {
        assert(s.skip(from)[i] == s[from + i]);
    }
    assert(s.skip(from)[n] == s[from + n]);
    lemma_run_of(rest, class, n);
}

/// A text without braces holds no Postman placeholder and stays as it is.
pub proof fn law_text_without_braces_stays(s: Seq<char>)
    requires
        !s.contains('{'),
    ensures
        normalized(s) == s,
{
    assert forall|i: int| 0 <= i < s.len() implies (#[trigger] s[i] != '{' || (i + 1 < s.len() && s[i
        + 1] != '{')) by {
        assert(s.contains(s[i]));
    }
    lemma_plain_start(s, Seq::empty());
    assert(s + Seq::<char>::empty() =~= s);
}

/// The first Postman placeholder of a text becomes one of this application, without the space
/// inside it; what comes before it stays, and what comes behind it counts by itself.
pub proof fn law_postman_placeholder_is_converted(
    before: Seq<char>,
    space: Seq<char>,
    name: Seq<char>,
    more_space: Seq<char>,
    rest: Seq<char>,
)
    requires
        !before.contains('{'),
        forall|i: int| 0 <= i < space.len() ==> text::is_whitespace(#[trigger] space[i]),
        forall|i: int| 0 <= i < more_space.len() ==> text::is_whitespace(#[trigger] more_space[i]),
        name.len() > 0,
        forall|i: int|
            0 <= i < name.len() ==> text::is_ascii_alphanumeric(#[trigger] name[i]) || name[i]
                == '_' || name[i] == '.' || name[i] == '-',
    ensures
        normalized(before + "{{"@ + space + name + more_space + "}}"@ + rest) == before + "${"@
            + name + "}"@ + normalized(rest),
{
    reveal_strlit("{{");
    reveal_strlit("}}");
    reveal_strlit("${");
    reveal_strlit("}");
    let s = "{{"@ + space + name + more_space + "}}"@ + rest;
    let from = 2 + space.len() as int;
    let to = from + name.len() as int;
    let end = to + more_space.len() as int;
    assert forall|i: int| 0 <= i < space.len() implies in_class(
        #[trigger] s.skip(2)[i],
        CharClass::Space,
    ) by {
        assert(s.skip(2)[i] == space[i]);
    }
    assert(s.skip(2)[space.len() as int] == name[0]);
    lemma_run_of(s.skip(2), CharClass::Space, space.len() as int);
    assert forall|i: int| 0 <= i < name.len() implies in_class(
        #[trigger] s.skip(from)[i],
        CharClass::PostmanName,
    ) by {
        assert(s.skip(from)[i] == name[i]);
    }
    assert(s.skip(from)[name.len() as int] == s[to]);
    if more_space.len() > 0 {
        assert(s[to] == more_space[0]);
    } else {
        assert(s[to] == '}');
    }
    lemma_run_of(s.skip(from), CharClass::PostmanName, name.len() as int);
    assert forall|i: int| 0 <= i < more_space.len() implies in_class(
        #[trigger] s.skip(to)[i],
        CharClass::Space,
    ) by {
        assert(s.skip(to)[i] == more_space[i]);
    }
    assert(s.skip(to)[more_space.len() as int] == '}');
    lemma_run_of(s.skip(to), CharClass::Space, more_space.len() as int);
    assert(s[end] == '}' && s[end + 1] == '}');
    assert(s.subrange(from, to) =~= name);
    assert(leading_postman_placeholder(s) == Some((name, end + 2)));
    assert(s.skip(end + 2) =~= rest);
    assert forall|i: int| 0 <= i < before.len() implies (#[trigger] before[i] != '{' || (i + 1
        < before.len() && before[i + 1] != '{')) by {
        assert(before.contains(before[i]));
    }
    lemma_plain_start(before, s);
    assert(before + "{{"@ + space + name + more_space + "}}"@ + rest =~= before + s);
    assert(before + ("${"@ + name + "}"@ + normalized(rest)) =~= before + "${"@ + name + "}"@
        + normalized(rest));
}

} // verus!
