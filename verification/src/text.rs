//! Text primitives. A string is modelled by its sequence of characters.
use vstd::prelude::*;
use vstd::string::*;

verus! {

/// The values that a sequence of viewable items stands for.
pub open spec fn views<T: View>(items: Seq<T>) -> Seq<T::V> {
    items.map_values(|item: T| item@)
}

pub proof fn lemma_views_push<T: View>(items: Seq<T>, item: T)
    ensures
        views(items.push(item)) == views(items).push(item@),
{
    assert(views(items.push(item)) =~= views(items).push(item@));
}

pub proof fn lemma_views_update<T: View>(items: Seq<T>, i: int, item: T)
    requires
        0 <= i < items.len(),
    ensures
        views(items.update(i, item)) == views(items).update(i, item@),
{
    assert(views(items.update(i, item)) =~= views(items).update(i, item@));
}

/// What an item is mapped to is among what all items are mapped to.
pub proof fn lemma_filter_map_holds<A, B>(items: Seq<A>, f: spec_fn(A) -> Option<B>, i: int, b: B)
    requires
        0 <= i < items.len(),
        f(items[i]) == Some(b),
    ensures
        items.filter_map(f).contains(b),
    decreases items.len(),
{
    let rest = items.drop_last();
    if i == rest.len() {
        let all = rest.filter_map(f) + seq![b];
        assert(all[rest.filter_map(f).len() as int] == b);
    } else {
        lemma_filter_map_holds(rest, f, i, b);
        let k = choose|k: int| 0 <= k < rest.filter_map(f).len() && rest.filter_map(f)[k] == b;
        assert(items.filter_map(f)[k] == b);
    }
}

/// `String::push` appends one character.
pub assume_specification[ String::push ](s: &mut String, c: char)
    ensures
        final(s)@ == old(s)@.push(c),
;

// ---------------------------------------------------------------------------
// Characters
// ---------------------------------------------------------------------------

/// The Unicode property `White_Space`.
pub open spec fn is_whitespace(c: char) -> bool {
    let n = c as u32;
    ||| 0x09 <= n <= 0x0d
    ||| n == 0x20
    ||| n == 0x85
    ||| n == 0xa0
    ||| n == 0x1680
    ||| 0x2000 <= n <= 0x200a
    ||| n == 0x2028
    ||| n == 0x2029
    ||| n == 0x202f
    ||| n == 0x205f
    ||| n == 0x3000
}

pub fn whitespace(c: char) -> (r: bool)
    ensures
        r == is_whitespace(c),
{
    let n: u32 = c as u32;
    (0x09 <= n && n <= 0x0d) || n == 0x20 || n == 0x85 || n == 0xa0 || n == 0x1680 || (0x2000 <= n
        && n <= 0x200a) || n == 0x2028 || n == 0x2029 || n == 0x202f || n == 0x205f || n == 0x3000
}

/// `A` to `Z` become `a` to `z`; every other character stays.
pub open spec fn lower_char(c: char) -> char {
    if 'A' <= c && c <= 'Z' {
        ((c as u8) + 32) as char
    } else {
        c
    }
}

pub fn ascii_lower_char(c: char) -> (r: char)
    ensures
        r == lower_char(c),
{
    if 'A' <= c && c <= 'Z' {
        let b: u8 = c as u8;
        (b + 32) as char
    } else {
        c
    }
}

pub open spec fn is_ascii_alphanumeric(c: char) -> bool {
    ('0' <= c && c <= '9') || ('A' <= c && c <= 'Z') || ('a' <= c && c <= 'z')
}

pub fn ascii_alphanumeric(c: char) -> (r: bool)
    ensures
        r == is_ascii_alphanumeric(c),
{
    ('0' <= c && c <= '9') || ('A' <= c && c <= 'Z') || ('a' <= c && c <= 'z')
}

// ---------------------------------------------------------------------------
// Strings as vectors of characters
// ---------------------------------------------------------------------------

/// The characters of a string slice, in order.
pub fn chars_of(s: &str) -> (chars: Vec<char>)
    ensures
        chars@ == s@,
{
    let mut chars: Vec<char> = Vec::new();
    for c in it: s.chars()
        invariant
            it.seq() == s@,
            chars@ == s@.take(it.index() as int),
    {
        chars.push(c);
    }
    chars
}

/// The string made of the characters `from..to`.
pub fn string_between(chars: &Vec<char>, from: usize, to: usize) -> (s: String)
    requires
        from <= to <= chars@.len(),
    ensures
        s@ == chars@.subrange(from as int, to as int),
{
    let mut s = String::new();
    let mut i: usize = from;
    while i < to
        invariant
            from <= i <= to <= chars@.len(),
            s@ == chars@.subrange(from as int, i as int),
        decreases to - i,
    {
        s.push(chars[i]);
        i += 1;
        assert(chars@.subrange(from as int, i as int) =~= chars@.subrange(
            from as int,
            i - 1,
        ).push(chars@[i - 1]));
    }
    s
}

/// Whether two texts are the same.
pub fn same_text(a: &str, b: &str) -> (r: bool)
    ensures
        r == (a@ == b@),
{
    a.to_owned() == b.to_owned()
}

/// `a` followed by `b`.
pub fn concat2(a: &str, b: &str) -> (s: String)
    ensures
        s@ == a@ + b@,
{
    let mut s = a.to_owned();
    s.append(b);
    s
}

pub fn concat3(a: &str, b: &str, c: &str) -> (s: String)
    ensures
        s@ == a@ + b@ + c@,
{
    let mut s = a.to_owned();
    s.append(b);
    s.append(c);
    s
}

pub fn concat4(a: &str, b: &str, c: &str, d: &str) -> (s: String)
    ensures
        s@ == a@ + b@ + c@ + d@,
{
    let mut s = a.to_owned();
    s.append(b);
    s.append(c);
    s.append(d);
    s
}

pub fn concat5(a: &str, b: &str, c: &str, d: &str, e: &str) -> (s: String)
    ensures
        s@ == a@ + b@ + c@ + d@ + e@,
{
    let mut s = a.to_owned();
    s.append(b);
    s.append(c);
    s.append(d);
    s.append(e);
    s
}

// ---------------------------------------------------------------------------
// Trimming and case
// ---------------------------------------------------------------------------

/// The text without its leading white space.
pub open spec fn trim_start(s: Seq<char>) -> Seq<char>
    decreases s.len(),
{
    if s.len() > 0 && is_whitespace(s[0]) {
        trim_start(s.drop_first())
    } else {
        s
    }
}

/// The text without its trailing white space.
pub open spec fn trim_end(s: Seq<char>) -> Seq<char>
    decreases s.len(),
{
    if s.len() > 0 && is_whitespace(s.last()) {
        trim_end(s.drop_last())
    } else {
        s
    }
}

/// The text without leading and trailing white space.
pub open spec fn trim(s: Seq<char>) -> Seq<char> {
    trim_end(trim_start(s))
}

/// The number of leading white space characters.
fn leading_whitespace(chars: &Vec<char>) -> (n: usize)
    ensures
        n <= chars@.len(),
        trim_start(chars@) == chars@.skip(n as int),
{
    let mut n: usize = 0;
    assert(chars@.skip(0) =~= chars@);
    while n < chars.len() && whitespace(chars[n])
        invariant
            n <= chars@.len(),
            trim_start(chars@) == trim_start(chars@.skip(n as int)),
        decreases chars@.len() - n,
    {
        assert(chars@.skip(n as int).drop_first() =~= chars@.skip(n + 1));
        n += 1;
    }
    n
}

pub fn trimmed(s: &str) -> (r: String)
    ensures
        r@ == trim(s@),
{
    let chars = chars_of(s);
    let from = leading_whitespace(&chars);
    let mut to: usize = chars.len();
    let ghost rest = chars@.skip(from as int);
    assert(rest =~= chars@.subrange(from as int, to as int));
    while from < to && whitespace(chars[to - 1])
        invariant
            from <= to <= chars@.len(),
            trim_end(rest) == trim_end(chars@.subrange(from as int, to as int)),
        decreases to,
    {
        assert(chars@.subrange(from as int, to as int).drop_last() =~= chars@.subrange(
            from as int,
            to - 1,
        ));
        to -= 1;
    }
    string_between(&chars, from, to)
}

pub fn trimmed_start(s: &str) -> (r: String)
    ensures
        r@ == trim_start(s@),
{
    let chars = chars_of(s);
    let from = leading_whitespace(&chars);
    assert(chars@.skip(from as int) =~= chars@.subrange(from as int, chars@.len() as int));
    string_between(&chars, from, chars.len())
}

proof fn lemma_trim_start_shrinks(s: Seq<char>)
    ensures
        trim_start(s).len() <= s.len(),
        trim_start(s).len() == s.len() ==> trim_start(s) == s,
        trim_start(s).len() > 0 ==> !is_whitespace(trim_start(s)[0]),
        forall|i: int| 0 <= i < trim_start(s).len() ==> s.contains(#[trigger] trim_start(s)[i]),
    decreases s.len(),
{
    if s.len() > 0 && is_whitespace(s[0]) {
        let rest = s.drop_first();
        lemma_trim_start_shrinks(rest);
        assert forall|i: int| 0 <= i < trim_start(s).len() implies s.contains(
            #[trigger] trim_start(s)[i],
        ) by {
            let j = choose|j: int| 0 <= j < rest.len() && rest[j] == trim_start(rest)[i];
            assert(s[j + 1] == trim_start(s)[i]);
        }
    }
}

proof fn lemma_trim_end_shrinks(s: Seq<char>)
    ensures
        trim_end(s).len() <= s.len(),
        trim_end(s).len() == s.len() ==> trim_end(s) == s,
        trim_end(s).len() > 0 ==> !is_whitespace(trim_end(s).last()) && trim_end(s)[0] == s[0],
        forall|i: int| 0 <= i < trim_end(s).len() ==> s.contains(#[trigger] trim_end(s)[i]),
    decreases s.len(),
{
    if s.len() > 0 && is_whitespace(s.last()) {
        let rest = s.drop_last();
        lemma_trim_end_shrinks(rest);
        assert forall|i: int| 0 <= i < trim_end(s).len() implies s.contains(
            #[trigger] trim_end(s)[i],
        ) by {
            let j = choose|j: int| 0 <= j < rest.len() && rest[j] == trim_end(rest)[i];
            assert(s[j] == trim_end(s)[i]);
        }
    }
}

/// What is left after trimming stood in the text.
pub proof fn lemma_trim_is_part(s: Seq<char>)
    ensures
        forall|i: int| 0 <= i < trim(s).len() ==> s.contains(#[trigger] trim(s)[i]),
{
    let start = trim_start(s);
    lemma_trim_start_shrinks(s);
    lemma_trim_end_shrinks(start);
    assert forall|i: int| 0 <= i < trim(s).len() implies s.contains(#[trigger] trim(s)[i]) by {
        let j = choose|j: int| 0 <= j < start.len() && start[j] == trim(s)[i];
        assert(s.contains(start[j]));
    }
}

/// A trimmed text stays as it is.
pub proof fn lemma_trim_is_final(s: Seq<char>)
    ensures
        trim(trim(s)) == trim(s),
{
    let start = trim_start(s);
    lemma_trim_start_shrinks(s);
    lemma_trim_end_shrinks(start);
}

/// A text that trimming leaves alone neither begins nor ends with white space.
pub proof fn lemma_trimmed_ends(s: Seq<char>)
    requires
        s.len() > 0,
        trim(s) == s,
    ensures
        !is_whitespace(s[0]),
        !is_whitespace(s.last()),
{
    lemma_trim_start_shrinks(s);
    lemma_trim_end_shrinks(trim_start(s));
}

/// A trimmed text is still trimmed in lower case.
pub proof fn lemma_trimmed_in_lower_case(s: Seq<char>)
    ensures
        trim(ascii_lower(trim(s))) == ascii_lower(trim(s)),
{
    let t = trim(s);
    let lower = ascii_lower(t);
    lemma_trim_is_final(s);
    if t.len() > 0 {
        lemma_trimmed_ends(t);
        assert(lower[0] == lower_char(t[0]));
        assert(lower.last() == lower_char(t.last()));
    }
}

/// Whether nothing but white space stands in the text.
pub open spec fn is_blank(s: Seq<char>) -> bool {
    trim(s).len() == 0
}

pub fn blank(s: &str) -> (r: bool)
    ensures
        r == is_blank(s@),
{
    let t = trimmed(s);
    t.as_str().is_empty()
}

/// The text without surrounding white space, where anything is left.
pub open spec fn trimmed_content(s: Seq<char>) -> Option<Seq<char>> {
    if is_blank(s) {
        None
    } else {
        Some(trim(s))
    }
}

/// The trimmed text, or `None` where nothing is left of it.
pub fn non_empty_trimmed(input: &str) -> (r: Option<String>)
    ensures
        opt(r) == trimmed_content(input@),
{
    let value = trimmed(input);
    if value.as_str().is_empty() {
        None
    } else {
        Some(value)
    }
}

pub fn copy_opt(value: &Option<String>) -> (r: Option<String>)
    ensures
        opt(r) == opt(*value),
{
    match value {
        Some(content) => Some(content.clone()),
        None => None,
    }
}

/// Whether the text is there and is the given one.
pub fn is_text(value: &Option<String>, content: &str) -> (r: bool)
    ensures
        r == (opt(*value) == Some(content@)),
{
    match value {
        Some(value) => same_text(value.as_str(), content),
        None => false,
    }
}

/// Whether two texts are both there and equal, or both missing.
pub fn same_opt(a: &Option<String>, b: &Option<String>) -> (r: bool)
    ensures
        r == (opt(*a) == opt(*b)),
{
    match (a, b) {
        (Some(a), Some(b)) => same_text(a.as_str(), b.as_str()),
        (None, None) => true,
        _ => false,
    }
}

/// The view of an optional string.
pub open spec fn opt(value: Option<String>) -> Option<Seq<char>> {
    match value {
        Some(text) => Some(text@),
        None => None,
    }
}

pub open spec fn ascii_lower(s: Seq<char>) -> Seq<char> {
    s.map_values(|c: char| lower_char(c))
}

pub fn to_ascii_lower(s: &str) -> (r: String)
    ensures
        r@ == ascii_lower(s@),
{
    let mut r = String::new();
    for c in it: s.chars()
        invariant
            it.seq() == s@,
            r@ == ascii_lower(s@.take(it.index() as int)),
    {
        r.push(ascii_lower_char(c));
        assert(s@.take(it.index() as int + 1) =~= s@.take(it.index() as int).push(c));
        assert(ascii_lower(s@.take(it.index() as int + 1)) =~= ascii_lower(
            s@.take(it.index() as int),
        ).push(lower_char(c)));
    }
    assert(s@.take(s@.len() as int) =~= s@);
    r
}

/// Equality of texts up to the case of ASCII letters.
pub open spec fn same_ignoring_case(a: Seq<char>, b: Seq<char>) -> bool {
    ascii_lower(a) == ascii_lower(b)
}

pub fn eq_ignore_case(a: &str, b: &str) -> (r: bool)
    ensures
        r == same_ignoring_case(a@, b@),
{
    to_ascii_lower(a) == to_ascii_lower(b)
}

/// What `str::to_uppercase` makes of a text.
pub uninterp spec fn unicode_upper(s: Seq<char>) -> Seq<char>;

/// What `str::to_lowercase` makes of a text.
pub uninterp spec fn unicode_lower(s: Seq<char>) -> Seq<char>;

/// `a` to `z` become `A` to `Z`; every other character stays.
pub open spec fn upper_char(c: char) -> char {
    if 'a' <= c && c <= 'z' {
        ((c as u8) - 32) as char
    } else {
        c
    }
}

/// `str::to_uppercase`, the Unicode uppercase of a text. The result depends on the text alone,
/// and not on the case of its ASCII letters; no lowercase ASCII letter is left in it. Of a text
/// in ASCII it is known letter by letter.
#[verifier::external_body]
pub(crate) fn to_upper(s: &str) -> (r: String)
    ensures
        r@ == unicode_upper(s@),
        r@ == unicode_upper(ascii_lower(s@)),
        forall|i: int| 0 <= i < r@.len() ==> !('a' <= #[trigger] r@[i] <= 'z'),
        vstd::utf8::is_ascii_chars(s@) ==> r@ == s@.map_values(|c: char| upper_char(c)),
{
    s.to_uppercase()
}

/// `str::to_lowercase`, the Unicode lowercase of a text. The result depends on the text alone,
/// and not on the case of its ASCII letters. Of a text in ASCII it is known letter by letter.
#[verifier::external_body]
pub(crate) fn to_lower(s: &str) -> (r: String)
    ensures
        r@ == unicode_lower(s@),
        r@ == unicode_lower(ascii_lower(s@)),
        vstd::utf8::is_ascii_chars(s@) ==> r@ == ascii_lower(s@),
{
    s.to_lowercase()
}

// ---------------------------------------------------------------------------
// Searching, splitting, joining
// ---------------------------------------------------------------------------

/// Where `a` or `b` first stands in the text; its length where neither does.
pub open spec fn first_of(s: Seq<char>, a: char, b: char) -> int
    decreases s.len(),
{
    if s.len() == 0 || s[0] == a || s[0] == b {
        0
    } else {
        1 + first_of(s.drop_first(), a, b)
    }
}

/// Where `c` first stands in the text; its length where it does not.
pub open spec fn first_index(s: Seq<char>, c: char) -> int {
    first_of(s, c, c)
}

pub proof fn lemma_first_of(s: Seq<char>, a: char, b: char, i: int)
    requires
        0 <= i <= s.len(),
        forall|j: int| 0 <= j < i ==> s[j] != a && s[j] != b,
        i == s.len() || s[i] == a || s[i] == b,
    ensures
        first_of(s, a, b) == i,
    decreases i,
{
    if i > 0 {
        lemma_first_of(s.drop_first(), a, b, i - 1);
    }
}

pub proof fn lemma_first_of_bounds(s: Seq<char>, a: char, b: char)
    ensures
        0 <= first_of(s, a, b) <= s.len(),
        forall|j: int| 0 <= j < first_of(s, a, b) ==> s[j] != a && s[j] != b,
        first_of(s, a, b) < s.len() ==> s[first_of(s, a, b)] == a || s[first_of(s, a, b)] == b,
    decreases s.len(),
{
    if s.len() == 0 || s[0] == a || s[0] == b {
    } else {
        lemma_first_of_bounds(s.drop_first(), a, b);
        let rest = s.drop_first();
        assert forall|j: int| 0 <= j < first_of(s, a, b) implies s[j] != a && s[j] != b by {
            if j > 0 {
                assert(rest[j - 1] == s[j]);
            }
        }
    }
}

/// Whether the character stands in the text.
pub fn contains_char(s: &str, c: char) -> (r: bool)
    ensures
        r == s@.contains(c),
{
    let chars = chars_of(s);
    let i = position(&chars, c);
    proof {
        lemma_first_of_bounds(chars@, c, c);
        if chars@.contains(c) {
            let k = choose|k: int| 0 <= k < chars@.len() && chars@[k] == c;
            assert(chars@[k] == c);
        }
    }
    i < chars.len()
}

/// Where the character first stands among `chars`; their number where it does not.
pub fn position(chars: &Vec<char>, c: char) -> (i: usize)
    ensures
        i == first_index(chars@, c),
        i <= chars@.len(),
{
    let mut i: usize = 0;
    while i < chars.len() && chars[i] != c
        invariant
            i <= chars@.len(),
            forall|j: int| 0 <= j < i ==> chars@[j] != c,
        decreases chars@.len() - i,
    {
        i += 1;
    }
    proof {
        lemma_first_of(chars@, c, c, i as int);
    }
    i
}

/// What stands before and after the first `c`, where there is one.
pub open spec fn cut(s: Seq<char>, c: char) -> Option<(Seq<char>, Seq<char>)> {
    let i = first_index(s, c);
    if i < s.len() {
        Some((s.take(i), s.skip(i + 1)))
    } else {
        None
    }
}

pub fn split_once(s: &str, c: char) -> (r: Option<(String, String)>)
    ensures
        match r {
            Some(parts) => cut(s@, c) == Some((parts.0@, parts.1@)),
            None => cut(s@, c) is None,
        },
{
    let chars = chars_of(s);
    let i = position(&chars, c);
    if i < chars.len() {
        let before = string_between(&chars, 0, i);
        let after = string_between(&chars, i + 1, chars.len());
        assert(before@ =~= s@.take(i as int));
        assert(after@ =~= s@.skip(i + 1));
        Some((before, after))
    } else {
        None
    }
}

/// The pieces of the text between the characters `a` and `b`.
pub open spec fn split_at_any(s: Seq<char>, a: char, b: char) -> Seq<Seq<char>>
    decreases s.len(),
{
    let i = first_of(s, a, b);
    if 0 <= i < s.len() {
        seq![s.take(i)] + split_at_any(s.skip(i + 1), a, b)
    } else {
        seq![s]
    }
}

/// The pieces of the text between the characters `c`.
pub open spec fn split_at(s: Seq<char>, c: char) -> Seq<Seq<char>> {
    split_at_any(s, c, c)
}

pub fn split_any(s: &str, a: char, b: char) -> (parts: Vec<String>)
    ensures
        views(parts@) == split_at_any(s@, a, b),
{
    let chars = chars_of(s);
    let mut parts: Vec<String> = Vec::new();
    let mut start: usize = 0;
    let mut i: usize = 0;
    assert(chars@.skip(0) =~= chars@);
    assert(views(parts@) + split_at_any(s@, a, b) =~= split_at_any(s@, a, b));
    while i < chars.len()
        invariant
            start <= i <= chars@.len(),
            forall|j: int| start <= j < i ==> chars@[j] != a && chars@[j] != b,
            split_at_any(chars@, a, b) == views(parts@) + split_at_any(
                chars@.skip(start as int),
                a,
                b,
            ),
        decreases chars@.len() - i,
    {
        if chars[i] == a || chars[i] == b {
            let ghost rest = chars@.skip(start as int);
            let ghost before = views(parts@);
            let part = string_between(&chars, start, i);
            proof {
                assert forall|j: int| 0 <= j < i - start implies rest[j] != a && rest[j] != b by {
                    assert(rest[j] == chars@[start + j]);
                }
                lemma_first_of(rest, a, b, i - start);
                assert(rest.take(i - start) =~= part@);
                assert(rest.skip(i - start + 1) =~= chars@.skip(i + 1));
                lemma_views_push(parts@, part);
            }
            parts.push(part);
            assert(before + (seq![part@] + split_at_any(chars@.skip(i + 1), a, b)) =~= before.push(
                part@,
            ) + split_at_any(chars@.skip(i + 1), a, b));
            start = i + 1;
        }
        i += 1;
    }
    let last = string_between(&chars, start, chars.len());
    proof {
        let rest = chars@.skip(start as int);
        assert forall|j: int| 0 <= j < rest.len() implies rest[j] != a && rest[j] != b by {
            assert(rest[j] == chars@[start + j]);
        }
        lemma_first_of(rest, a, b, rest.len() as int);
        assert(last@ =~= rest);
        lemma_views_push(parts@, last);
        assert(views(parts@) + seq![last@] =~= views(parts@).push(last@));
    }
    parts.push(last);
    parts
}

/// The texts one after another, with `sep` between each two.
pub open spec fn join(parts: Seq<Seq<char>>, sep: Seq<char>) -> Seq<char>
    decreases parts.len(),
{
    if parts.len() == 0 {
        Seq::empty()
    } else if parts.len() == 1 {
        parts[0]
    } else {
        join(parts.drop_last(), sep) + sep + parts.last()
    }
}

pub fn joined(parts: &Vec<String>, sep: &str) -> (r: String)
    ensures
        r@ == join(views(parts@), sep@),
{
    let mut r = String::new();
    let mut i: usize = 0;
    let ghost all = views(parts@);
    while i < parts.len()
        invariant
            i <= parts@.len(),
            all == views(parts@),
            r@ == join(all.take(i as int), sep@),
        decreases parts@.len() - i,
    {
        if i > 0 {
            r.append(sep);
        }
        r.append(parts[i].as_str());
        proof {
            let next = all.take(i + 1);
            assert(next.drop_last() =~= all.take(i as int));
            assert(next.last() == parts@[i as int]@);
            if i == 0 {
                assert(r@ =~= next[0]);
            }
        }
        i += 1;
    }
    assert(all.take(all.len() as int) =~= all);
    r
}

/// The line without the carriage return at its end.
pub open spec fn without_return(line: Seq<char>) -> Seq<char> {
    if line.len() > 0 && line.last() == '\r' {
        line.drop_last()
    } else {
        line
    }
}

/// The lines of a text. A line ends with a line feed, or with a carriage return and a line feed;
/// the last one may end without.
pub open spec fn lines(s: Seq<char>) -> Seq<Seq<char>>
    decreases s.len(),
{
    let i = first_index(s, '\n');
    if s.len() == 0 {
        Seq::empty()
    } else if 0 <= i < s.len() {
        seq![without_return(s.take(i))] + lines(s.skip(i + 1))
    } else {
        seq![s]
    }
}

pub fn split_lines(s: &str) -> (parts: Vec<String>)
    ensures
        views(parts@) == lines(s@),
{
    let chars = chars_of(s);
    let mut parts: Vec<String> = Vec::new();
    let mut start: usize = 0;
    let mut i: usize = 0;
    assert(chars@.skip(0) =~= chars@);
    assert(views(parts@) + lines(s@) =~= lines(s@));
    while i < chars.len()
        invariant
            start <= i <= chars@.len(),
            forall|j: int| start <= j < i ==> chars@[j] != '\n',
            lines(chars@) == views(parts@) + lines(chars@.skip(start as int)),
        decreases chars@.len() - i,
    {
        if chars[i] == '\n' {
            let ghost rest = chars@.skip(start as int);
            let ghost before = views(parts@);
            let end: usize = if i > start && chars[i - 1] == '\r' {
                i - 1
            } else {
                i
            };
            let part = string_between(&chars, start, end);
            proof {
                assert forall|j: int| 0 <= j < i - start implies rest[j] != '\n' by {
                    assert(rest[j] == chars@[start + j]);
                }
                lemma_first_of(rest, '\n', '\n', i - start);
                assert(rest.take(i - start) =~= chars@.subrange(start as int, i as int));
                assert(without_return(rest.take(i - start)) =~= part@);
                assert(rest.skip(i - start + 1) =~= chars@.skip(i + 1));
                lemma_views_push(parts@, part);
            }
            parts.push(part);
            assert(before + (seq![part@] + lines(chars@.skip(i + 1))) =~= before.push(part@)
                + lines(chars@.skip(i + 1)));
            start = i + 1;
        }
        i += 1;
    }
    let ghost rest = chars@.skip(start as int);
    proof {
        assert forall|j: int| 0 <= j < rest.len() implies rest[j] != '\n' by {
            assert(rest[j] == chars@[start + j]);
        }
        lemma_first_of(rest, '\n', '\n', rest.len() as int);
    }
    if start < chars.len() {
        let last = string_between(&chars, start, chars.len());
        proof {
            assert(last@ =~= rest);
            lemma_views_push(parts@, last);
            assert(views(parts@) + seq![last@] =~= views(parts@).push(last@));
        }
        parts.push(last);
    } else {
        assert(views(parts@) + Seq::<Seq<char>>::empty() =~= views(parts@));
    }
    parts
}

/// Joining from the front.
pub proof fn lemma_join_first(parts: Seq<Seq<char>>, sep: Seq<char>)
    requires
        parts.len() >= 2,
    ensures
        join(parts, sep) == parts[0] + sep + join(parts.drop_first(), sep),
    decreases parts.len(),
{
    let rest = parts.drop_first();
    if parts.len() == 2 {
        assert(parts.drop_last()[0] == parts[0]);
        assert(join(parts.drop_last(), sep) == parts[0]);
        assert(rest[0] == parts.last());
    } else {
        let init = parts.drop_last();
        lemma_join_first(init, sep);
        assert(init.drop_first() =~= rest.drop_last());
        assert(rest.last() == parts.last());
        assert(parts[0] + sep + join(init.drop_first(), sep) + sep + parts.last() =~= parts[0] + sep
            + (join(rest.drop_last(), sep) + sep + parts.last()));
    }
}

/// No separator is left in the pieces.
pub proof fn lemma_split_is_clean(s: Seq<char>, a: char, b: char)
    ensures
        forall|i: int|
            0 <= i < split_at_any(s, a, b).len() ==> !(#[trigger] split_at_any(s, a, b)[i]).contains(
                a,
            ) && !split_at_any(s, a, b)[i].contains(b),
    decreases s.len(),
{
    let n = first_of(s, a, b);
    lemma_first_of_bounds(s, a, b);
    let parts = split_at_any(s, a, b);
    if n < s.len() {
        let rest = split_at_any(s.skip(n + 1), a, b);
        lemma_split_is_clean(s.skip(n + 1), a, b);
        assert forall|i: int| 0 <= i < parts.len() implies !(#[trigger] parts[i]).contains(a)
            && !parts[i].contains(b) by {
            if i > 0 {
                assert(parts[i] == rest[i - 1]);
            }
        }
    }
}

/// Splitting what was joined gives the parts back, where none of them holds a separator.
pub proof fn lemma_split_join(parts: Seq<Seq<char>>, c: char, a: char, b: char)
    requires
        c == a || c == b,
        parts.len() > 0,
        forall|i: int|
            0 <= i < parts.len() ==> !(#[trigger] parts[i]).contains(a) && !parts[i].contains(b),
    ensures
        split_at_any(join(parts, seq![c]), a, b) == parts,
    decreases parts.len(),
{
    let whole = join(parts, seq![c]);
    if parts.len() == 1 {
        assert forall|j: int| 0 <= j < whole.len() implies whole[j] != a && whole[j] != b by {
            assert(parts[0].contains(whole[j]));
        }
        lemma_first_of(whole, a, b, whole.len() as int);
        assert(split_at_any(whole, a, b) =~= parts);
    } else {
        let rest = parts.drop_first();
        lemma_join_first(parts, seq![c]);
        let n = parts[0].len() as int;
        assert forall|j: int| 0 <= j < n implies whole[j] != a && whole[j] != b by {
            assert(parts[0].contains(parts[0][j]));
        }
        assert(whole[n] == c);
        lemma_first_of(whole, a, b, n);
        assert(whole.take(n) =~= parts[0]);
        assert(whole.skip(n + 1) =~= join(rest, seq![c]));
        assert forall|i: int| 0 <= i < rest.len() implies !(#[trigger] rest[i]).contains(a)
            && !rest[i].contains(b) by {
            assert(rest[i] == parts[i + 1]);
        }
        lemma_split_join(rest, c, a, b);
        assert(seq![parts[0]] + rest =~= parts);
    }
}

/// Whether `part` stands in the text at `at`.
pub open spec fn stands_at<T>(s: Seq<T>, part: Seq<T>, at: int) -> bool {
    0 <= at && at + part.len() <= s.len() && s.subrange(at, at + part.len()) == part
}

/// Whether `part` stands somewhere in the text.
pub open spec fn has_part<T>(s: Seq<T>, part: Seq<T>) -> bool {
    exists|at: int| stands_at(s, part, at)
}

fn chars_stand_at(s: &Vec<char>, part: &Vec<char>, at: usize) -> (r: bool)
    requires
        at <= s@.len(),
    ensures
        r == stands_at(s@, part@, at as int),
{
    let length: usize = s.len();
    if part.len() > length - at {
        return false;
    }
    let mut i: usize = 0;
    while i < part.len()
        invariant
            length == s@.len(),
            at + part@.len() <= s@.len(),
            i <= part@.len(),
            forall|j: int| 0 <= j < i ==> s@[at + j] == part@[j],
        decreases part@.len() - i,
    {
        if s[at + i] != part[i] {
            assert(s@.subrange(at as int, at + part@.len())[i as int] != part@[i as int]);
            return false;
        }
        i += 1;
    }
    assert(s@.subrange(at as int, at + part@.len()) =~= part@);
    true
}

pub fn contains_part(s: &str, part: &str) -> (r: bool)
    ensures
        r == has_part(s@, part@),
{
    let chars = chars_of(s);
    let wanted = chars_of(part);
    let mut at: usize = 0;
    loop
        invariant
            chars@ == s@,
            wanted@ == part@,
            at <= chars@.len(),
            forall|k: int| 0 <= k < at ==> !stands_at(s@, part@, k),
        decreases chars@.len() - at,
    {
        if chars_stand_at(&chars, &wanted, at) {
            return true;
        }
        if at == chars.len() {
            assert forall|k: int| !stands_at(s@, part@, k) by {}
            return false;
        }
        at += 1;
    }
}

pub open spec fn begins_with(s: Seq<char>, part: Seq<char>) -> bool {
    stands_at(s, part, 0)
}

pub fn starts_with(s: &str, part: &str) -> (r: bool)
    ensures
        r == begins_with(s@, part@),
{
    chars_stand_at(&chars_of(s), &chars_of(part), 0)
}

pub open spec fn finishes_with(s: Seq<char>, part: Seq<char>) -> bool {
    stands_at(s, part, s.len() - part.len())
}

pub fn ends_with(s: &str, part: &str) -> (r: bool)
    ensures
        r == finishes_with(s@, part@),
{
    let chars = chars_of(s);
    let wanted = chars_of(part);
    if wanted.len() > chars.len() {
        return false;
    }
    chars_stand_at(&chars, &wanted, chars.len() - wanted.len())
}

/// What follows the leading character `c`, where the text begins with it.
pub open spec fn after_char(s: Seq<char>, c: char) -> Option<Seq<char>> {
    if s.len() > 0 && s[0] == c {
        Some(s.skip(1))
    } else {
        None
    }
}

pub fn strip_char(s: &str, c: char) -> (r: Option<String>)
    ensures
        opt(r) == after_char(s@, c),
{
    let chars = chars_of(s);
    if chars.len() > 0 && chars[0] == c {
        let rest = string_between(&chars, 1, chars.len());
        assert(rest@ =~= s@.skip(1));
        Some(rest)
    } else {
        None
    }
}

/// The text with every `c` replaced by `with`.
pub open spec fn replace_char(s: Seq<char>, c: char, with: Seq<char>) -> Seq<char>
    decreases s.len(),
{
    if s.len() == 0 {
        Seq::empty()
    } else {
        replace_char(s.drop_last(), c, with) + (if s.last() == c {
            with
        } else {
            seq![s.last()]
        })
    }
}

pub fn replaced_char(s: &str, c: char, with: &str) -> (r: String)
    ensures
        r@ == replace_char(s@, c, with@),
{
    let mut r = String::new();
    for d in it: s.chars()
        invariant
            it.seq() == s@,
            r@ == replace_char(s@.take(it.index() as int), c, with@),
    {
        let ghost before = r@;
        if d == c {
            r.append(with);
        } else {
            r.push(d);
        }
        proof {
            let next = s@.take(it.index() as int + 1);
            assert(next.drop_last() =~= s@.take(it.index() as int));
            assert(next.last() == d);
            assert(d != c ==> r@ =~= before + seq![d]);
        }
    }
    assert(s@.take(s@.len() as int) =~= s@);
    r
}

// ---------------------------------------------------------------------------
// Order
// ---------------------------------------------------------------------------

/// The order of strings: by the first character in which they differ, the shorter one first
/// where there is none.
pub open spec fn comes_before(a: Seq<char>, b: Seq<char>) -> bool
    decreases a.len(),
{
    if b.len() == 0 {
        false
    } else if a.len() == 0 {
        true
    } else if a[0] == b[0] {
        comes_before(a.drop_first(), b.drop_first())
    } else {
        a[0] < b[0]
    }
}

pub fn less(a: &str, b: &str) -> (r: bool)
    ensures
        r == comes_before(a@, b@),
{
    let left = chars_of(a);
    let right = chars_of(b);
    let mut i: usize = 0;
    assert(left@.skip(0) =~= left@ && right@.skip(0) =~= right@);
    while i < left.len() && i < right.len() && left[i] == right[i]
        invariant
            i <= left@.len(),
            i <= right@.len(),
            comes_before(left@, right@) == comes_before(
                left@.skip(i as int),
                right@.skip(i as int),
            ),
        decreases left@.len() - i,
    {
        assert(left@.skip(i as int).drop_first() =~= left@.skip(i + 1));
        assert(right@.skip(i as int).drop_first() =~= right@.skip(i + 1));
        i += 1;
    }
    if i == right.len() {
        false
    } else if i == left.len() {
        true
    } else {
        left[i] < right[i]
    }
}

// ---------------------------------------------------------------------------
// Numbers
// ---------------------------------------------------------------------------

/// The decimal digit of a number below ten.
pub open spec fn digit(n: nat) -> char {
    ((48 + n) as u8) as char
}

/// A number in decimal notation.
pub open spec fn decimal(n: nat) -> Seq<char>
    decreases n,
{
    if n < 10 {
        seq![digit(n)]
    } else {
        decimal(n / 10).push(digit(n % 10))
    }
}

pub fn decimal_text(n: u64) -> (s: String)
    ensures
        s@ == decimal(n as nat),
    decreases n,
{
    let last: u8 = 48 + (n % 10) as u8;
    if n < 10 {
        let mut s = String::new();
        s.push(last as char);
        assert(s@ =~= seq![digit(n as nat)]);
        s
    } else {
        let mut s = decimal_text(n / 10);
        s.push(last as char);
        s
    }
}

/// The number that some decimal digits stand for.
pub open spec fn digits_value(s: Seq<char>) -> Option<nat>
    decreases s.len(),
{
    if s.len() == 0 {
        Some(0)
    } else {
        match digits_value(s.drop_last()) {
            Some(before) => if '0' <= s.last() <= '9' {
                Some((before * 10 + (s.last() as nat - '0' as nat)) as nat)
            } else {
                None
            },
            None => None,
        }
    }
}

/// The number that a text stands for: digits, with a plus sign in front of them or without, and
/// not too many for the machine.
pub open spec fn index_value(s: Seq<char>) -> Option<nat> {
    let digits = if s.len() > 0 && s[0] == '+' {
        s.drop_first()
    } else {
        s
    };
    if digits.len() == 0 {
        None
    } else {
        match digits_value(digits) {
            Some(n) => if n <= usize::MAX {
                Some(n)
            } else {
                None
            },
            None => None,
        }
    }
}

proof fn lemma_digits_grow(s: Seq<char>, k: int)
    requires
        0 <= k <= s.len(),
    ensures
        digits_value(s) matches Some(n) ==> (digits_value(s.take(k)) matches Some(m) && m <= n),
    decreases s.len(),
{
    if k == s.len() {
        assert(s.take(k) =~= s);
    } else {
        lemma_digits_grow(s.drop_last(), k);
        assert(s.drop_last().take(k) =~= s.take(k));
    }
}

/// The number that a text stands for.
pub fn parse_index(s: &str) -> (r: Option<usize>)
    ensures
        match r {
            Some(n) => index_value(s@) == Some(n as nat),
            None => index_value(s@) is None,
        },
{
    let chars = chars_of(s);
    let start: usize = if chars.len() > 0 && chars[0] == '+' {
        1
    } else {
        0
    };
    let ghost digits = chars@.skip(start as int);
    assert(start == 0 ==> digits =~= s@);
    assert(start == 1 ==> digits =~= s@.drop_first());
    if start == chars.len() {
        return None;
    }
    let mut value: usize = 0;
    let mut i: usize = start;
    assert(digits.take(0) =~= Seq::empty());
    while i < chars.len()
        invariant
            start <= i <= chars@.len(),
            digits == chars@.skip(start as int),
            digits.len() > 0,
            index_value(s@) == (match digits_value(digits) {
                Some(n) => if n <= usize::MAX {
                    Some(n)
                } else {
                    None
                },
                None => None,
            }),
            digits_value(digits.take(i - start)) == Some(value as nat),
        decreases chars@.len() - i,
    {
        let c = chars[i];
        proof {
            let part = digits.take(i + 1 - start);
            assert(part.drop_last() =~= digits.take(i - start));
            assert(part.last() == c);
            lemma_digits_grow(digits, i + 1 - start);
        }
        if c < '0' || c > '9' {
            return None;
        }
        let digit: usize = (c as u32 - '0' as u32) as usize;
        if value > (usize::MAX - digit) / 10 {
            return None;
        }
        value = value * 10 + digit;
        i += 1;
    }
    assert(digits.take(i - start) =~= digits);
    Some(value)
}

/// A number that was written in decimal notation is read back; it holds nothing but digits.
pub proof fn lemma_decimal_is_read(n: nat)
    requires
        n <= usize::MAX,
    ensures
        index_value(decimal(n)) == Some(n),
        decimal(n).len() > 0,
        forall|i: int|
            0 <= i < decimal(n).len() ==> '0' <= #[trigger] decimal(n)[i] && decimal(n)[i] <= '9',
{
    lemma_decimal_digits(n);
}

proof fn lemma_decimal_digits(n: nat)
    ensures
        digits_value(decimal(n)) == Some(n),
        decimal(n).len() > 0,
        forall|i: int|
            0 <= i < decimal(n).len() ==> '0' <= #[trigger] decimal(n)[i] && decimal(n)[i] <= '9',
    decreases n,
{
    if n < 10 {
        assert(decimal(n).drop_last() =~= Seq::empty());
        reveal_with_fuel(digits_value, 2);
    } else {
        lemma_decimal_digits(n / 10);
        assert(decimal(n).drop_last() =~= decimal(n / 10));
    }
}

/// A text that holds something but digits, and does not begin with a plus sign, is no number.
pub proof fn lemma_no_number(s: Seq<char>, i: int)
    requires
        0 <= i < s.len(),
        s[0] != '+',
        !('0' <= s[i] && s[i] <= '9'),
    ensures
        index_value(s) is None,
{
    lemma_digits_grow(s, i + 1);
    assert(s.take(i + 1).last() == s[i]);
}

// ---------------------------------------------------------------------------
// Laws
// ---------------------------------------------------------------------------

/// The pieces of two texts with a separator between them are those of the one and of the other.
pub proof fn lemma_split_in_turn(s: Seq<char>, t: Seq<char>, c: char, a: char, b: char)
    requires
        c == a || c == b,
    ensures
        split_at_any(s + seq![c] + t, a, b) == split_at_any(s, a, b) + split_at_any(t, a, b),
    decreases s.len(),
{
    let whole = s + seq![c] + t;
    let i = first_of(s, a, b);
    lemma_first_of_bounds(s, a, b);
    assert forall|j: int| 0 <= j < i implies whole[j] != a && whole[j] != b by {
        assert(whole[j] == s[j]);
    }
    lemma_first_of(whole, a, b, i);
    assert(whole.take(i) =~= s.take(i));
    if i < s.len() {
        lemma_split_in_turn(s.skip(i + 1), t, c, a, b);
        assert(whole.skip(i + 1) =~= s.skip(i + 1) + seq![c] + t);
    } else {
        assert(whole.skip(i + 1) =~= t);
        assert(s.take(i) =~= s);
    }
    assert(split_at_any(whole, a, b) =~= split_at_any(s, a, b) + split_at_any(t, a, b));
}

pub proof fn lemma_filter_map_in_turn<A, B>(a: Seq<A>, b: Seq<A>, f: spec_fn(A) -> Option<B>)
    ensures
        (a + b).filter_map(f) == a.filter_map(f) + b.filter_map(f),
    decreases b.len(),
{
    if b.len() == 0 {
        assert(a + b =~= a);
        assert(a.filter_map(f) + b.filter_map(f) =~= a.filter_map(f));
    } else {
        lemma_filter_map_in_turn(a, b.drop_last(), f);
        assert((a + b).drop_last() =~= a + b.drop_last());
        assert((a + b).filter_map(f) =~= a.filter_map(f) + b.filter_map(f));
    }
}

/// A text whose items are all mapped keeps their number and order.
pub proof fn lemma_filter_map_of_all<A, B>(s: Seq<A>, f: spec_fn(A) -> Option<B>)
    requires
        forall|i: int| 0 <= i < s.len() ==> f(#[trigger] s[i]) is Some,
    ensures
        s.filter_map(f).len() == s.len(),
        forall|i: int| 0 <= i < s.len() ==> Some(#[trigger] s.filter_map(f)[i]) == f(s[i]),
    decreases s.len(),
{
    if s.len() > 0 {
        let rest = s.drop_last();
        assert forall|i: int| 0 <= i < rest.len() implies f(#[trigger] rest[i]) is Some by {
            assert(rest[i] == s[i]);
        }
        lemma_filter_map_of_all(rest, f);
        assert(f(s[s.len() - 1]) is Some);
        assert forall|i: int| 0 <= i < s.len() implies Some(#[trigger] s.filter_map(f)[i])
            == f(s[i]) by {
            if i < rest.len() {
                assert(rest[i] == s[i]);
                assert(s.filter_map(f)[i] == rest.filter_map(f)[i]);
            }
        }
    }
}

/// Trimming takes white space off both ends, all of it and nothing else.
pub proof fn law_trimming_takes_space_off(before: Seq<char>, s: Seq<char>, after: Seq<char>)
    requires
        forall|i: int| 0 <= i < before.len() ==> is_whitespace(#[trigger] before[i]),
        forall|i: int| 0 <= i < after.len() ==> is_whitespace(#[trigger] after[i]),
        s.len() > 0 ==> !is_whitespace(s[0]) && !is_whitespace(s.last()),
    ensures
        trim(before + s + after) == s,
    decreases before.len() + after.len(),
{
    let whole = before + s + after;
    if before.len() > 0 {
        let less = before.drop_first();
        assert(is_whitespace(before[0]));
        assert forall|i: int| 0 <= i < less.len() implies is_whitespace(#[trigger] less[i]) by {
            assert(less[i] == before[i + 1]);
        }
        law_trimming_takes_space_off(less, s, after);
        assert(whole.drop_first() =~= less + s + after);
    } else if s.len() == 0 {
        assert(s =~= Seq::empty());
        assert(whole =~= after);
        if after.len() > 0 {
            assert(is_whitespace(after[0]));
            let less = after.drop_first();
            assert forall|i: int| 0 <= i < less.len() implies is_whitespace(
                #[trigger] less[i],
            ) by {
                assert(less[i] == after[i + 1]);
            }
            law_trimming_takes_space_off(before, s, less);
            assert(whole.drop_first() =~= before + s + less);
        }
    } else {
        assert(whole[0] == s[0]);
        assert(trim_start(whole) == whole);
        if after.len() > 0 {
            let less = after.drop_last();
            assert forall|i: int| 0 <= i < less.len() implies is_whitespace(
                #[trigger] less[i],
            ) by {
                assert(less[i] == after[i]);
            }
            law_trimming_takes_space_off(before, s, less);
            assert(whole.drop_last() =~= before + s + less);
            assert(is_whitespace(after[after.len() - 1]));
            assert((before + s + less)[0] == s[0]);
        } else {
            assert(whole =~= s);
        }
    }
}

/// What counts as white space: spaces, tabs and line breaks do, and no other ASCII character
/// that can be printed does.
pub proof fn law_white_space(c: char)
    ensures
        is_whitespace(' ') && is_whitespace('\t') && is_whitespace('\n') && is_whitespace('\r'),
        '!' <= c <= '~' ==> !is_whitespace(c),
{
}

/// ASCII letters count without regard to case, and nothing else does.
pub proof fn law_case_of_letters(a: char, b: char)
    ensures
        lower_char(a) == lower_char(b) <==> a == b || ('A' <= a <= 'Z' && b as u32 == a as u32
            + 32) || ('A' <= b <= 'Z' && a as u32 == b as u32 + 32),
        'a' <= a <= 'z' ==> lower_char(a) == a,
        'A' <= a <= 'Z' ==> 'a' <= lower_char(a) <= 'z',
{
}

} // verus!
