//! How responses and requests are shown.
use crate::json;
use crate::json::{json_value_to_string, Json, JsonTree};
use crate::text;
use crate::text::{
    blank, chars_of, concat2, concat3, concat4, decimal_text, joined, same_text, split_lines,
    string_between,
};
use vstd::prelude::*;
use vstd::utf8::*;

verus! {

// ---------------------------------------------------------------------------
// Chunks of a response body
// ---------------------------------------------------------------------------

/// The most bytes that a chunk has.
pub const MAX_CHUNK: usize = 400;

/// How many bytes a text takes.
pub open spec fn byte_len(s: Seq<char>) -> nat {
    encode_utf8(s).len()
}

/// How many bytes a character takes.
pub open spec fn width(c: char) -> nat {
    if c as u32 <= 0x7f {
        1
    } else if c as u32 <= 0x7ff {
        2
    } else if c as u32 <= 0xffff {
        3
    } else {
        4
    }
}

fn char_width(c: char) -> (r: usize)
    ensures
        r == width(c),
        1 <= r <= 4,
{
    let code: u32 = c as u32;
    if code <= 0x7f {
        1
    } else if code <= 0x7ff {
        2
    } else if code <= 0xffff {
        3
    } else {
        4
    }
}

proof fn lemma_byte_len_first(s: Seq<char>)
    requires
        s.len() > 0,
    ensures
        byte_len(s) == width(s[0]) + byte_len(s.drop_first()),
{
    char_is_scalar(s[0]);
}

/// The bytes of a text are those of its two parts.
pub proof fn lemma_byte_len_parts(s: Seq<char>, k: int)
    requires
        0 <= k <= s.len(),
    ensures
        byte_len(s) == byte_len(s.take(k)) + byte_len(s.skip(k)),
    decreases k,
{
    if k == 0 {
        assert(s.skip(0) =~= s);
        assert(s.take(0) =~= Seq::empty());
    } else {
        lemma_byte_len_first(s);
        lemma_byte_len_parts(s.drop_first(), k - 1);
        assert(s.drop_first().take(k - 1) =~= s.take(k).drop_first());
        assert(s.drop_first().skip(k - 1) =~= s.skip(k));
        lemma_byte_len_first(s.take(k));
    }
}

/// A character after which a long line may be broken.
pub open spec fn is_break(c: char) -> bool {
    c == ' ' || c == '\t' || c == ',' || c == ':' || c == '{' || c == '}' || c == '[' || c == ']'
        || c == '&' || c == '='
}

fn breaks(c: char) -> (r: bool)
    ensures
        r == is_break(c),
{
    c == ' ' || c == '\t' || c == ',' || c == ':' || c == '{' || c == '}' || c == '[' || c == ']'
        || c == '&' || c == '='
}

/// How many characters of a text fit into so many bytes.
pub open spec fn fitting(s: Seq<char>, room: int) -> int
    decreases s.len(),
{
    if s.len() == 0 || width(s[0]) > room {
        0
    } else {
        1 + fitting(s.drop_first(), room - width(s[0]))
    }
}

/// Behind which of the first `k` characters the text may last be broken; 0 where behind none.
pub open spec fn last_break(s: Seq<char>, k: int) -> int
    decreases k,
{
    if k <= 0 {
        0
    } else if is_break(s[k - 1]) {
        k
    } else {
        last_break(s, k - 1)
    }
}

/// How many characters come before the split of a text into at most so many bytes and the rest:
/// as many as fit, up to the last at which it may be broken where there is one.
pub open spec fn split_point(s: Seq<char>, target: nat) -> int {
    let fit = fitting(s, target as int);
    if last_break(s, fit) > 0 {
        last_break(s, fit)
    } else {
        fit
    }
}

proof fn lemma_fitting(s: Seq<char>, room: int)
    requires
        room >= 0,
    ensures
        0 <= fitting(s, room) <= s.len(),
        byte_len(s.take(fitting(s, room))) <= room,
        room >= 4 && s.len() > 0 ==> fitting(s, room) >= 1,
        byte_len(s) > room ==> fitting(s, room) < s.len(),
    decreases s.len(),
{
    if s.len() == 0 || width(s[0]) > room {
        assert(s.take(0) =~= Seq::empty());
    } else {
        let rest = s.drop_first();
        let n = fitting(rest, room - width(s[0]));
        lemma_fitting(rest, room - width(s[0]));
        lemma_byte_len_first(s);
        lemma_byte_len_first(s.take(1 + n));
        assert(s.take(1 + n).drop_first() =~= rest.take(n));
    }
}

proof fn lemma_last_break(s: Seq<char>, k: int)
    requires
        0 <= k,
    ensures
        0 <= last_break(s, k) <= k,
    decreases k,
{
    if k > 0 && !is_break(s[k - 1]) {
        lemma_last_break(s, k - 1);
    }
}

proof fn lemma_split_point(s: Seq<char>, target: nat)
    ensures
        0 <= split_point(s, target) <= s.len(),
        byte_len(s.take(split_point(s, target))) <= target,
        target >= 4 && s.len() > 0 ==> split_point(s, target) >= 1,
{
    let fit = fitting(s, target as int);
    lemma_fitting(s, target as int);
    lemma_last_break(s, fit);
    let k = split_point(s, target);
    lemma_byte_len_parts(s.take(fit), k);
    assert(s.take(fit).take(k) =~= s.take(k));
}

proof fn lemma_fitting_is_most(s: Seq<char>, room: int, k: int)
    requires
        0 <= k <= s.len(),
        byte_len(s.take(k)) <= room,
    ensures
        k <= fitting(s, room),
    decreases s.len(),
{
    if k > 0 {
        lemma_byte_len_first(s.take(k));
        assert(s.take(k).drop_first() =~= s.drop_first().take(k - 1));
        lemma_fitting_is_most(s.drop_first(), room - width(s[0]), k - 1);
    } else {
        lemma_fitting(s, room);
    }
}

proof fn lemma_last_break_is_last(s: Seq<char>, k: int, j: int)
    requires
        0 < j <= k,
        is_break(s[j - 1]),
    ensures
        j <= last_break(s, k),
    decreases k,
{
    if !is_break(s[k - 1]) {
        lemma_last_break_is_last(s, k - 1, j);
    }
}

proof fn lemma_last_break_is_one(s: Seq<char>, k: int)
    ensures
        last_break(s, k) > 0 ==> is_break(s[last_break(s, k) - 1]),
    decreases k,
{
    if k > 0 && !is_break(s[k - 1]) {
        lemma_last_break_is_one(s, k - 1);
    }
}

/// A split lies at or before the target, and no better one does: it is the last break that fits,
/// or else as far as fits.
pub proof fn law_split_is_the_last_that_fits(s: Seq<char>, target: nat, k: int)
    requires
        0 < k <= s.len(),
        byte_len(s.take(k)) <= target,
    ensures
        byte_len(s.take(split_point(s, target))) <= target,
        0 < split_point(s, target) <= s.len(),
        is_break(s[k - 1]) ==> k <= split_point(s, target) && is_break(
            s[split_point(s, target) - 1],
        ),
        !is_break(s[split_point(s, target) - 1]) ==> k <= split_point(s, target),
{
    let fit = fitting(s, target as int);
    lemma_split_point(s, target);
    lemma_fitting_is_most(s, target as int, k);
    lemma_last_break_is_one(s, fit);
    if is_break(s[k - 1]) {
        lemma_last_break_is_last(s, fit, k);
    }
}

/// Where the text that begins at `from` is split: at most so many bytes behind, at the last
/// place where it may be broken or else as far as whole characters fit.
pub fn find_chunk_split(chars: &Vec<char>, from: usize, target: usize) -> (split: usize)
    requires
        from <= chars@.len(),
    ensures
        split == from + split_point(chars@.skip(from as int), target as nat),
        from <= split <= chars@.len(),
        byte_len(chars@.subrange(from as int, split as int)) <= target,
{
    let ghost s = chars@.skip(from as int);
    let mut end: usize = from;
    let mut room: usize = target;
    assert(s.skip(0) =~= s);
    while end < chars.len() && char_width(chars[end]) <= room
        invariant
            from <= end <= chars@.len(),
            s == chars@.skip(from as int),
            fitting(s, target as int) == (end - from) + fitting(s.skip(end - from), room as int),
        decreases chars@.len() - end,
    {
        proof {
            let rest = s.skip(end - from);
            assert(rest[0] == chars@[end as int]);
            assert(rest.drop_first() =~= s.skip(end + 1 - from));
        }
        room -= char_width(chars[end]);
        end += 1;
    }
    proof {
        let rest = s.skip(end - from);
        if end < chars@.len() {
            assert(rest[0] == chars@[end as int]);
        }
        assert(fitting(s, target as int) == end - from);
        lemma_split_point(s, target as nat);
        let k = split_point(s, target as nat);
        assert(chars@.subrange(from as int, from + k) =~= s.take(k));
    }
    let mut split: usize = end;
    while split > from && !breaks(chars[split - 1])
        invariant
            from <= split <= end <= chars@.len(),
            s == chars@.skip(from as int),
            last_break(s, end - from) == last_break(s, split - from),
        decreases split,
    {
        assert(s[split - from - 1] == chars@[split - 1]);
        split -= 1;
    }
    if split > from {
        assert(s[split - from - 1] == chars@[split - 1]);
        split
    } else {
        end
    }
}

/// Whether the text that begins at `from` takes more than so many bytes.
fn exceeds(chars: &Vec<char>, from: usize, limit: usize) -> (r: bool)
    requires
        from <= chars@.len(),
    ensures
        r == (byte_len(chars@.skip(from as int)) > limit),
{
    let ghost s = chars@.skip(from as int);
    let mut i: usize = from;
    let mut room: usize = limit;
    assert(s.skip(0) =~= s);
    while i < chars.len()
        invariant
            from <= i <= chars@.len(),
            s == chars@.skip(from as int),
            byte_len(s) + room == limit + byte_len(s.skip(i - from)),
        decreases chars@.len() - i,
    {
        let size = char_width(chars[i]);
        proof {
            let rest = s.skip(i - from);
            assert(rest[0] == chars@[i as int]);
            lemma_byte_len_first(rest);
            assert(rest.drop_first() =~= s.skip(i + 1 - from));
        }
        if size > room {
            return true;
        }
        room -= size;
        i += 1;
    }
    assert(s.skip(i - from) =~= Seq::empty());
    false
}

/// The chunks of the rest of a long line.
pub open spec fn rest_chunks(s: Seq<char>) -> Seq<Seq<char>>
    decreases s.len(),
{
    if s.len() == 0 {
        Seq::empty()
    } else if byte_len(s) <= MAX_CHUNK {
        seq![s]
    } else {
        let k = split_point(s, MAX_CHUNK as nat);
        if 1 <= k <= s.len() {
            seq![s.take(k)] + rest_chunks(s.skip(k))
        } else {
            Seq::empty()
        }
    }
}

/// The chunks of a line. A line that is short enough is one chunk.
pub open spec fn line_chunks(line: Seq<char>) -> Seq<Seq<char>> {
    if byte_len(line) <= MAX_CHUNK {
        seq![line]
    } else {
        rest_chunks(line)
    }
}

/// The chunks of some lines.
pub open spec fn lines_chunks(lines: Seq<Seq<char>>) -> Seq<Seq<char>>
    decreases lines.len(),
{
    if lines.len() == 0 {
        Seq::empty()
    } else {
        lines_chunks(lines.drop_last()) + line_chunks(lines.last())
    }
}

/// The chunks in which a body is shown.
pub open spec fn body_chunks(body: Seq<char>) -> Seq<Seq<char>> {
    lines_chunks(text::lines(body))
}

fn push_line_chunks(chunks: &mut Vec<String>, line: String)
    ensures
        text::views(final(chunks)@) == text::views(old(chunks)@) + line_chunks(line@),
{
    let chars = chars_of(line.as_str());
    assert(chars@.skip(0) =~= chars@);
    if !exceeds(&chars, 0, MAX_CHUNK) {
        proof {
            text::lemma_views_push(chunks@, line);
        }
        chunks.push(line);
        assert(text::views(chunks@) =~= text::views(old(chunks)@) + line_chunks(line@));
        return;
    }
    let ghost before = text::views(chunks@);
    let mut start: usize = 0;
    assert(before + rest_chunks(chars@) =~= text::views(chunks@) + rest_chunks(chars@.skip(0)));
    while exceeds(&chars, start, MAX_CHUNK)
        invariant
            start <= chars@.len(),
            before + rest_chunks(chars@) == text::views(chunks@) + rest_chunks(
                chars@.skip(start as int),
            ),
        decreases chars@.len() - start,
    {
        let ghost rest = chars@.skip(start as int);
        assert(rest.len() > 0) by {
            if rest.len() == 0 {
                assert(rest =~= Seq::empty());
            }
        }
        let split = find_chunk_split(&chars, start, MAX_CHUNK);
        proof {
            lemma_split_point(rest, MAX_CHUNK as nat);
        }
        let part = string_between(&chars, start, split);
        proof {
            assert(part@ =~= rest.take(split - start));
            assert(rest.skip(split - start) =~= chars@.skip(split as int));
            text::lemma_views_push(chunks@, part);
            assert(text::views(chunks@) + (seq![part@] + rest_chunks(chars@.skip(split as int)))
                =~= text::views(chunks@).push(part@) + rest_chunks(chars@.skip(split as int)));
        }
        chunks.push(part);
        start = split;
    }
    if start < chars.len() {
        let part = string_between(&chars, start, chars.len());
        proof {
            assert(part@ =~= chars@.skip(start as int));
            text::lemma_views_push(chunks@, part);
            assert(text::views(chunks@) + seq![part@] =~= text::views(chunks@).push(part@));
        }
        chunks.push(part);
    } else {
        assert(text::views(chunks@) + Seq::<Seq<char>>::empty() =~= text::views(chunks@));
    }
}

/// Splits a body into the chunks in which it is shown.
pub fn chunk_response_body(body: &str) -> (chunks: Vec<String>)
    ensures
        text::views(chunks@) == body_chunks(body@),
{
    let lines = split_lines(body);
    let ghost given = lines@;
    let ghost all = text::views(given);
    let mut chunks: Vec<String> = Vec::new();
    assert(text::views(chunks@) =~= lines_chunks(all.take(0)));
    for line in it: lines
        invariant
            it.seq() == given,
            all == text::views(given),
            text::views(chunks@) == lines_chunks(all.take(it.index() as int)),
    {
        proof {
            let n = it.index() as int;
            assert(line == given[n]);
            assert(all.take(n + 1).drop_last() =~= all.take(n));
            assert(all.take(n + 1).last() == line@);
        }
        push_line_chunks(&mut chunks, line);
    }
    assert(all.take(all.len() as int) =~= all);
    chunks
}

proof fn lemma_rest_chunks_are_short(s: Seq<char>)
    ensures
        forall|i: int|
            0 <= i < rest_chunks(s).len() ==> byte_len(#[trigger] rest_chunks(s)[i]) <= MAX_CHUNK,
    decreases s.len(),
{
    if s.len() > 0 && byte_len(s) > MAX_CHUNK {
        let k = split_point(s, MAX_CHUNK as nat);
        lemma_split_point(s, MAX_CHUNK as nat);
        let rest = rest_chunks(s.skip(k));
        lemma_rest_chunks_are_short(s.skip(k));
        assert forall|i: int| 0 <= i < rest_chunks(s).len() implies byte_len(
            #[trigger] rest_chunks(s)[i],
        ) <= MAX_CHUNK by {
            if i > 0 {
                assert(rest_chunks(s)[i] == rest[i - 1]);
            }
        }
    }
}

proof fn lemma_lines_chunks_are_short(lines: Seq<Seq<char>>)
    ensures
        forall|i: int|
            0 <= i < lines_chunks(lines).len() ==> byte_len(#[trigger] lines_chunks(lines)[i])
                <= MAX_CHUNK,
    decreases lines.len(),
{
    if lines.len() > 0 {
        lemma_lines_chunks_are_short(lines.drop_last());
        lemma_rest_chunks_are_short(lines.last());
        let before = lines_chunks(lines.drop_last());
        assert forall|i: int| 0 <= i < lines_chunks(lines).len() implies byte_len(
            #[trigger] lines_chunks(lines)[i],
        ) <= MAX_CHUNK by {
            if i < before.len() {
                assert(lines_chunks(lines)[i] == before[i]);
            } else {
                assert(lines_chunks(lines)[i] == line_chunks(lines.last())[i - before.len()]);
            }
        }
    }
}

/// No chunk takes more than the limit.
pub proof fn law_chunks_are_short(body: Seq<char>)
    ensures
        forall|i: int|
            0 <= i < body_chunks(body).len() ==> byte_len(#[trigger] body_chunks(body)[i])
                <= MAX_CHUNK,
{
    lemma_lines_chunks_are_short(text::lines(body));
}

proof fn lemma_flatten_parts(a: Seq<Seq<char>>, b: Seq<Seq<char>>)
    ensures
        (a + b).flatten() == a.flatten() + b.flatten(),
    decreases a.len(),
{
    if a.len() == 0 {
        assert(a + b =~= b);
        assert(a.flatten() + b.flatten() =~= b.flatten());
    } else {
        lemma_flatten_parts(a.drop_first(), b);
        assert((a + b).drop_first() =~= a.drop_first() + b);
        assert((a + b).flatten() == a[0] + (a.drop_first() + b).flatten());
        assert(a[0] + (a.drop_first().flatten() + b.flatten()) =~= (a[0]
            + a.drop_first().flatten()) + b.flatten());
    }
}

proof fn lemma_flatten_one(s: Seq<char>)
    ensures
        seq![s].flatten() == s,
{
    reveal_with_fuel(Seq::flatten, 2);
    assert(seq![s].drop_first() =~= Seq::<Seq<char>>::empty());
    assert(seq![s].flatten() =~= s);
}

proof fn lemma_rest_chunks_hold(s: Seq<char>)
    ensures
        rest_chunks(s).flatten() == s,
    decreases s.len(),
{
    if s.len() == 0 {
        assert(s =~= Seq::empty());
    } else if byte_len(s) <= MAX_CHUNK {
        lemma_flatten_one(s);
    } else {
        let k = split_point(s, MAX_CHUNK as nat);
        lemma_split_point(s, MAX_CHUNK as nat);
        lemma_rest_chunks_hold(s.skip(k));
        lemma_flatten_parts(seq![s.take(k)], rest_chunks(s.skip(k)));
        lemma_flatten_one(s.take(k));
        assert(s.take(k) + s.skip(k) =~= s);
    }
}

/// The chunks of a line are the line.
pub proof fn law_chunks_hold_the_line(line: Seq<char>)
    ensures
        line_chunks(line).flatten() == line,
{
    lemma_flatten_one(line);
    lemma_rest_chunks_hold(line);
}

proof fn lemma_lines_chunks_hold(lines: Seq<Seq<char>>)
    ensures
        lines_chunks(lines).flatten() == lines.flatten(),
    decreases lines.len(),
{
    if lines.len() > 0 {
        lemma_lines_chunks_hold(lines.drop_last());
        law_chunks_hold_the_line(lines.last());
        lemma_flatten_parts(lines_chunks(lines.drop_last()), line_chunks(lines.last()));
        lemma_flatten_parts(lines.drop_last(), seq![lines.last()]);
        lemma_flatten_one(lines.last());
        assert(lines.drop_last() + seq![lines.last()] =~= lines);
    } else {
        assert(lines =~= lines_chunks(lines));
    }
}

/// The chunks of a body are its lines, without the line ends.
pub proof fn law_chunks_hold_the_body(body: Seq<char>)
    ensures
        body_chunks(body).flatten() == text::lines(body).flatten(),
{
    lemma_lines_chunks_hold(text::lines(body));
}

// ---------------------------------------------------------------------------
// JSON values
// ---------------------------------------------------------------------------

/// A value inside another one, in short: texts in quotes, lists and records by their size.
pub open spec fn short_text(tree: JsonTree) -> Seq<char> {
    match tree {
        JsonTree::Null => "null"@,
        JsonTree::Text(content) => "\""@ + content + "\""@,
        JsonTree::List(items) => "[…"@ + text::decimal(items.len()) + "]"@,
        JsonTree::Record(fields) => "{…"@ + text::decimal(fields.len()) + "}"@,
        _ => json::plain_text(tree),
    }
}

fn json_short_text(value: &Json) -> (r: String)
    ensures
        r@ == short_text(value@),
{
    proof {
        json::lemma_tree(*value);
    }
    match value {
        Json::Null => "null".to_owned(),
        Json::Text(content) => concat3("\"", content.as_str(), "\""),
        Json::List(items) => concat3("[…", decimal_text(items.len() as u64).as_str(), "]"),
        Json::Record(fields) => concat3("{…", decimal_text(fields.len() as u64).as_str(), "}"),
        _ => json_value_to_string(value),
    }
}

/// A field in short.
pub open spec fn field_text(field: (Seq<char>, JsonTree)) -> Seq<char> {
    "\""@ + field.0 + "\": "@ + short_text(field.1)
}

/// The characters at which a line ends.
pub open spec fn is_line_break(c: char) -> bool {
    let n = c as u32;
    0x0a <= n <= 0x0d || n == 0x85 || n == 0x2028 || n == 0x2029
}

/// The text with a space in place of every line break.
pub open spec fn one_line(s: Seq<char>) -> Seq<char> {
    s.map_values(
        |c: char|
            if is_line_break(c) {
                ' '
            } else {
                c
            },
    )
}

fn to_one_line(s: &str) -> (r: String)
    ensures
        r@ == one_line(s@),
{
    let chars = chars_of(s);
    let mut r = String::new();
    let mut i: usize = 0;
    while i < chars.len()
        invariant
            i <= chars@.len(),
            chars@ == s@,
            r@.len() == i,
            forall|j: int| 0 <= j < i ==> #[trigger] r@[j] == one_line(s@)[j],
        decreases chars@.len() - i,
    {
        let n: u32 = chars[i] as u32;
        if (0x0a <= n && n <= 0x0d) || n == 0x85 || n == 0x2028 || n == 0x2029 {
            r.push(' ');
        } else {
            r.push(chars[i]);
        }
        i += 1;
    }
    assert(r@ =~= one_line(s@));
    r
}

/// A list or a record on one line; nothing for other values.
pub open spec fn full_preview(tree: JsonTree) -> Seq<char> {
    match tree {
        JsonTree::Record(fields) => one_line(
            "{ "@ + text::join(
                fields.map_values(|field: (Seq<char>, JsonTree)| field_text(field)),
                ", "@,
            ) + " }"@,
        ),
        JsonTree::List(items) => one_line(
            "["@ + text::join(items.map_values(|item: JsonTree| short_text(item)), ", "@) + "]"@,
        ),
        _ => Seq::empty(),
    }
}

/// A preview stays on one line, and has at most one character more than it is cut off behind.
proof fn lemma_preview_is_one_line(tree: JsonTree, max_chars: nat)
    ensures
        shortened(full_preview(tree), max_chars).len() <= max_chars + 1,
        forall|i: int|
            0 <= i < shortened(full_preview(tree), max_chars).len() ==> !is_line_break(
                #[trigger] shortened(full_preview(tree), max_chars)[i],
            ),
{
    reveal_strlit("…");
}

/// The text, cut off behind so many characters, with a mark where something was.
pub open spec fn shortened(s: Seq<char>, max_chars: nat) -> Seq<char> {
    if s.len() <= max_chars {
        s
    } else {
        s.take(max_chars as int) + "…"@
    }
}

fn shorten(s: String, max_chars: usize) -> (r: String)
    ensures
        r@ == shortened(s@, max_chars as nat),
{
    let chars = chars_of(s.as_str());
    if chars.len() <= max_chars {
        s
    } else {
        let start = string_between(&chars, 0, max_chars);
        assert(start@ =~= s@.take(max_chars as int));
        concat2(start.as_str(), "…")
    }
}

/// A list or a record on one line, cut off behind so many characters with a mark where it is
/// longer; nothing for other values.
pub fn json_preview(value: &Json, max_chars: usize) -> (r: String)
    ensures
        r@ == shortened(full_preview(value@), max_chars as nat),
        r@.len() <= max_chars + 1,
        forall|i: int| 0 <= i < r@.len() ==> !is_line_break(#[trigger] r@[i]),
        !r@.contains('\n') && !r@.contains('\r'),
{
    proof {
        json::lemma_tree(*value);
        lemma_preview_is_one_line(value@, max_chars as nat);
    }
    match value {
        Json::Record(fields) => {
            let mut parts: Vec<String> = Vec::new();
            let mut i: usize = 0;
            while i < fields.len()
                invariant
                    i <= fields@.len(),
                    parts@.len() == i,
                    forall|j: int|
                        0 <= j < i ==> (#[trigger] parts@[j])@ == field_text(fields@[j]@),
                decreases fields@.len() - i,
            {
                parts.push(
                    concat4(
                        "\"",
                        fields[i].0.as_str(),
                        "\": ",
                        json_short_text(&fields[i].1).as_str(),
                    ),
                );
                i += 1;
            }
            assert(text::views(parts@) =~= text::views(fields@).map_values(
                |field: (Seq<char>, JsonTree)| field_text(field),
            ));
            let preview = concat3("{ ", joined(&parts, ", ").as_str(), " }");
            shorten(to_one_line(preview.as_str()), max_chars)
        },
        Json::List(items) => {
            let mut parts: Vec<String> = Vec::new();
            let mut i: usize = 0;
            while i < items.len()
                invariant
                    i <= items@.len(),
                    parts@.len() == i,
                    forall|j: int| 0 <= j < i ==> (#[trigger] parts@[j])@ == short_text(items@[j]@),
                decreases items@.len() - i,
            {
                parts.push(json_short_text(&items[i]));
                i += 1;
            }
            assert(text::views(parts@) =~= text::views(items@).map_values(
                |item: JsonTree| short_text(item),
            ));
            let preview = concat3("[", joined(&parts, ", ").as_str(), "]");
            shorten(to_one_line(preview.as_str()), max_chars)
        },
        _ => String::new(),
    }
}

/// The text of a label, behind its key where it has one.
pub open spec fn keyed(key: Option<Seq<char>>, label: Seq<char>) -> Seq<char> {
    match key {
        Some(key) => key + ": "@ + label,
        None => label,
    }
}

/// How a value is shown in the tree of a response: the outermost list or record by its size, an
/// inner one by a preview, any other value as it is.
pub open spec fn tree_label(key: Option<Seq<char>>, tree: JsonTree, path: Seq<char>) -> Seq<char> {
    match tree {
        JsonTree::Record(fields) => if path == "$"@ {
            keyed(key, "{} "@ + text::decimal(fields.len()))
        } else {
            keyed(key, shortened(full_preview(tree), 80))
        },
        JsonTree::List(items) => if path == "$"@ {
            keyed(key, "[] "@ + text::decimal(items.len()))
        } else {
            keyed(key, shortened(full_preview(tree), 80))
        },
        _ => short_text(tree),
    }
}

pub open spec fn key_of(key: Option<&str>) -> Option<Seq<char>> {
    match key {
        Some(key) => Some(key@),
        None => None,
    }
}

fn with_key(key: Option<&str>, label: String) -> (r: String)
    ensures
        r@ == keyed(key_of(key), label@),
{
    match key {
        Some(key) => concat3(key, ": ", label.as_str()),
        None => label,
    }
}

/// How a value is shown in the tree of a response.
pub fn json_label(key: Option<&str>, value: &Json, path: &str) -> (r: String)
    ensures
        r@ == tree_label(key_of(key), value@, path@),
{
    proof {
        json::lemma_tree(*value);
    }
    match value {
        Json::Record(fields) => if same_text(path, "$") {
            with_key(key, concat2("{} ", decimal_text(fields.len() as u64).as_str()))
        } else {
            with_key(key, json_preview(value, 80))
        },
        Json::List(items) => if same_text(path, "$") {
            with_key(key, concat2("[] ", decimal_text(items.len() as u64).as_str()))
        } else {
            with_key(key, json_preview(value, 80))
        },
        _ => json_short_text(value),
    }
}

/// The path of a field of the record at a path.
pub fn field_path(path: &str, key: &str) -> (r: String)
    ensures
        r@ == path@ + "."@ + key@,
{
    concat3(path, ".", key)
}

/// The key under which an item of a list is shown.
pub fn item_key(index: usize) -> (r: String)
    ensures
        r@ == "["@ + text::decimal(index as nat) + "]"@,
{
    concat3("[", decimal_text(index as u64).as_str(), "]")
}

/// The path of an item of the list at a path.
pub fn item_path(path: &str, index: usize) -> (r: String)
    ensures
        r@ == path@ + "["@ + text::decimal(index as nat) + "]"@,
{
    concat4(path, "[", decimal_text(index as u64).as_str(), "]")
}

/// What is copied of a shown value: a text without its quotes.
pub open spec fn copied(shown: Seq<char>) -> Seq<char> {
    if shown.len() >= 2 && shown[0] == '"' && shown.last() == '"' {
        shown.subrange(1, shown.len() - 1)
    } else {
        shown
    }
}

/// What is copied of a shown value.
pub fn copied_text(shown: &str) -> (r: String)
    ensures
        r@ == copied(shown@),
{
    let chars = chars_of(shown);
    let length: usize = chars.len();
    if length >= 2 && chars[0] == '"' && chars[length - 1] == '"' {
        string_between(&chars, 1, length - 1)
    } else {
        shown.to_owned()
    }
}

/// What is copied of a shown text is the text.
pub proof fn law_text_is_copied(content: Seq<char>)
    ensures
        copied(short_text(JsonTree::Text(content))) == content,
{
    reveal_strlit("\"");
    let shown = short_text(JsonTree::Text(content));
    assert(shown.subrange(1, shown.len() - 1) =~= content);
}

// ---------------------------------------------------------------------------
// Requests
// ---------------------------------------------------------------------------

/// The colour of a method: red, green and blue.
pub fn method_color(method: &str) -> (r: (u8, u8, u8))
    ensures
        r == (if method@ == "GET"@ {
            (97u8, 175u8, 239u8)
        } else if method@ == "POST"@ {
            (152u8, 195u8, 121u8)
        } else if method@ == "PUT"@ {
            (229u8, 192u8, 123u8)
        } else if method@ == "PATCH"@ {
            (198u8, 120u8, 221u8)
        } else if method@ == "DELETE"@ {
            (224u8, 108u8, 117u8)
        } else {
            (171u8, 178u8, 191u8)
        }),
{
    if same_text(method, "GET") {
        (97, 175, 239)
    } else if same_text(method, "POST") {
        (152, 195, 121)
    } else if same_text(method, "PUT") {
        (229, 192, 123)
    } else if same_text(method, "PATCH") {
        (198, 120, 221)
    } else if same_text(method, "DELETE") {
        (224, 108, 117)
    } else {
        (171, 178, 191)
    }
}

/// The colour of a status code: red, green and blue.
pub fn status_code_color(code: u16) -> (r: (u8, u8, u8))
    ensures
        r == (if 200 <= code < 300 {
            (80u8, 195u8, 130u8)
        } else if 300 <= code < 400 {
            (80u8, 175u8, 220u8)
        } else if 400 <= code < 500 {
            (225u8, 155u8, 55u8)
        } else if 500 <= code < 600 {
            (230u8, 80u8, 80u8)
        } else {
            (140u8, 140u8, 155u8)
        }),
{
    if 200 <= code && code < 300 {
        (80, 195, 130)
    } else if 300 <= code && code < 400 {
        (80, 175, 220)
    } else if 400 <= code && code < 500 {
        (225, 155, 55)
    } else if 500 <= code && code < 600 {
        (230, 80, 80)
    } else {
        (140, 140, 155)
    }
}

/// The label of a tab.
pub fn tab_label(method: &str, name: &str, is_dirty: bool) -> (r: String)
    ensures
        r@ == method@ + (if is_dirty {
            " * "@
        } else {
            " "@
        }) + (if name@.len() == 0 {
            "Untitled"@
        } else {
            name@
        }),
{
    let name = if name.is_empty() {
        "Untitled"
    } else {
        name
    };
    if is_dirty {
        concat3(method, " * ", name)
    } else {
        concat3(method, " ", name)
    }
}

/// The title of a request in the list of requests.
pub fn list_title(name: &str, is_dirty: bool) -> (r: String)
    ensures
        r@ == (if is_dirty {
            "* "@ + name@
        } else if text::is_blank(name@) {
            "Untitled Request"@
        } else {
            name@
        }),
{
    if is_dirty {
        concat2("* ", name)
    } else if blank(name) {
        "Untitled Request".to_owned()
    } else {
        name.to_owned()
    }
}

/// What is said of the rules that ran after a response.
pub fn scripts_label(scripts_ran: usize) -> (r: String)
    ensures
        r@ == (if scripts_ran == 1 {
            "1 script ran"@
        } else {
            text::decimal(scripts_ran as nat) + " scripts ran"@
        }),
{
    if scripts_ran == 1 {
        "1 script ran".to_owned()
    } else {
        concat2(decimal_text(scripts_ran as u64).as_str(), " scripts ran")
    }
}

/// The status of a response.
pub fn status_label(code: u16, reason: &str) -> (r: String)
    ensures
        r@ == text::decimal(code as nat) + " "@ + reason@,
{
    concat3(decimal_text(code as u64).as_str(), " ", reason)
}

// ---------------------------------------------------------------------------
// Laws on values
// ---------------------------------------------------------------------------

/// How values are shown in short: texts in quotes, null, lists and records by their size.
pub proof fn law_short_values(content: Seq<char>, items: Seq<JsonTree>)
    ensures
        short_text(JsonTree::Text(content)) == "\""@ + content + "\""@,
        short_text(JsonTree::Null) == "null"@,
        short_text(JsonTree::Bool(true)) == "true"@,
        short_text(JsonTree::Bool(false)) == "false"@,
        short_text(JsonTree::List(items)) == "[…"@ + text::decimal(items.len()) + "]"@,
{
}

/// A preview begins and ends with its brackets, where it is not cut off, and holds each member in
/// short, a space in place of each line break.
pub proof fn law_preview_holds_the_members(
    items: Seq<JsonTree>,
    fields: Seq<(Seq<char>, JsonTree)>,
    i: int,
)
    ensures
        0 <= i < items.len() ==> text::has_part(
            full_preview(JsonTree::List(items)),
            one_line(short_text(items[i])),
        ),
        0 <= i < fields.len() ==> text::has_part(
            full_preview(JsonTree::Record(fields)),
            one_line("\""@ + fields[i].0 + "\": "@ + short_text(fields[i].1)),
        ),
        text::begins_with(full_preview(JsonTree::List(items)), "["@),
        text::finishes_with(full_preview(JsonTree::List(items)), "]"@),
        text::begins_with(full_preview(JsonTree::Record(fields)), "{ "@),
        text::finishes_with(full_preview(JsonTree::Record(fields)), " }"@),
{
    reveal_strlit("[");
    reveal_strlit("]");
    reveal_strlit("{ ");
    reveal_strlit(" }");
    let shown = items.map_values(|item: JsonTree| short_text(item));
    let listed = text::join(shown, ", "@);
    let list = full_preview(JsonTree::List(items));
    if 0 <= i < items.len() {
        lemma_join_holds(shown, ", "@, i);
        let at = choose|at: int| text::stands_at(listed, shown[i], at);
        lemma_part_on_one_line("["@ + listed + "]"@, shown[i], at + 1, listed, at);
    }
    assert(list.subrange(0, 1) =~= "["@);
    assert(list.subrange(list.len() - 1, list.len() as int) =~= "]"@);
    let parts = fields.map_values(|field: (Seq<char>, JsonTree)| field_text(field));
    let joined = text::join(parts, ", "@);
    let record = full_preview(JsonTree::Record(fields));
    if 0 <= i < fields.len() {
        lemma_join_holds(parts, ", "@, i);
        let at = choose|at: int| text::stands_at(joined, parts[i], at);
        lemma_part_on_one_line("{ "@ + joined + " }"@, parts[i], at + 2, joined, at);
    }
    assert(record.subrange(0, 2) =~= "{ "@);
    assert(record.subrange(record.len() - 2, record.len() as int) =~= " }"@);
}

proof fn lemma_part_on_one_line(
    whole: Seq<char>,
    part: Seq<char>,
    at: int,
    inner: Seq<char>,
    place: int,
)
    requires
        text::stands_at(inner, part, place),
        0 <= at - place,
        at - place + inner.len() <= whole.len(),
        forall|k: int|
            0 <= k < inner.len() ==> whole[at - place + k] == #[trigger] inner[k],
    ensures
        text::has_part(one_line(whole), one_line(part)),
{
    assert forall|k: int| 0 <= k < part.len() implies whole[at + k] == #[trigger] part[k] by {
        assert(inner.subrange(place, place + part.len())[k] == inner[place + k]);
    }
    assert(one_line(whole).subrange(at, at + part.len()) =~= one_line(part));
    assert(text::stands_at(one_line(whole), one_line(part), at));
}

proof fn lemma_join_holds(parts: Seq<Seq<char>>, separator: Seq<char>, i: int)
    requires
        0 <= i < parts.len(),
    ensures
        text::has_part(text::join(parts, separator), parts[i]),
    decreases parts.len(),
{
    let whole = text::join(parts, separator);
    if parts.len() == 1 {
        assert(whole.subrange(0, whole.len() as int) =~= parts[0]);
        assert(text::stands_at(whole, parts[i], 0));
    } else if i == parts.len() - 1 {
        let at = whole.len() - parts[i].len();
        assert(whole.subrange(at, whole.len() as int) =~= parts[i]);
        assert(text::stands_at(whole, parts[i], at));
    } else {
        let rest = parts.drop_last();
        let head = text::join(rest, separator);
        lemma_join_holds(rest, separator, i);
        assert(rest[i] == parts[i]);
        let at = choose|at: int| text::stands_at(head, parts[i], at);
        assert(whole.subrange(at, at + parts[i].len()) =~= head.subrange(at, at + parts[i].len()));
        assert(text::stands_at(whole, parts[i], at));
    }
}

/// A text that is short enough is shown whole; a longer one is cut off with a mark.
pub proof fn law_long_texts_are_cut_off(s: Seq<char>, max_chars: nat)
    ensures
        s.len() <= max_chars ==> shortened(s, max_chars) == s,
        s.len() > max_chars ==> shortened(s, max_chars) == s.take(max_chars as int) + "…"@,
{
}

/// The outermost record or list is labelled by its size, an inner one by its preview behind its
/// key.
pub proof fn law_labels_of_values(
    key: Seq<char>,
    items: Seq<JsonTree>,
    fields: Seq<(Seq<char>, JsonTree)>,
    path: Seq<char>,
)
    ensures
        tree_label(None, JsonTree::List(items), "$"@) == "[] "@ + text::decimal(items.len()),
        tree_label(None, JsonTree::Record(fields), "$"@) == "{} "@ + text::decimal(fields.len()),
        path != "$"@ ==> tree_label(Some(key), JsonTree::List(items), path) == key + ": "@
            + shortened(full_preview(JsonTree::List(items)), 80),
        path != "$"@ ==> tree_label(Some(key), JsonTree::Record(fields), path) == key + ": "@
            + shortened(full_preview(JsonTree::Record(fields)), 80),
{
}

} // verus!
