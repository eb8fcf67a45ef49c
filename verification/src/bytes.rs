//! Searching binary data: byte patterns, balanced brackets, compressed parts.
use crate::text;
use std::io::{Read, Write};
use vstd::prelude::*;
use vstd::slice::slice_subrange;
use vstd::string::*;
use vstd::utf8::*;

verus! {

// ---------------------------------------------------------------------------
// Patterns
// ---------------------------------------------------------------------------

/// The first place, from `from` on, where the pattern stands.
pub open spec fn next_place(data: Seq<u8>, pattern: Seq<u8>, from: int) -> Option<int>
    decreases data.len() - from,
{
    if pattern.len() == 0 || from + pattern.len() > data.len() {
        None
    } else if text::stands_at(data, pattern, from) {
        Some(from)
    } else {
        next_place(data, pattern, from + 1)
    }
}

fn bytes_stand_at(data: &[u8], pattern: &[u8], at: usize) -> (r: bool)
    requires
        at + pattern@.len() <= data@.len(),
    ensures
        r == text::stands_at(data@, pattern@, at as int),
{
    let mut i: usize = 0;
    let length: usize = data.len();
    while i < pattern.len()
        invariant
            length == data@.len(),
            at + pattern@.len() <= data@.len(),
            i <= pattern@.len(),
            forall|j: int| 0 <= j < i ==> data@[at + j] == pattern@[j],
        decreases pattern@.len() - i,
    {
        if data[at + i] != pattern[i] {
            assert(data@.subrange(at as int, at + pattern@.len())[i as int] != pattern@[i as int]);
            return false;
        }
        i += 1;
    }
    assert(data@.subrange(at as int, at + pattern@.len()) =~= pattern@);
    true
}

pub fn find_bytes(haystack: &[u8], needle: &[u8], start_index: usize) -> (r: Option<usize>)
    ensures
        match r {
            Some(place) => next_place(haystack@, needle@, start_index as int) == Some(
                place as int,
            ) && start_index <= place && place + needle@.len() <= haystack@.len(),
            None => next_place(haystack@, needle@, start_index as int) is None,
        },
{
    let length: usize = haystack.len();
    if needle.len() == 0 || length < needle.len() || start_index >= length {
        return None;
    }
    let mut at: usize = start_index;
    while at <= length - needle.len()
        invariant
            length == haystack@.len(),
            0 < needle@.len() <= length,
            start_index <= at <= length,
            next_place(haystack@, needle@, start_index as int) == next_place(
                haystack@,
                needle@,
                at as int,
            ),
        decreases length - at,
    {
        if bytes_stand_at(haystack, needle, at) {
            return Some(at);
        }
        at += 1;
    }
    None
}

/// The place that a search gives holds the pattern, and no earlier one does; where it gives none,
/// no place does.
pub proof fn law_search_finds_the_first(data: Seq<u8>, pattern: Seq<u8>, from: int)
    requires
        pattern.len() > 0,
        from >= 0,
    ensures
        match next_place(data, pattern, from) {
            Some(place) => from <= place && text::stands_at(data, pattern, place) && forall|k: int|
                from <= k < place ==> !text::stands_at(data, pattern, k),
            None => forall|k: int| from <= k ==> !text::stands_at(data, pattern, k),
        },
    decreases data.len() - from,
{
    if from + pattern.len() <= data.len() && !text::stands_at(data, pattern, from) {
        law_search_finds_the_first(data, pattern, from + 1);
    }
}

/// Whether the text stands somewhere in the data.
pub open spec fn holds_text(data: Seq<u8>, content: Seq<char>) -> bool {
    next_place(data, encode_utf8(content), 0) is Some
}

fn find_text(data: &[u8], content: &str) -> (r: bool)
    ensures
        r == holds_text(data@, content@),
{
    find_bytes(data, content.as_bytes(), 0).is_some()
}

/// Whether the data look like a Postman model: a few words give it away, plain or escaped.
pub open spec fn looks_like_model(payload: Seq<u8>) -> bool {
    ||| holds_text(payload, "\"meta\""@) && (holds_text(payload, "\"model\""@) || holds_text(
        payload,
        "\"entities\""@,
    ) || holds_text(payload, "\"model_id\""@))
    ||| holds_text(payload, "\\\"meta\\\""@) && (holds_text(payload, "\\\"model\\\""@)
        || holds_text(payload, "\\\"entities\\\""@) || holds_text(payload, "\\\"model_id\\\""@))
    ||| holds_text(payload, "\"type\":\"request\""@)
    ||| holds_text(payload, "\"type\": \"request\""@)
    ||| holds_text(payload, "\\\"type\\\":\\\"request\\\""@)
    ||| holds_text(payload, "\"request\""@) && holds_text(payload, "\"url\""@)
}

pub fn payload_looks_like_postman_model(payload: &[u8]) -> (r: bool)
    ensures
        r == looks_like_model(payload@),
{
    (find_text(payload, "\"meta\"") && (find_text(payload, "\"model\"") || find_text(
        payload,
        "\"entities\"",
    ) || find_text(payload, "\"model_id\""))) || (find_text(payload, "\\\"meta\\\"") && (find_text(
        payload,
        "\\\"model\\\"",
    ) || find_text(payload, "\\\"entities\\\"") || find_text(payload, "\\\"model_id\\\"")))
        || find_text(payload, "\"type\":\"request\"") || find_text(
        payload,
        "\"type\": \"request\"",
    ) || find_text(payload, "\\\"type\\\":\\\"request\\\"") || (find_text(payload, "\"request\"")
        && find_text(payload, "\"url\""))
}

// ---------------------------------------------------------------------------
// Brackets
// ---------------------------------------------------------------------------

/// Where a scan of JSON stands: the brackets that are open, by the brackets that close them, and
/// whether it is inside a string.
#[verifier::ext_equal]
pub struct Nesting {
    pub closers: Seq<u8>,
    pub in_string: bool,
    pub escaped: bool,
}

/// The scan after one more byte; `None` where a bracket closes what it does not open.
pub open spec fn nested(state: Nesting, byte: u8) -> Option<Nesting> {
    if state.in_string {
        if state.escaped {
            Some(Nesting { escaped: false, ..state })
        } else if byte == 0x5c {
            Some(Nesting { escaped: true, ..state })
        } else if byte == 0x22 {
            Some(Nesting { in_string: false, ..state })
        } else {
            Some(state)
        }
    } else if byte == 0x22 {
        Some(Nesting { in_string: true, ..state })
    } else if byte == 0x7b {
        Some(Nesting { closers: state.closers.push(0x7d), ..state })
    } else if byte == 0x5b {
        Some(Nesting { closers: state.closers.push(0x5d), ..state })
    } else if byte == 0x7d || byte == 0x5d {
        if state.closers.len() > 0 && state.closers.last() == byte {
            Some(Nesting { closers: state.closers.drop_last(), ..state })
        } else {
            None
        }
    } else {
        Some(state)
    }
}

/// The end of the value whose scan stands at `at`: behind the bracket that closes the last open
/// one, if that comes before `limit`.
pub open spec fn balanced_from(data: Seq<u8>, at: int, limit: int, state: Nesting) -> Option<int>
    decreases limit - at,
{
    if at >= limit {
        None
    } else {
        match nested(state, data[at]) {
            None => None,
            Some(next) => if next.closers.len() == 0 {
                Some(at + 1)
            } else {
                balanced_from(data, at + 1, limit, next)
            },
        }
    }
}

/// The nearer of two places.
pub open spec fn nearer(a: int, b: int) -> int {
    if a <= b {
        a
    } else {
        b
    }
}

/// The end of the JSON object or array that starts at `start`, if it is not longer than
/// `max_length`.
pub open spec fn json_end(data: Seq<u8>, start: int, max_length: int) -> Option<int> {
    if 0 <= start < data.len() && (data[start] == 0x7b || data[start] == 0x5b) {
        balanced_from(
            data,
            start + 1,
            nearer(data.len() as int, start + max_length),
            Nesting {
                closers: seq![
                    if data[start] == 0x7b {
                        0x7du8
                    } else {
                        0x5du8
                    },
                ],
                in_string: false,
                escaped: false,
            },
        )
    } else {
        None
    }
}

pub fn find_balanced_json_end(raw: &[u8], start_index: usize, max_length: usize) -> (r: Option<
    usize,
>)
    ensures
        match r {
            Some(end) => json_end(raw@, start_index as int, max_length as int) == Some(
                end as int,
            ) && start_index < end <= raw@.len(),
            None => json_end(raw@, start_index as int, max_length as int) is None,
        },
{
    let length: usize = raw.len();
    if start_index >= length {
        return None;
    }
    let opening: u8 = raw[start_index];
    if opening != 0x7b && opening != 0x5b {
        return None;
    }
    let mut closers: Vec<u8> = Vec::new();
    closers.push(
        if opening == 0x7b {
            0x7d
        } else {
            0x5d
        },
    );
    let mut in_string = false;
    let mut escaped = false;
    let limit: usize = if length - start_index <= max_length {
        length
    } else {
        start_index + max_length
    };
    let mut at: usize = start_index + 1;
    assert(closers@ =~= seq![
        if raw@[start_index as int] == 0x7b {
            0x7du8
        } else {
            0x5du8
        },
    ]);
    while at < limit
        invariant
            length == raw@.len(),
            start_index < at,
            at <= limit || limit == start_index,
            limit <= length,
            closers@.len() > 0,
            json_end(raw@, start_index as int, max_length as int) == balanced_from(
                raw@,
                at as int,
                limit as int,
                (Nesting { closers: closers@, in_string, escaped }),
            ),
        decreases limit - at,
    {
        let byte: u8 = raw[at];
        if in_string {
            if escaped {
                escaped = false;
            } else if byte == 0x5c {
                escaped = true;
            } else if byte == 0x22 {
                in_string = false;
            }
        } else if byte == 0x22 {
            in_string = true;
        } else if byte == 0x7b {
            closers.push(0x7d);
        } else if byte == 0x5b {
            closers.push(0x5d);
        } else if byte == 0x7d || byte == 0x5d {
            if closers[closers.len() - 1] != byte {
                return None;
            }
            let ghost before = closers@;
            closers.pop();
            assert(closers@ =~= before.drop_last());
            if closers.len() == 0 {
                return Some(at + 1);
            }
        }
        at += 1;
    }
    None
}

/// The end of the braces whose scan stands at `at` with `depth` of them open, strings not
/// counting.
pub open spec fn braces_from(data: Seq<u8>, at: int, limit: int, depth: nat) -> Option<int>
    decreases limit - at,
{
    if at >= limit {
        None
    } else if data[at] == 0x7b {
        braces_from(data, at + 1, limit, depth + 1)
    } else if data[at] == 0x7d {
        if depth <= 1 {
            Some(at + 1)
        } else {
            braces_from(data, at + 1, limit, (depth - 1) as nat)
        }
    } else {
        braces_from(data, at + 1, limit, depth)
    }
}

/// The end of the braces that open at `start`, strings not counting, if it is not further away
/// than `max_length`.
pub open spec fn braces_end(data: Seq<u8>, start: int, max_length: int) -> Option<int> {
    if 0 <= start < data.len() && data[start] == 0x7b {
        braces_from(data, start + 1, nearer(data.len() as int, start + max_length), 1)
    } else {
        None
    }
}

pub fn find_balanced_braces_end_ignoring_strings(
    raw: &[u8],
    start_index: usize,
    max_length: usize,
) -> (r: Option<usize>)
    ensures
        match r {
            Some(end) => braces_end(raw@, start_index as int, max_length as int) == Some(
                end as int,
            ) && start_index < end <= raw@.len(),
            None => braces_end(raw@, start_index as int, max_length as int) is None,
        },
{
    let length: usize = raw.len();
    if start_index >= length || raw[start_index] != 0x7b {
        return None;
    }
    let limit: usize = if length - start_index <= max_length {
        length
    } else {
        start_index + max_length
    };
    let mut depth: usize = 1;
    let mut at: usize = start_index + 1;
    while at < limit
        invariant
            length == raw@.len(),
            start_index < at,
            at <= limit || limit == start_index,
            limit <= length,
            1 <= depth <= at - start_index,
            braces_end(raw@, start_index as int, max_length as int) == braces_from(
                raw@,
                at as int,
                limit as int,
                depth as nat,
            ),
        decreases limit - at,
    {
        if raw[at] == 0x7b {
            depth += 1;
        } else if raw[at] == 0x7d {
            depth -= 1;
            if depth == 0 {
                return Some(at + 1);
            }
        }
        at += 1;
    }
    None
}

proof fn lemma_balanced_from_end(data: Seq<u8>, at: int, limit: int, state: Nesting)
    requires
        0 <= at,
        limit <= data.len(),
        state.closers.len() > 0,
    ensures
        match balanced_from(data, at, limit, state) {
            Some(end) => at < end <= limit && (data[end - 1] == 0x7d || data[end - 1] == 0x5d),
            None => true,
        },
    decreases limit - at,
{
    if at < limit {
        if let Some(next) = nested(state, data[at]) {
            if next.closers.len() > 0 {
                lemma_balanced_from_end(data, at + 1, limit, next);
            }
        }
    }
}

/// A JSON value that was found lies in the data, is not longer than was allowed, and ends with a
/// bracket.
pub proof fn law_json_end_bounds(data: Seq<u8>, start: int, max_length: int)
    ensures
        match json_end(data, start, max_length) {
            Some(end) => 0 <= start && start + 1 < end <= data.len() && end - start <= max_length
                && (data[end - 1] == 0x7d || data[end - 1] == 0x5d),
            None => true,
        },
{
    if 0 <= start < data.len() && (data[start] == 0x7b || data[start] == 0x5b) {
        lemma_balanced_from_end(
            data,
            start + 1,
            nearer(data.len() as int, start + max_length),
            Nesting {
                closers: seq![
                    if data[start] == 0x7b {
                        0x7du8
                    } else {
                        0x5du8
                    },
                ],
                in_string: false,
                escaped: false,
            },
        );
    }
}

proof fn lemma_braces_from_end(data: Seq<u8>, at: int, limit: int, depth: nat)
    ensures
        match braces_from(data, at, limit, depth) {
            Some(end) => at < end <= limit && data[end - 1] == 0x7d,
            None => true,
        },
    decreases limit - at,
{
    if at < limit {
        if data[at] == 0x7b {
            lemma_braces_from_end(data, at + 1, limit, depth + 1);
        } else if data[at] == 0x7d {
            if depth > 1 {
                lemma_braces_from_end(data, at + 1, limit, (depth - 1) as nat);
            }
        } else {
            lemma_braces_from_end(data, at + 1, limit, depth);
        }
    }
}

/// Braces that were found lie in the data, are not further apart than was allowed, and end with a
/// brace.
pub proof fn law_braces_end_bounds(data: Seq<u8>, start: int, max_length: int)
    ensures
        match braces_end(data, start, max_length) {
            Some(end) => 0 <= start && start + 1 < end <= data.len() && end - start <= max_length
                && data[end - 1] == 0x7d,
            None => true,
        },
{
    if 0 <= start < data.len() && data[start] == 0x7b {
        lemma_braces_from_end(
            data,
            start + 1,
            nearer(data.len() as int, start + max_length),
            1,
        );
    }
}

// ---------------------------------------------------------------------------
// Text
// ---------------------------------------------------------------------------

/// What `String::from_utf8_lossy` makes of bytes.
pub uninterp spec fn lossy(bytes: Seq<u8>) -> Seq<char>;

/// `String::from_utf8_lossy`. The text depends on the bytes alone; bytes that are valid UTF-8
/// are the text that they encode.
#[verifier::external_body]
pub(crate) fn lossy_text(bytes: &[u8]) -> (r: String)
    ensures
        r@ == lossy(bytes@),
        valid_utf8(bytes@) ==> r@ == decode_utf8(bytes@),
{
    String::from_utf8_lossy(bytes).into_owned()
}

// ---------------------------------------------------------------------------
// Compression
// ---------------------------------------------------------------------------

/// What `flate2::write::GzEncoder` makes of bytes at the default level; where it fails, the
/// message, and whether it failed only when it was finished.
pub uninterp spec fn gzipped(bytes: Seq<u8>) -> Result<Seq<u8>, (Seq<char>, bool)>;

/// What `flate2::read::GzDecoder` reads to the end from bytes; the message where it fails.
pub uninterp spec fn gunzipped(bytes: Seq<u8>) -> Result<Seq<u8>, Seq<char>>;

/// `flate2::write::GzEncoder`, which is given all bytes and finished. What comes out depends on
/// the bytes alone, and decompression gives them back.
#[verifier::external_body]
pub(crate) fn gzip(bytes: &[u8]) -> (r: Result<Vec<u8>, (String, bool)>)
    ensures
        match r {
            Ok(packed) => gzipped(bytes@) == Ok::<Seq<u8>, (Seq<char>, bool)>(packed@)
                && gunzipped(packed@) == Ok::<Seq<u8>, Seq<char>>(bytes@),
            Err((message, finishing)) => gzipped(bytes@) == Err::<Seq<u8>, (Seq<char>, bool)>(
                (message@, finishing),
            ),
        },
{
    let mut encoder = flate2::write::GzEncoder::new(Vec::new(), flate2::Compression::default());
    if let Err(err) = encoder.write_all(bytes) {
        return Err((err.to_string(), false));
    }
    encoder.finish().map_err(|err| (err.to_string(), true))
}

/// `flate2::read::GzDecoder`, read to its end. What comes out depends on the bytes alone.
#[verifier::external_body]
pub(crate) fn gunzip(bytes: &[u8]) -> (r: Result<Vec<u8>, String>)
    ensures
        match r {
            Ok(plain) => gunzipped(bytes@) == Ok::<Seq<u8>, Seq<char>>(plain@),
            Err(message) => gunzipped(bytes@) == Err::<Seq<u8>, Seq<char>>(message@),
        },
{
    let mut plain = Vec::new();
    match flate2::read::GzDecoder::new(bytes).read_to_end(&mut plain) {
        Ok(_) => Ok(plain),
        Err(err) => Err(err.to_string()),
    }
}

/// The bytes with which compressed data start.
pub open spec fn gzip_magic() -> Seq<u8> {
    seq![0x1f, 0x8b, 0x08]
}

/// How many places are tried for compressed data.
pub const GZIP_ATTEMPTS: usize = 12;

/// The text of the first compressed data from `from` on that can be read and are not empty,
/// among the first `attempts` places that look like such.
pub open spec fn gzip_text_from(data: Seq<u8>, from: int, attempts: nat) -> Option<Seq<char>>
    decreases attempts,
{
    if attempts == 0 {
        None
    } else {
        match next_place(data, gzip_magic(), from) {
            None => None,
            Some(place) => match gunzipped(data.skip(place)) {
                Ok(plain) => if plain.len() > 0 {
                    Some(lossy(plain))
                } else {
                    gzip_text_from(data, place + 1, (attempts - 1) as nat)
                },
                Err(_) => gzip_text_from(data, place + 1, (attempts - 1) as nat),
            },
        }
    }
}

/// The text of the first compressed data.
pub open spec fn gzip_text(data: Seq<u8>) -> Option<Seq<char>> {
    gzip_text_from(data, 0, GZIP_ATTEMPTS as nat)
}

fn magic() -> (r: Vec<u8>)
    ensures
        r@ == gzip_magic(),
{
    let r: Vec<u8> = vec![0x1f, 0x8b, 0x08];
    assert(r@ =~= gzip_magic());
    r
}

/// Whether compressed data may stand somewhere in the data.
pub fn may_hold_gzip(raw: &[u8]) -> (r: bool)
    ensures
        r == (next_place(raw@, gzip_magic(), 0) is Some),
{
    find_bytes(raw, magic().as_slice(), 0).is_some()
}

pub fn decode_first_gzip_payload(raw: &[u8]) -> (r: Option<String>)
    ensures
        text::opt(r) == gzip_text(raw@),
{
    let pattern = magic();
    let mut from: usize = 0;
    let mut attempts: usize = 0;
    while attempts < GZIP_ATTEMPTS
        invariant
            pattern@ == gzip_magic(),
            attempts <= GZIP_ATTEMPTS,
            from <= raw@.len(),
            gzip_text(raw@) == gzip_text_from(
                raw@,
                from as int,
                (GZIP_ATTEMPTS - attempts) as nat,
            ),
        decreases GZIP_ATTEMPTS - attempts,
    {
        match find_bytes(raw, pattern.as_slice(), from) {
            None => {
                return None;
            },
            Some(place) => {
                let rest = slice_subrange(raw, place, raw.len());
                assert(rest@ =~= raw@.skip(place as int));
                if let Ok(plain) = gunzip(rest) {
                    if plain.len() > 0 {
                        return Some(lossy_text(plain.as_slice()));
                    }
                }
                from = place + 1;
                attempts += 1;
            },
        }
    }
    None
}

// ---------------------------------------------------------------------------
// Text holds no compressed data
// ---------------------------------------------------------------------------

proof fn lemma_leading_bytes(c: u32)
    by (bit_vector)
    ensures
        c <= 0x7f ==> ((c & 0x7f) as u8) < 0x80,
        0xc0u8 | (((c >> 6) & 0x1f) as u8) >= 0xc0,
        0xe0u8 | (((c >> 12) & 0x0f) as u8) >= 0xc0,
        0xf0u8 | (((c >> 18) & 0x07) as u8) >= 0xc0,
{
}

proof fn lemma_continuation_bytes(c: u32)
    by (bit_vector)
    ensures
        0x80u8 | ((c & 0x3f) as u8) >= 0x80,
        0x80u8 | (((c >> 6) & 0x3f) as u8) >= 0x80,
        0x80u8 | (((c >> 12) & 0x3f) as u8) >= 0x80,
{
}

/// In UTF-8 no byte from `0x80` to `0xbf` comes first or follows an ASCII byte.
proof fn lemma_no_lone_continuation(chars: Seq<char>)
    ensures
        forall|i: int|
            0 <= i < encode_utf8(chars).len() && 0x80 <= #[trigger] encode_utf8(chars)[i] <= 0xbf
                ==> i > 0 && encode_utf8(chars)[i - 1] >= 0x80,
    decreases chars.len(),
{
    if chars.len() > 0 {
        let c = chars[0] as u32;
        let first = encode_scalar(c);
        let rest = encode_utf8(chars.drop_first());
        let all = encode_utf8(chars);
        lemma_no_lone_continuation(chars.drop_first());
        lemma_leading_bytes(c);
        lemma_continuation_bytes(c);
        assert(all == first + rest);
        assert forall|i: int| 0 <= i < all.len() && 0x80 <= #[trigger] all[i] <= 0xbf implies i > 0
            && all[i - 1] >= 0x80 by {
            if i < first.len() {
                assert(all[i] == first[i]);
                if i > 0 {
                    assert(all[i - 1] == first[i - 1]);
                }
            } else {
                assert(all[i] == rest[i - first.len()]);
                if i > first.len() {
                    assert(all[i - 1] == rest[i - first.len() - 1]);
                }
            }
        }
    }
}

/// The bytes of a text never hold what compressed data start with.
pub proof fn law_text_holds_no_gzip(chars: Seq<char>)
    ensures
        next_place(encode_utf8(chars), gzip_magic(), 0) is None,
{
    let data = encode_utf8(chars);
    lemma_no_lone_continuation(chars);
    law_search_finds_the_first(data, gzip_magic(), 0);
    if let Some(place) = next_place(data, gzip_magic(), 0) {
        let part = data.subrange(place, place + 3);
        assert(part[0] == 0x1f && part[1] == 0x8b);
        assert(data[place] == 0x1f && data[place + 1] == 0x8b);
    }
}

// ---------------------------------------------------------------------------
// Laws on brackets
// ---------------------------------------------------------------------------

/// Whether a byte is a bracket or a quote.
pub open spec fn is_mark(byte: u8) -> bool {
    byte == 0x22 || byte == 0x7b || byte == 0x7d || byte == 0x5b || byte == 0x5d
}

/// Whether the bytes are an object or a list with its end.
pub open spec fn is_closed(value: Seq<u8>) -> bool {
    json_end(value, 0, value.len() as int) == Some(value.len() as int)
}

/// An object without strings and brackets in it ends with its bracket; so does a list.
pub proof fn law_plain_object_is_closed(inner: Seq<u8>)
    requires
        forall|i: int| 0 <= i < inner.len() ==> !is_mark(#[trigger] inner[i]),
    ensures
        is_closed(seq![0x7bu8] + inner + seq![0x7du8]),
        is_closed(seq![0x5bu8] + inner + seq![0x5du8]),
{
    let object = seq![0x7bu8] + inner + seq![0x7du8];
    let list = seq![0x5bu8] + inner + seq![0x5du8];
    lemma_plain_bytes(object, 1, object.len() as int, object.len() - 1, seq![0x7du8]);
    lemma_plain_bytes(list, 1, list.len() as int, list.len() - 1, seq![0x5du8]);
    assert(seq![0x7du8].drop_last().len() == 0);
    assert(seq![0x5du8].drop_last().len() == 0);
}

/// Brackets in a string do not count, nor does a quote behind a backslash.
pub proof fn law_brackets_in_strings_do_not_count(
    before: Seq<u8>,
    content: Seq<u8>,
    escaped: u8,
    more: Seq<u8>,
    after: Seq<u8>,
)
    requires
        forall|i: int| 0 <= i < before.len() ==> !is_mark(#[trigger] before[i]),
        forall|i: int| 0 <= i < after.len() ==> !is_mark(#[trigger] after[i]),
        forall|i: int|
            0 <= i < content.len() ==> #[trigger] content[i] != 0x22 && content[i] != 0x5c,
        forall|i: int| 0 <= i < more.len() ==> #[trigger] more[i] != 0x22 && more[i] != 0x5c,
    ensures
        is_closed(
            seq![0x7bu8] + before + seq![0x22u8] + content + seq![0x5cu8, escaped] + more + seq![
                0x22u8,
            ] + after + seq![0x7du8],
        ),
{
    let data = seq![0x7bu8] + before + seq![0x22u8] + content + seq![0x5cu8, escaped] + more + seq![
        0x22u8,
    ] + after + seq![0x7du8];
    let limit = data.len() as int;
    let closers = seq![0x7du8];
    let a = 1 + before.len() as int;
    let b = a + 1 + content.len() as int;
    let c = b + 2 + more.len() as int;
    let d = c + 1 + after.len() as int;
    lemma_plain_bytes(data, 1, limit, a, closers);
    assert(data[a] == 0x22);
    lemma_string_bytes(data, a + 1, limit, b, closers);
    assert(data[b] == 0x5c);
    let inside = Nesting { closers, in_string: true, escaped: false };
    let behind = Nesting { closers, in_string: true, escaped: true };
    assert(balanced_from(data, b, limit, inside) == balanced_from(data, b + 1, limit, behind));
    assert(balanced_from(data, b + 1, limit, behind) == balanced_from(data, b + 2, limit, inside));
    assert forall|i: int| b + 2 <= i < c implies #[trigger] data[i] != 0x22 && data[i] != 0x5c by {
        assert(data[i] == more[i - b - 2]);
    }
    lemma_string_bytes(data, b + 2, limit, c, closers);
    assert(data[c] == 0x22);
    assert forall|i: int| c + 1 <= i < d implies !is_mark(#[trigger] data[i]) by {
        assert(data[i] == after[i - c - 1]);
    }
    lemma_plain_bytes(data, c + 1, limit, d, closers);
    assert(data[d] == 0x7d && d + 1 == limit);
    assert(closers.drop_last().len() == 0);
}

/// An object or list inside another one is part of it.
pub proof fn law_values_can_be_nested(before: Seq<u8>, value: Seq<u8>, after: Seq<u8>)
    requires
        is_closed(value),
        forall|i: int| 0 <= i < before.len() ==> !is_mark(#[trigger] before[i]),
        forall|i: int| 0 <= i < after.len() ==> !is_mark(#[trigger] after[i]),
    ensures
        is_closed(seq![0x7bu8] + before + value + after + seq![0x7du8]),
        is_closed(seq![0x5bu8] + before + value + after + seq![0x5du8]),
{
    lemma_nested_value(0x7bu8, 0x7du8, before, value, after);
    lemma_nested_value(0x5bu8, 0x5du8, before, value, after);
}

proof fn lemma_nested_value(
    opener: u8,
    closer: u8,
    before: Seq<u8>,
    value: Seq<u8>,
    after: Seq<u8>,
)
    requires
        (opener == 0x7b && closer == 0x7d) || (opener == 0x5b && closer == 0x5d),
        is_closed(value),
        forall|i: int| 0 <= i < before.len() ==> !is_mark(#[trigger] before[i]),
        forall|i: int| 0 <= i < after.len() ==> !is_mark(#[trigger] after[i]),
    ensures
        is_closed(seq![opener] + before + value + after + seq![closer]),
{
    let data = seq![opener] + before + value + after + seq![closer];
    let limit = data.len() as int;
    let closers = seq![closer];
    let a = 1 + before.len() as int;
    let b = a + value.len() as int;
    let c = b + after.len() as int;
    assert forall|i: int| 1 <= i < a implies !is_mark(#[trigger] data[i]) by {
        assert(data[i] == before[i - 1]);
    }
    lemma_plain_bytes(data, 1, limit, a, closers);
    let inner = if value[0] == 0x7b {
        0x7du8
    } else {
        0x5du8
    };
    let start = Nesting { closers: seq![inner], in_string: false, escaped: false };
    assert forall|i: int| 1 <= i < value.len() implies #[trigger] value[i] == data[a + i] by {}
    lemma_same_balanced(value, data, a, 1, value.len() as int, start);
    lemma_deeper(data, a + 1, b, limit, start, closers);
    assert(data[a] == value[0]);
    assert(closers + seq![inner] =~= closers.push(inner));
    assert(balanced_from(
        data,
        a,
        limit,
        Nesting { closers, in_string: false, escaped: false },
    ) == balanced_from(
        data,
        a + 1,
        limit,
        Nesting { closers: closers + seq![inner], in_string: false, escaped: false },
    ));
    assert forall|i: int| b <= i < c implies !is_mark(#[trigger] data[i]) by {
        assert(data[i] == after[i - b]);
    }
    lemma_plain_bytes(data, b, limit, c, closers);
    assert(data[c] == closer);
    assert(closers.drop_last().len() == 0);
}

/// A value is found where it stands in other bytes, whatever follows it.
pub proof fn lemma_closed_value_is_found(
    data: Seq<u8>,
    value: Seq<u8>,
    at: int,
    max_length: int,
)
    requires
        is_closed(value),
        0 <= at,
        at + value.len() <= data.len(),
        value.len() <= max_length,
        forall|i: int| 0 <= i < value.len() ==> #[trigger] value[i] == data[at + i],
    ensures
        json_end(data, at, max_length) == Some(at + value.len()),
        value[0] == 0x7b || value[0] == 0x5b,
{
    let inner = if value[0] == 0x7b {
        0x7du8
    } else {
        0x5du8
    };
    let start = Nesting { closers: seq![inner], in_string: false, escaped: false };
    lemma_same_balanced(value, data, at, 1, value.len() as int, start);
    let limit = nearer(data.len() as int, at + max_length);
    lemma_longer_limit(data, at + 1, at + value.len(), limit, start);
    assert(data[at] == value[0]);
}

proof fn lemma_longer_limit(data: Seq<u8>, at: int, limit: int, further: int, state: Nesting)
    requires
        balanced_from(data, at, limit, state) is Some,
        limit <= further,
    ensures
        balanced_from(data, at, further, state) == balanced_from(data, at, limit, state),
    decreases limit - at,
{
    if at < limit {
        if let Some(next) = nested(state, data[at]) {
            if next.closers.len() > 0 {
                lemma_longer_limit(data, at + 1, limit, further, next);
            }
        }
    }
}

proof fn lemma_same_balanced(
    value: Seq<u8>,
    data: Seq<u8>,
    offset: int,
    at: int,
    limit: int,
    state: Nesting,
)
    requires
        0 <= at <= limit <= value.len(),
        forall|i: int| at <= i < limit ==> #[trigger] value[i] == data[offset + i],
    ensures
        balanced_from(data, offset + at, offset + limit, state) == (match balanced_from(
            value,
            at,
            limit,
            state,
        ) {
            Some(end) => Some(offset + end),
            None => None,
        }),
    decreases limit - at,
{
    if at < limit {
        assert(value[at] == data[offset + at]);
        if let Some(next) = nested(state, value[at]) {
            if next.closers.len() > 0 {
                lemma_same_balanced(value, data, offset, at + 1, limit, next);
            }
        }
    }
}

/// Bytes that are no marks change nothing outside of strings.
proof fn lemma_plain_bytes(data: Seq<u8>, at: int, limit: int, to: int, closers: Seq<u8>)
    requires
        0 <= at <= to < limit <= data.len(),
        closers.len() > 0,
        forall|i: int| at <= i < to ==> !is_mark(#[trigger] data[i]),
    ensures
        ({
            let state = Nesting { closers, in_string: false, escaped: false };
            balanced_from(data, at, limit, state) == balanced_from(data, to, limit, state)
        }),
    decreases to - at,
{
    if at < to {
        assert(!is_mark(data[at]));
        lemma_plain_bytes(data, at + 1, limit, to, closers);
    }
}

/// Bytes in a string change nothing, but for quotes and backslashes.
proof fn lemma_string_bytes(data: Seq<u8>, at: int, limit: int, to: int, closers: Seq<u8>)
    requires
        0 <= at <= to < limit <= data.len(),
        closers.len() > 0,
        forall|i: int| at <= i < to ==> #[trigger] data[i] != 0x22 && data[i] != 0x5c,
    ensures
        ({
            let state = Nesting { closers, in_string: true, escaped: false };
            balanced_from(data, at, limit, state) == balanced_from(data, to, limit, state)
        }),
    decreases to - at,
{
    if at < to {
        assert(data[at] != 0x22 && data[at] != 0x5c);
        lemma_string_bytes(data, at + 1, limit, to, closers);
    }
}

/// A value that ends does so under other open brackets too, and leaves them open.
proof fn lemma_deeper(
    data: Seq<u8>,
    at: int,
    limit: int,
    further: int,
    state: Nesting,
    under: Seq<u8>,
)
    requires
        balanced_from(data, at, limit, state) is Some,
        limit <= further,
        under.len() > 0,
        state.closers.len() > 0,
        state.escaped ==> state.in_string,
    ensures
        balanced_from(
            data,
            at,
            further,
            Nesting { closers: under + state.closers, ..state },
        ) == balanced_from(
            data,
            balanced_from(data, at, limit, state)->0,
            further,
            Nesting { closers: under, in_string: false, escaped: false },
        ),
    decreases limit - at,
{
    let deep = Nesting { closers: under + state.closers, ..state };
    let next = nested(state, data[at])->0;
    let deep_next = nested(deep, data[at])->0;
    assert(deep.closers.last() == state.closers.last());
    assert(deep.closers.drop_last() =~= under + state.closers.drop_last());
    assert(deep.closers.push(0x7d) =~= under + state.closers.push(0x7d));
    assert(deep.closers.push(0x5d) =~= under + state.closers.push(0x5d));
    assert(deep_next == (Nesting { closers: under + next.closers, ..next }));
    if next.closers.len() > 0 {
        lemma_deeper(data, at + 1, limit, further, next, under);
    } else {
        assert(under + next.closers =~= under);
    }
}

/// Data look like a model where they name one beside its marks, or a request with its URL.
pub proof fn law_models_are_known_by_their_names(payload: Seq<u8>)
    ensures
        holds_text(payload, "\"meta\""@) && holds_text(payload, "\"model\""@) ==> looks_like_model(
            payload,
        ),
        holds_text(payload, "\"meta\""@) && holds_text(payload, "\"entities\""@)
            ==> looks_like_model(payload),
        holds_text(payload, "\"meta\""@) && holds_text(payload, "\"model_id\""@)
            ==> looks_like_model(payload),
        holds_text(payload, "\\\"meta\\\""@) && holds_text(payload, "\\\"model\\\""@)
            ==> looks_like_model(payload),
        holds_text(payload, "\\\"meta\\\""@) && holds_text(payload, "\\\"entities\\\""@)
            ==> looks_like_model(payload),
        holds_text(payload, "\\\"meta\\\""@) && holds_text(payload, "\\\"model_id\\\""@)
            ==> looks_like_model(payload),
        holds_text(payload, "\"type\":\"request\""@) ==> looks_like_model(payload),
        holds_text(payload, "\"type\": \"request\""@) ==> looks_like_model(payload),
        holds_text(payload, "\\\"type\\\":\\\"request\\\""@) ==> looks_like_model(payload),
        holds_text(payload, "\"request\""@) && holds_text(payload, "\"url\""@)
            ==> looks_like_model(payload),
{
}

} // verus!
