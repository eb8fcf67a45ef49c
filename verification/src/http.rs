//! From a stored request to what goes over the wire, and to a `curl` command.
use crate::merge;
use crate::merge::knows_header;
use crate::models;
use crate::models::{Endpoint, EndpointView, KeyValue, ResponseState, ResponseView};
use crate::placeholders;
use crate::placeholders::resolve_placeholders;
use crate::request_body;
use crate::request_body::{
    body_file_paths, build_prepared_request_body, computed_default_content_length,
    default_content_type_for_mode, file_path, has_request_body, normalize_body_mode,
    parse_body_fields, should_add_default_content_type, LoadedFile, PreparedBodyView,
    PreparedRequestBody,
};
use crate::table::TextMap;
use crate::text;
use crate::text::{blank, concat2, concat3, concat4, same_text, to_upper, trimmed};
use crate::urls;
use crate::urls::resolve_endpoint_url;
use vstd::prelude::*;
use vstd::string::*;
use vstd::utf8::*;

verus! {

// ---------------------------------------------------------------------------
// Methods and headers
// ---------------------------------------------------------------------------

/// Characters of an HTTP token.
pub open spec fn is_token_char(c: char) -> bool {
    text::is_ascii_alphanumeric(c) || c == '!' || c == '#' || c == '$' || c == '%' || c == '&' || c
        == '\'' || c == '*' || c == '+' || c == '-' || c == '.' || c == '^' || c == '_' || c == '`'
        || c == '|' || c == '~'
}

/// A token: at least one character, all of them token characters.
pub open spec fn is_token(s: Seq<char>) -> bool {
    s.len() > 0 && forall|i: int| 0 <= i < s.len() ==> is_token_char(#[trigger] s[i])
}

/// The names that a header can have.
pub open spec fn is_header_name(s: Seq<char>) -> bool {
    is_token(s) && s.len() <= 65535
}

/// The values that a header can have: no control characters but the tab.
pub open spec fn is_header_value(s: Seq<char>) -> bool {
    forall|i: int|
        0 <= i < s.len() ==> (#[trigger] s[i]) == '\t' || (s[i] >= ' ' && s[i] != '\u{7f}')
}

/// `reqwest::Method::from_bytes` on the bytes of the text: every token is a method, and nothing
/// else is. The method that comes back is written as it was given.
#[verifier::external_body]
fn parse_method(name: &str) -> (r: Result<String, String>)
    ensures
        match r {
            Ok(method) => is_token(name@) && method@ == name@,
            Err(message) => !is_token(name@) && message@ == "invalid HTTP method"@,
        },
{
    match reqwest::Method::from_bytes(name.as_bytes()) {
        Ok(method) => Ok(method.as_str().to_owned()),
        Err(err) => Err(err.to_string()),
    }
}

/// `reqwest::header::HeaderName::from_bytes` on the bytes of the text: tokens of at most 65535
/// bytes are header names, and nothing else is. Names come back in lower case.
#[verifier::external_body]
fn parse_header_name(name: &str) -> (r: Result<String, String>)
    ensures
        match r {
            Ok(parsed) => is_header_name(name@) && parsed@ == text::ascii_lower(name@),
            Err(message) => !is_header_name(name@) && message@ == "invalid HTTP header name"@,
        },
{
    match reqwest::header::HeaderName::from_bytes(name.as_bytes()) {
        Ok(parsed) => Ok(parsed.as_str().to_owned()),
        Err(err) => Err(err.to_string()),
    }
}

/// `reqwest::header::HeaderValue::from_str`: texts without control characters other than the
/// tab are header values, and nothing else is.
#[verifier::external_body]
fn check_header_value(value: &str) -> (r: Result<(), String>)
    ensures
        match r {
            Ok(_) => is_header_value(value@),
            Err(message) => !is_header_value(value@) && message@
                == "failed to parse header value"@,
        },
{
    match reqwest::header::HeaderValue::from_str(value) {
        Ok(_) => Ok(()),
        Err(err) => Err(err.to_string()),
    }
}

// ---------------------------------------------------------------------------
// Requests
// ---------------------------------------------------------------------------

/// A request of which all but the contents of its files is known.
#[derive(Debug, PartialEq, Eq)]
pub struct RequestStart {
    pub method: String,
    pub url: String,
    pub body_mode: String,
    pub body: String,
    /// The files whose contents the body consists of, in order.
    pub file_paths: Vec<String>,
}

#[verifier::ext_equal]
pub struct RequestStartView {
    pub method: Seq<char>,
    pub url: Seq<char>,
    pub body_mode: Seq<char>,
    pub body: Seq<char>,
    pub file_paths: Seq<Seq<char>>,
}

impl View for RequestStart {
    type V = RequestStartView;

    open spec fn view(&self) -> RequestStartView {
        RequestStartView {
            method: self.method@,
            url: self.url@,
            body_mode: self.body_mode@,
            body: self.body@,
            file_paths: text::views(self.file_paths@),
        }
    }
}

/// A request that is ready to be sent.
#[derive(Debug, PartialEq, Eq)]
pub struct PreparedRequest {
    pub method: String,
    pub url: String,
    /// The headers in the order in which they are added.
    pub headers: Vec<KeyValue>,
    pub body: PreparedRequestBody,
}

#[verifier::ext_equal]
pub struct PreparedRequestView {
    pub method: Seq<char>,
    pub url: Seq<char>,
    pub headers: Seq<(Seq<char>, Seq<char>)>,
    pub body: PreparedBodyView,
}

impl View for PreparedRequest {
    type V = PreparedRequestView;

    open spec fn view(&self) -> PreparedRequestView {
        PreparedRequestView {
            method: self.method@,
            url: self.url@,
            headers: text::views(self.headers@),
            body: self.body@,
        }
    }
}

/// What a request starts as, or why it cannot be made: its method must be a token, its URL must
/// not be empty, and the files of its body must be named.
pub open spec fn request_start(
    endpoint: EndpointView,
    variables: Map<Seq<char>, Seq<char>>,
) -> Result<RequestStartView, Seq<char>> {
    let method = text::unicode_upper(text::trim(endpoint.method));
    let url = text::trim(urls::request_url(endpoint, variables));
    let body = placeholders::resolved(endpoint.body, variables);
    let mode = request_body::body_mode(endpoint.body_mode);
    if !is_token(method) {
        Err(
            "Invalid HTTP method '"@ + text::trim(endpoint.method) + "': "@
                + "invalid HTTP method"@,
        )
    } else if url.len() == 0 {
        Err("Request URL is empty after placeholder resolution."@)
    } else {
        match request_body::body_files(mode, body) {
            Err(message) => Err("Failed to prepare request body: "@ + message),
            Ok(file_paths) => Ok(
                RequestStartView { method, url, body_mode: mode, body, file_paths },
            ),
        }
    }
}

/// The message for a body that cannot be made.
pub fn body_failure(message: &str) -> (r: String)
    ensures
        r@ == "Failed to prepare request body: "@ + message@,
{
    concat2("Failed to prepare request body: ", message)
}

/// Resolves what a request consists of, up to the contents of its files.
pub fn start_request(endpoint: &Endpoint, env_vars: &TextMap<String>) -> (r: Result<
    RequestStart,
    String,
>)
    ensures
        match r {
            Ok(start) => request_start(endpoint@, env_vars@) == Ok::<RequestStartView, Seq<char>>(
                start@,
            ),
            Err(message) => request_start(endpoint@, env_vars@) == Err::<
                RequestStartView,
                Seq<char>,
            >(message@),
        },
{
    let given_method = trimmed(endpoint.method.as_str());
    let method = match parse_method(to_upper(given_method.as_str()).as_str()) {
        Ok(method) => method,
        Err(message) => {
            return Err(
                concat4("Invalid HTTP method '", given_method.as_str(), "': ", message.as_str()),
            );
        },
    };
    let url = trimmed(resolve_endpoint_url(endpoint, env_vars).as_str());
    if url.as_str().is_empty() {
        return Err("Request URL is empty after placeholder resolution.".to_owned());
    }
    let body = resolve_placeholders(endpoint.body.as_str(), env_vars);
    let body_mode = normalize_body_mode(endpoint.body_mode.as_str()).to_owned();
    match body_file_paths(body_mode.as_str(), body.as_str()) {
        Err(message) => Err(body_failure(message.as_str())),
        Ok(file_paths) => Ok(RequestStart { method, url, body_mode, body, file_paths }),
    }
}

/// The headers that are sent without being asked for.
pub open spec fn default_headers(
    headers: Seq<(Seq<char>, Seq<char>)>,
    method: Seq<char>,
    mode: Seq<char>,
    body: Seq<char>,
    length: Option<usize>,
    has_body: bool,
) -> Seq<(Seq<char>, Seq<char>)> {
    let accept = if merge::has_header(headers, "accept"@) {
        Seq::empty()
    } else {
        seq![("accept"@, "*/*"@)]
    };
    let content_length = match request_body::default_content_length(
        method,
        merge::has_header(headers, "content-length"@),
        length,
        has_body,
    ) {
        Some(length) => seq![("content-length"@, length)],
        None => Seq::empty(),
    };
    let content_type = if has_body && !merge::has_header(headers, "content-type"@) {
        match request_body::content_type(mode, body) {
            Some(name) => seq![("content-type"@, name)],
            None => Seq::empty(),
        }
    } else {
        Seq::empty()
    };
    seq![("user-agent"@, "curl/8.0.0"@)] + accept + content_length + content_type
}

/// How one header of a request is sent: not at all where its name resolves to nothing, and
/// never where its name or value is not one that a header can have.
pub open spec fn sent_header(
    header: (Seq<char>, Seq<char>),
    variables: Map<Seq<char>, Seq<char>>,
) -> Option<Result<(Seq<char>, Seq<char>), Seq<char>>> {
    let name = text::trim(placeholders::resolved(header.0, variables));
    let value = text::trim(placeholders::resolved(header.1, variables));
    if name.len() == 0 {
        None
    } else if !is_header_name(name) {
        Some(Err("Invalid header name '"@ + name + "': "@ + "invalid HTTP header name"@))
    } else if !is_header_value(value) {
        Some(
            Err(
                "Invalid header value for '"@ + text::ascii_lower(name) + "': "@
                    + "failed to parse header value"@,
            ),
        )
    } else {
        Some(Ok((text::ascii_lower(name), value)))
    }
}

/// The headers of a request as they are sent, or the message of the first that cannot be.
pub open spec fn sent_headers(
    headers: Seq<(Seq<char>, Seq<char>)>,
    variables: Map<Seq<char>, Seq<char>>,
) -> Result<Seq<(Seq<char>, Seq<char>)>, Seq<char>>
    decreases headers.len(),
{
    if headers.len() == 0 {
        Ok(Seq::empty())
    } else {
        match sent_headers(headers.drop_last(), variables) {
            Err(message) => Err(message),
            Ok(sent) => match sent_header(headers.last(), variables) {
                None => Ok(sent),
                Some(Err(message)) => Err(message),
                Some(Ok(header)) => Ok(sent.push(header)),
            },
        }
    }
}

/// Once a header cannot be sent, no later one changes that.
proof fn lemma_failure_stays(
    headers: Seq<(Seq<char>, Seq<char>)>,
    variables: Map<Seq<char>, Seq<char>>,
    n: int,
)
    requires
        0 <= n <= headers.len(),
        sent_headers(headers.take(n), variables) is Err,
    ensures
        sent_headers(headers, variables) == sent_headers(headers.take(n), variables),
    decreases headers.len() - n,
{
    if n < headers.len() {
        assert(headers.take(n + 1).drop_last() =~= headers.take(n));
        lemma_failure_stays(headers, variables, n + 1);
    } else {
        assert(headers.take(n) =~= headers);
    }
}

fn resolve_header(header: &KeyValue, env_vars: &TextMap<String>) -> (r: Option<
    Result<KeyValue, String>,
>)
    ensures
        match r {
            None => sent_header(header@, env_vars@) is None,
            Some(Ok(sent)) => sent_header(header@, env_vars@) == Some(
                Ok::<(Seq<char>, Seq<char>), Seq<char>>(sent@),
            ),
            Some(Err(message)) => sent_header(header@, env_vars@) == Some(
                Err::<(Seq<char>, Seq<char>), Seq<char>>(message@),
            ),
        },
{
    let name = trimmed(resolve_placeholders(header.key.as_str(), env_vars).as_str());
    let value = trimmed(resolve_placeholders(header.value.as_str(), env_vars).as_str());
    if name.as_str().is_empty() {
        return None;
    }
    let key = match parse_header_name(name.as_str()) {
        Ok(key) => key,
        Err(message) => {
            return Some(
                Err(concat4("Invalid header name '", name.as_str(), "': ", message.as_str())),
            );
        },
    };
    match check_header_value(value.as_str()) {
        Ok(_) => Some(Ok(KeyValue { key, value })),
        Err(message) => Some(
            Err(concat4("Invalid header value for '", key.as_str(), "': ", message.as_str())),
        ),
    }
}

fn resolve_headers(headers: &Vec<KeyValue>, env_vars: &TextMap<String>) -> (r: Result<
    Vec<KeyValue>,
    String,
>)
    ensures
        match r {
            Ok(sent) => sent_headers(text::views(headers@), env_vars@) == Ok::<
                Seq<(Seq<char>, Seq<char>)>,
                Seq<char>,
            >(text::views(sent@)),
            Err(message) => sent_headers(text::views(headers@), env_vars@) == Err::<
                Seq<(Seq<char>, Seq<char>)>,
                Seq<char>,
            >(message@),
        },
{
    let ghost all = text::views(headers@);
    let mut sent: Vec<KeyValue> = Vec::new();
    let mut i: usize = 0;
    assert(text::views(sent@) =~= Seq::empty());
    while i < headers.len()
        invariant
            i <= headers@.len(),
            all == text::views(headers@),
            sent_headers(all.take(i as int), env_vars@) == Ok::<
                Seq<(Seq<char>, Seq<char>)>,
                Seq<char>,
            >(text::views(sent@)),
        decreases headers@.len() - i,
    {
        proof {
            assert(all.take(i + 1).drop_last() =~= all.take(i as int));
        }
        match resolve_header(&headers[i], env_vars) {
            None => {},
            Some(Ok(header)) => {
                proof {
                    text::lemma_views_push(sent@, header);
                }
                sent.push(header);
            },
            Some(Err(message)) => {
                proof {
                    lemma_failure_stays(all, env_vars@, i + 1);
                }
                return Err(message);
            },
        }
        i += 1;
    }
    assert(all.take(all.len() as int) =~= all);
    Ok(sent)
}

fn add_default_headers(
    headers: &Vec<KeyValue>,
    method: &str,
    body_mode: &str,
    body: &str,
    length: Option<usize>,
    has_body: bool,
) -> (r: Vec<KeyValue>)
    ensures
        text::views(r@) == default_headers(
            text::views(headers@),
            method@,
            body_mode@,
            body@,
            length,
            has_body,
        ),
{
    let mut r: Vec<KeyValue> = Vec::new();
    r.push(KeyValue::new("user-agent", "curl/8.0.0"));
    if !knows_header(headers, "accept") {
        r.push(KeyValue::new("accept", "*/*"));
    }
    if let Some(length) = computed_default_content_length(
        method,
        knows_header(headers, "content-length"),
        length,
        has_body,
    ) {
        r.push(KeyValue::new("content-length", length.as_str()));
    }
    if should_add_default_content_type(has_body, knows_header(headers, "content-type")) {
        if let Some(name) = default_content_type_for_mode(body_mode, body) {
            r.push(KeyValue::new("content-type", name));
        }
    }
    assert(text::views(r@) =~= default_headers(
        text::views(headers@),
        method@,
        body_mode@,
        body@,
        length,
        has_body,
    ));
    r
}

/// The length of a body as a machine integer.
pub open spec fn machine_length(body: PreparedBodyView) -> Option<usize> {
    match request_body::known_length(body) {
        Some(length) => Some(length as usize),
        None => None,
    }
}

/// The request that is sent, the contents of its files being given; or why it cannot be.
pub open spec fn prepared_request(
    endpoint: EndpointView,
    variables: Map<Seq<char>, Seq<char>>,
    start: RequestStartView,
    files: Seq<LoadedFile>,
) -> Result<PreparedRequestView, Seq<char>> {
    let body = request_body::prepared_body(start.body_mode, start.body, files);
    match sent_headers(endpoint.headers, variables) {
        Err(message) => Err(message),
        Ok(sent) => Ok(
            PreparedRequestView {
                method: start.method,
                url: start.url,
                headers: default_headers(
                    endpoint.headers,
                    start.method,
                    start.body_mode,
                    start.body,
                    machine_length(body),
                    !(body is Empty),
                ) + sent,
                body,
            },
        ),
    }
}

/// Completes a request with the contents of the files that it starts with.
pub fn finish_request(
    endpoint: &Endpoint,
    env_vars: &TextMap<String>,
    start: RequestStart,
    files: Vec<LoadedFile>,
) -> (r: Result<PreparedRequest, String>)
    requires
        request_start(endpoint@, env_vars@) == Ok::<RequestStartView, Seq<char>>(start@),
        files@.len() == start.file_paths@.len(),
    ensures
        match r {
            Ok(request) => prepared_request(endpoint@, env_vars@, start@, files@) == Ok::<
                PreparedRequestView,
                Seq<char>,
            >(request@),
            Err(message) => prepared_request(endpoint@, env_vars@, start@, files@) == Err::<
                PreparedRequestView,
                Seq<char>,
            >(message@),
        },
{
    let body = build_prepared_request_body(start.body_mode.as_str(), start.body.as_str(), files);
    let has_body = body.has_body();
    let length = body.known_content_length();
    let mut headers = add_default_headers(
        &endpoint.headers,
        start.method.as_str(),
        start.body_mode.as_str(),
        start.body.as_str(),
        length,
        has_body,
    );
    match resolve_headers(&endpoint.headers, env_vars) {
        Err(message) => Err(message),
        Ok(mut sent) => {
            let ghost first = headers@;
            let ghost rest = sent@;
            headers.append(&mut sent);
            assert(text::views(headers@) =~= text::views(first) + text::views(rest));
            Ok(PreparedRequest { method: start.method, url: start.url, headers, body })
        },
    }
}

/// A request without files, resolved in one step.
pub fn prepare_request(endpoint: &Endpoint, env_vars: &TextMap<String>) -> (r: Option<
    Result<PreparedRequest, String>,
>)
    ensures
        match r {
            None => request_start(endpoint@, env_vars@) matches Ok(start)
                && start.file_paths.len() > 0,
            Some(Ok(request)) => request_start(endpoint@, env_vars@) matches Ok(start)
                && prepared_request(endpoint@, env_vars@, start, Seq::empty()) == Ok::<
                PreparedRequestView,
                Seq<char>,
            >(request@),
            Some(Err(message)) => match request_start(endpoint@, env_vars@) {
                Err(problem) => problem == message@,
                Ok(start) => prepared_request(endpoint@, env_vars@, start, Seq::empty()) == Err::<
                    PreparedRequestView,
                    Seq<char>,
                >(message@),
            },
        },
{
    match start_request(endpoint, env_vars) {
        Err(message) => Some(Err(message)),
        Ok(start) => if start.file_paths.len() > 0 {
            None
        } else {
            let files: Vec<LoadedFile> = Vec::new();
            assert(files@ =~= Seq::empty());
            Some(finish_request(endpoint, env_vars, start, files))
        },
    }
}

// ---------------------------------------------------------------------------
// Answers
// ---------------------------------------------------------------------------

/// What came back for a request.
pub struct Reply {
    pub status_code: u16,
    /// The usual text for the status code, where there is one.
    pub reason: Option<String>,
    pub duration_ms: u128,
    /// The headers; a value that is not text is missing.
    pub headers: Vec<(String, Option<String>)>,
    /// The body; why it could not be read.
    pub body: Result<String, String>,
}

/// A request that came to nothing.
pub open spec fn failed_view(message: Seq<char>) -> ResponseView {
    ResponseView { error: Some(message), ..models::blank_response(Seq::empty()) }
}

pub fn failed_response(message: String) -> (r: ResponseState)
    ensures
        r@ == failed_view(message@),
{
    let mut output = ResponseState::default();
    output.error = Some(message);
    output
}

pub open spec fn reply_header(header: (String, Option<String>)) -> (Seq<char>, Seq<char>) {
    (
        header.0@,
        match header.1 {
            Some(value) => value@,
            None => "<non-utf8>"@,
        },
    )
}

/// What is shown of an answer.
pub open spec fn reply_view(reply: Reply) -> ResponseView {
    ResponseView {
        status_code: Some(reply.status_code),
        status_text: match reply.reason {
            Some(reason) => reason@,
            None => "Unknown"@,
        },
        duration_ms: Some(reply.duration_ms),
        headers: reply.headers@.map_values(|header: (String, Option<String>)| reply_header(header)),
        body: match reply.body {
            Ok(body) => body@,
            Err(message) => "Failed to decode response body: "@ + message@,
        },
        error: None,
    }
}

/// What is shown once a request was sent: the answer, or why there is none.
pub fn response_of(reply: Result<Reply, String>) -> (r: ResponseState)
    ensures
        r@ == (match reply {
            Ok(reply) => reply_view(reply),
            Err(message) => failed_view("Request failed: "@ + message@),
        }),
{
    let reply = match reply {
        Ok(reply) => reply,
        Err(message) => {
            return failed_response(concat2("Request failed: ", message.as_str()));
        },
    };
    let ghost given = reply.headers@;
    let mut headers: Vec<KeyValue> = Vec::new();
    for header in it: reply.headers
        invariant
            it.seq() == given,
            headers@.len() == it.index(),
            forall|j: int|
                0 <= j < headers@.len() ==> (#[trigger] headers@[j])@ == reply_header(given[j]),
    {
        assert(header == given[it.index() as int]);
        let value = match header.1 {
            Some(value) => value,
            None => "<non-utf8>".to_owned(),
        };
        headers.push(KeyValue { key: header.0, value });
    }
    assert(text::views(headers@) =~= given.map_values(
        |header: (String, Option<String>)| reply_header(header),
    ));
    ResponseState {
        status_code: Some(reply.status_code),
        status_text: match reply.reason {
            Some(reason) => reason,
            None => "Unknown".to_owned(),
        },
        duration_ms: Some(reply.duration_ms),
        headers,
        body: match reply.body {
            Ok(body) => body,
            Err(message) => concat2("Failed to decode response body: ", message.as_str()),
        },
        error: None,
    }
}

// ---------------------------------------------------------------------------
// `curl`
// ---------------------------------------------------------------------------

/// A text as one word of a shell command: in single quotes, each single quote as `'\''`.
pub open spec fn quoted(s: Seq<char>) -> Seq<char> {
    "'"@ + text::replace_char(s, '\'', "'\\''"@) + "'"@
}

pub fn shell_single_quote(input: &str) -> (r: String)
    ensures
        r@ == quoted(input@),
{
    concat3("'", text::replaced_char(input, '\'', "'\\''").as_str(), "'")
}

/// What a shell makes of a word: single quotes enclose text that stands for itself, and outside
/// them a backslash takes the next character as it is.
pub open spec fn shell_word(s: Seq<char>, inside: bool) -> Seq<char>
    decreases s.len(),
{
    if s.len() == 0 {
        Seq::empty()
    } else if s[0] == '\'' {
        shell_word(s.skip(1), !inside)
    } else if !inside && s[0] == '\\' && s.len() > 1 {
        seq![s[1]] + shell_word(s.skip(2), inside)
    } else {
        seq![s[0]] + shell_word(s.skip(1), inside)
    }
}

/// A shell reads a quoted text as that text.
pub proof fn law_shell_reads_quoted_text(s: Seq<char>)
    ensures
        shell_word(quoted(s), false) == s,
{
    reveal_strlit("'");
    let inner = text::replace_char(s, '\'', "'\\''"@);
    assert(quoted(s)[0] == '\'');
    assert(quoted(s).skip(1) =~= inner + "'"@);
    lemma_shell_reads_inner(s);
}

proof fn lemma_shell_reads_inner(s: Seq<char>)
    ensures
        shell_word(text::replace_char(s, '\'', "'\\''"@) + "'"@, true) == s,
    decreases s.len(),
{
    reveal_strlit("'");
    reveal_strlit("'\\''");
    let escape = "'\\''"@;
    if s.len() == 0 {
        let end = text::replace_char(s, '\'', escape) + "'"@;
        assert(end =~= seq!['\'']);
        assert(end.skip(1).len() == 0);
        assert(shell_word(end.skip(1), false) =~= s);
    } else {
        let rest = s.drop_first();
        let tail = text::replace_char(rest, '\'', escape) + "'"@;
        lemma_replace_first(s, '\'', escape);
        lemma_shell_reads_inner(rest);
        let whole = text::replace_char(s, '\'', escape) + "'"@;
        if s[0] == '\'' {
            assert(whole =~= escape + tail);
            assert(whole[0] == '\'');
            let a = whole.skip(1);
            assert(a[0] == '\\' && a[1] == '\'');
            let b = a.skip(2);
            assert(b[0] == '\'');
            assert(b.skip(1) =~= tail);
            assert(shell_word(b, false) == shell_word(tail, true));
            assert(shell_word(a, false) == seq![a[1]] + shell_word(b, false));
        } else {
            assert(whole =~= seq![s[0]] + tail);
            assert(whole.skip(1) =~= tail);
        }
        assert(seq![s[0]] + rest =~= s);
    }
}

proof fn lemma_replace_first(s: Seq<char>, c: char, with: Seq<char>)
    requires
        s.len() > 0,
    ensures
        text::replace_char(s, c, with) == (if s[0] == c {
            with
        } else {
            seq![s[0]]
        }) + text::replace_char(s.drop_first(), c, with),
    decreases s.len(),
{
    let init = s.drop_last();
    if s.len() == 1 {
        assert(text::replace_char(init, c, with) =~= Seq::empty());
        assert(text::replace_char(s.drop_first(), c, with) =~= Seq::empty());
    } else {
        lemma_replace_first(init, c, with);
        let rest = s.drop_first();
        assert(rest.drop_last() =~= init.drop_first());
        assert(rest.last() == s.last());
        assert(init[0] == s[0]);
    }
}

/// The line for a header, where its name does not resolve to nothing.
pub open spec fn curl_header(
    header: (Seq<char>, Seq<char>),
    variables: Map<Seq<char>, Seq<char>>,
) -> Option<Seq<char>> {
    let key = placeholders::resolved(header.0, variables);
    let value = placeholders::resolved(header.1, variables);
    if text::is_blank(key) {
        None
    } else {
        Some("  --header "@ + quoted(key + ": "@ + value))
    }
}

/// The line for a field of a form.
pub open spec fn curl_field(field: (Seq<char>, Seq<char>)) -> Seq<char> {
    match request_body::file_reference(field.1) {
        Some(path) => "  --form "@ + quoted(field.0 + "=@"@ + path),
        None => "  --form "@ + quoted(field.0 + "="@ + field.1),
    }
}

/// The lines for the body.
pub open spec fn curl_body(mode: Seq<char>, body: Seq<char>) -> Seq<Seq<char>> {
    if mode == "none"@ {
        Seq::empty()
    } else if mode == "form-data"@ {
        request_body::body_fields(body).map_values(
            |field: (Seq<char>, Seq<char>)| curl_field(field),
        )
    } else if body.len() == 0 {
        Seq::empty()
    } else if mode == "binary"@ {
        match request_body::file_reference(text::trim(body)) {
            Some(path) => seq!["  --data-binary @"@ + quoted(path)],
            None => seq!["  --data-binary "@ + quoted(body)],
        }
    } else {
        seq!["  --data-raw "@ + quoted(body)]
    }
}

/// The line for the content type that the body implies.
pub open spec fn curl_content_type(
    headers: Seq<(Seq<char>, Seq<char>)>,
    mode: Seq<char>,
    body: Seq<char>,
) -> Seq<Seq<char>> {
    if request_body::sends_body(mode, body) && !merge::has_header(headers, "content-type"@) {
        match request_body::content_type(mode, body) {
            Some(name) => seq!["  --header "@ + quoted("Content-Type: "@ + name)],
            None => Seq::empty(),
        }
    } else {
        Seq::empty()
    }
}

/// The lines of the command.
pub open spec fn curl_lines(
    endpoint: EndpointView,
    variables: Map<Seq<char>, Seq<char>>,
) -> Seq<Seq<char>> {
    let body = placeholders::resolved(endpoint.body, variables);
    let mode = request_body::body_mode(endpoint.body_mode);
    seq![
        "curl"@,
        "  --request "@ + quoted(text::unicode_upper(text::trim(endpoint.method))),
        "  --url "@ + quoted(urls::request_url(endpoint, variables)),
    ] + curl_content_type(endpoint.headers, mode, body) + endpoint.headers.filter_map(
        |header: (Seq<char>, Seq<char>)| curl_header(header, variables),
    ) + curl_body(mode, body)
}

fn curl_header_lines(headers: &Vec<KeyValue>, env_vars: &TextMap<String>) -> (lines: Vec<String>)
    ensures
        text::views(lines@) == text::views(headers@).filter_map(
            |header: (Seq<char>, Seq<char>)| curl_header(header, env_vars@),
        ),
{
    let mut lines: Vec<String> = Vec::new();
    let ghost all = text::views(headers@);
    let ghost f = |header: (Seq<char>, Seq<char>)| curl_header(header, env_vars@);
    let mut i: usize = 0;
    assert(text::views(lines@) =~= all.take(0).filter_map(f));
    while i < headers.len()
        invariant
            i <= headers@.len(),
            all == text::views(headers@),
            f == (|header: (Seq<char>, Seq<char>)| curl_header(header, env_vars@)),
            text::views(lines@) == all.take(i as int).filter_map(f),
        decreases headers@.len() - i,
    {
        proof {
            all.lemma_filter_map_take_succ(f, i as int);
        }
        let key = resolve_placeholders(headers[i].key.as_str(), env_vars);
        if !blank(key.as_str()) {
            let value = resolve_placeholders(headers[i].value.as_str(), env_vars);
            let pair = concat3(key.as_str(), ": ", value.as_str());
            let line = concat2("  --header ", shell_single_quote(pair.as_str()).as_str());
            proof {
                text::lemma_views_push(lines@, line);
            }
            lines.push(line);
        }
        i += 1;
    }
    assert(all.take(all.len() as int) =~= all);
    lines
}

fn curl_form_lines(fields: &Vec<(String, String)>) -> (lines: Vec<String>)
    ensures
        text::views(lines@) == text::views(fields@).map_values(
            |field: (Seq<char>, Seq<char>)| curl_field(field),
        ),
{
    let mut lines: Vec<String> = Vec::new();
    let ghost all = text::views(fields@);
    let ghost f = |field: (Seq<char>, Seq<char>)| curl_field(field);
    let mut i: usize = 0;
    assert(text::views(lines@) =~= all.take(0).map_values(f));
    while i < fields.len()
        invariant
            i <= fields@.len(),
            all == text::views(fields@),
            f == (|field: (Seq<char>, Seq<char>)| curl_field(field)),
            text::views(lines@) == all.take(i as int).map_values(f),
        decreases fields@.len() - i,
    {
        proof {
            all.lemma_map_take_succ(f, i as int);
        }
        let pair = match file_path(fields[i].1.as_str()) {
            Some(path) => concat3(fields[i].0.as_str(), "=@", path.as_str()),
            None => concat3(fields[i].0.as_str(), "=", fields[i].1.as_str()),
        };
        let line = concat2("  --form ", shell_single_quote(pair.as_str()).as_str());
        proof {
            text::lemma_views_push(lines@, line);
        }
        lines.push(line);
        i += 1;
    }
    assert(all.take(all.len() as int) =~= all);
    lines
}

fn curl_body_lines(body_mode: &str, body: &str) -> (lines: Vec<String>)
    ensures
        text::views(lines@) == curl_body(body_mode@, body@),
{
    let mut lines: Vec<String> = Vec::new();
    assert(text::views(lines@) =~= Seq::empty());
    if same_text(body_mode, "none") {
    } else if same_text(body_mode, "form-data") {
        lines = curl_form_lines(&parse_body_fields(body));
    } else if !body.is_empty() {
        let line = if same_text(body_mode, "binary") {
            match file_path(trimmed(body).as_str()) {
                Some(path) => concat2(
                    "  --data-binary @",
                    shell_single_quote(path.as_str()).as_str(),
                ),
                None => concat2("  --data-binary ", shell_single_quote(body).as_str()),
            }
        } else {
            concat2("  --data-raw ", shell_single_quote(body).as_str())
        };
        lines.push(line);
        assert(text::views(lines@) =~= seq![line@]);
    }
    lines
}

/// The `curl` command for a request.
pub open spec fn curl_command(
    endpoint: EndpointView,
    env_vars: Map<Seq<char>, Seq<char>>,
) -> Seq<char> {
    text::join(curl_lines(endpoint, env_vars), " \\\n"@)
}

/// The request as a `curl` command.
pub fn build_curl_command(endpoint: &Endpoint, env_vars: &TextMap<String>) -> (r: String)
    ensures
        r@ == curl_command(endpoint@, env_vars@),
{
    let method = to_upper(trimmed(endpoint.method.as_str()).as_str());
    let url = resolve_endpoint_url(endpoint, env_vars);
    let body = resolve_placeholders(endpoint.body.as_str(), env_vars);
    let body_mode = normalize_body_mode(endpoint.body_mode.as_str());
    let has_body = has_request_body(body_mode, body.as_str());

    let mut lines: Vec<String> = Vec::new();
    lines.push("curl".to_owned());
    lines.push(concat2("  --request ", shell_single_quote(method.as_str()).as_str()));
    lines.push(concat2("  --url ", shell_single_quote(url.as_str()).as_str()));
    let ghost head = seq![
        "curl"@,
        "  --request "@ + quoted(text::unicode_upper(text::trim(endpoint@.method))),
        "  --url "@ + quoted(urls::request_url(endpoint@, env_vars@)),
    ];
    assert(text::views(lines@) =~= head);
    let ghost type_lines = curl_content_type(endpoint@.headers, body_mode@, body@);
    if should_add_default_content_type(has_body, knows_header(&endpoint.headers, "content-type")) {
        if let Some(name) = default_content_type_for_mode(body_mode, body.as_str()) {
            let value = concat2("Content-Type: ", name);
            lines.push(concat2("  --header ", shell_single_quote(value.as_str()).as_str()));
        }
    }
    assert(text::views(lines@) =~= head + type_lines);
    let mut header_lines = curl_header_lines(&endpoint.headers, env_vars);
    let mut body_lines = curl_body_lines(body_mode, body.as_str());
    let ghost all_header_lines = text::views(header_lines@);
    let ghost all_body_lines = text::views(body_lines@);
    lines.append(&mut header_lines);
    assert(text::views(lines@) =~= head + type_lines + all_header_lines);
    lines.append(&mut body_lines);
    assert(text::views(lines@) =~= head + type_lines + all_header_lines + all_body_lines);
    text::joined(&lines, " \\\n")
}

// ---------------------------------------------------------------------------
// Laws
// ---------------------------------------------------------------------------

/// A text with one placeholder in it: `${name}` between texts without `$`.
pub open spec fn is_template(
    template: Seq<char>,
    before: Seq<char>,
    name: Seq<char>,
    after: Seq<char>,
) -> bool {
    &&& template == before + "${"@ + name + "}"@ + after
    &&& !before.contains('$')
    &&& !after.contains('$')
    &&& placeholders::is_name(name)
}

/// Each header of a request that is made is sent, with name and value resolved and trimmed and
/// the name in lower case, unless its name resolves to nothing.
pub proof fn law_every_header_is_sent(
    endpoint: EndpointView,
    variables: Map<Seq<char>, Seq<char>>,
    start: RequestStartView,
    files: Seq<LoadedFile>,
    request: PreparedRequestView,
    i: int,
)
    requires
        prepared_request(endpoint, variables, start, files) == Ok::<
            PreparedRequestView,
            Seq<char>,
        >(request),
        0 <= i < endpoint.headers.len(),
        !text::is_blank(placeholders::resolved(endpoint.headers[i].0, variables)),
    ensures
        request.headers.contains(
            (
                text::ascii_lower(
                    text::trim(placeholders::resolved(endpoint.headers[i].0, variables)),
                ),
                text::trim(placeholders::resolved(endpoint.headers[i].1, variables)),
            ),
        ),
{
    let sent = sent_headers(endpoint.headers, variables)->Ok_0;
    lemma_header_is_sent(endpoint.headers, variables, i);
    let header = (
        text::ascii_lower(text::trim(placeholders::resolved(endpoint.headers[i].0, variables))),
        text::trim(placeholders::resolved(endpoint.headers[i].1, variables)),
    );
    let k = choose|k: int| 0 <= k < sent.len() && sent[k] == header;
    let first = request.headers.len() - sent.len();
    assert(request.headers[first + k] == header);
}

/// The headers of a request come behind those that are sent without being asked for, in their
/// order, and no other header is sent.
pub proof fn law_headers_are_sent_in_order(
    endpoint: EndpointView,
    variables: Map<Seq<char>, Seq<char>>,
    start: RequestStartView,
    files: Seq<LoadedFile>,
    request: PreparedRequestView,
)
    requires
        prepared_request(endpoint, variables, start, files) == Ok::<
            PreparedRequestView,
            Seq<char>,
        >(request),
        forall|i: int|
            0 <= i < endpoint.headers.len() ==> !text::is_blank(
                placeholders::resolved((#[trigger] endpoint.headers[i]).0, variables),
            ),
    ensures
        ({
            let first = request.headers.len() - endpoint.headers.len();
            &&& 1 <= first <= 4
            &&& forall|i: int|
                0 <= i < endpoint.headers.len() ==> request.headers[first + i] == (
                    text::ascii_lower(
                        text::trim(
                            placeholders::resolved((#[trigger] endpoint.headers[i]).0, variables),
                        ),
                    ),
                    text::trim(placeholders::resolved(endpoint.headers[i].1, variables)),
                )
        }),
{
    lemma_headers_are_sent(endpoint.headers, variables);
}

/// A placeholder in the value of a header is replaced before the header is sent.
pub proof fn law_header_value_is_resolved(
    endpoint: EndpointView,
    variables: Map<Seq<char>, Seq<char>>,
    start: RequestStartView,
    files: Seq<LoadedFile>,
    request: PreparedRequestView,
    i: int,
    before: Seq<char>,
    name: Seq<char>,
    after: Seq<char>,
)
    requires
        prepared_request(endpoint, variables, start, files) == Ok::<
            PreparedRequestView,
            Seq<char>,
        >(request),
        0 <= i < endpoint.headers.len(),
        !endpoint.headers[i].0.contains('$'),
        !text::is_blank(endpoint.headers[i].0),
        is_template(endpoint.headers[i].1, before, name, after),
        variables.dom().contains(name),
    ensures
        request.headers.contains(
            (
                text::ascii_lower(text::trim(endpoint.headers[i].0)),
                text::trim(before + variables[name] + after),
            ),
        ),
{
    placeholders::law_plain_text_stays(endpoint.headers[i].0, variables);
    placeholders::law_one_placeholder_is_replaced(before, name, after, variables);
    law_every_header_is_sent(endpoint, variables, start, files, request, i);
}

/// So is one in the name of a header, whose value stays as it is where it holds none.
pub proof fn law_header_name_is_resolved(
    endpoint: EndpointView,
    variables: Map<Seq<char>, Seq<char>>,
    start: RequestStartView,
    files: Seq<LoadedFile>,
    request: PreparedRequestView,
    i: int,
    before: Seq<char>,
    name: Seq<char>,
    after: Seq<char>,
)
    requires
        prepared_request(endpoint, variables, start, files) == Ok::<
            PreparedRequestView,
            Seq<char>,
        >(request),
        0 <= i < endpoint.headers.len(),
        !endpoint.headers[i].1.contains('$'),
        is_template(endpoint.headers[i].0, before, name, after),
        variables.dom().contains(name),
        !text::is_blank(before + variables[name] + after),
    ensures
        request.headers.contains(
            (
                text::ascii_lower(text::trim(before + variables[name] + after)),
                text::trim(endpoint.headers[i].1),
            ),
        ),
{
    placeholders::law_plain_text_stays(endpoint.headers[i].1, variables);
    placeholders::law_one_placeholder_is_replaced(before, name, after, variables);
    law_every_header_is_sent(endpoint, variables, start, files, request, i);
}

/// A placeholder in the URL of a request without query parameters is replaced, and nothing else
/// happens to the URL.
pub proof fn law_url_is_resolved(
    endpoint: EndpointView,
    variables: Map<Seq<char>, Seq<char>>,
    start: RequestStartView,
    before: Seq<char>,
    name: Seq<char>,
    after: Seq<char>,
)
    requires
        request_start(endpoint, variables) == Ok::<RequestStartView, Seq<char>>(start),
        endpoint.query_params.len() == 0,
        is_template(endpoint.url, before, name, after),
        variables.dom().contains(name),
    ensures
        start.url == text::trim(before + variables[name] + after),
{
    placeholders::law_one_placeholder_is_replaced(before, name, after, variables);
    assert(urls::sent_pairs(endpoint.query_params, variables).len() == 0);
    text::lemma_trim_is_final(before + variables[name] + after);
}

/// A placeholder in the body is replaced, and the body is sent as text in the modes for raw and
/// URL-encoded bodies.
pub proof fn law_body_is_resolved(
    endpoint: EndpointView,
    variables: Map<Seq<char>, Seq<char>>,
    start: RequestStartView,
    files: Seq<LoadedFile>,
    request: PreparedRequestView,
    before: Seq<char>,
    name: Seq<char>,
    after: Seq<char>,
)
    requires
        request_start(endpoint, variables) == Ok::<RequestStartView, Seq<char>>(start),
        prepared_request(endpoint, variables, start, files) == Ok::<
            PreparedRequestView,
            Seq<char>,
        >(request),
        is_template(endpoint.body, before, name, after),
        variables.dom().contains(name),
        request_body::body_mode(endpoint.body_mode) == "raw"@ || request_body::body_mode(
            endpoint.body_mode,
        ) == "urlencoded"@,
        (before + variables[name] + after).len() > 0,
    ensures
        request.body == PreparedBodyView::Text(before + variables[name] + after),
{
    placeholders::law_one_placeholder_is_replaced(before, name, after, variables);
    request_body::law_text_is_sent_as_it_is(start.body_mode, start.body, files);
}

/// What a request that is made consists of: method and URL go as the start of the request has
/// them, and the body by its mode.
pub proof fn law_request_is_made_of_its_parts(
    endpoint: EndpointView,
    variables: Map<Seq<char>, Seq<char>>,
    start: RequestStartView,
    files: Seq<LoadedFile>,
    request: PreparedRequestView,
)
    requires
        request_start(endpoint, variables) == Ok::<RequestStartView, Seq<char>>(start),
        prepared_request(endpoint, variables, start, files) == Ok::<
            PreparedRequestView,
            Seq<char>,
        >(request),
    ensures
        request.method == text::unicode_upper(text::trim(endpoint.method)),
        request.url == start.url && request.url.len() > 0,
        request.body == request_body::prepared_body(
            request_body::body_mode(endpoint.body_mode),
            placeholders::resolved(endpoint.body, variables),
            files,
        ),
{
}

/// A request can be made: its method is a token, its URL does not resolve to nothing, and its
/// body names no file.
pub proof fn law_request_starts(endpoint: EndpointView, variables: Map<Seq<char>, Seq<char>>)
    requires
        is_token(text::unicode_upper(text::trim(endpoint.method))),
        !text::is_blank(placeholders::resolved(endpoint.url, variables)),
        endpoint.query_params.len() == 0,
        request_body::body_mode(endpoint.body_mode) != "binary"@,
    ensures
        request_start(endpoint, variables) is Ok,
{
    assert(urls::sent_pairs(endpoint.query_params, variables).len() == 0);
    text::lemma_trim_is_final(placeholders::resolved(endpoint.url, variables));
}

/// A request is refused where its method is no token, or where its URL resolves to nothing and
/// it has no query parameters.
pub proof fn law_request_is_refused(endpoint: EndpointView, variables: Map<Seq<char>, Seq<char>>)
    requires
        !is_token(text::unicode_upper(text::trim(endpoint.method))) || (endpoint.query_params.len()
            == 0 && text::is_blank(placeholders::resolved(endpoint.url, variables))),
    ensures
        request_start(endpoint, variables) is Err,
{
    if endpoint.query_params.len() == 0 {
        assert(urls::sent_pairs(endpoint.query_params, variables).len() == 0);
        text::lemma_trim_is_final(placeholders::resolved(endpoint.url, variables));
    }
}

/// Whether the headers state one of that name, case and surrounding space not counting.
pub open spec fn states_header(headers: Seq<(Seq<char>, Seq<char>)>, name: Seq<char>) -> bool {
    exists|i: int|
        0 <= i < headers.len() && text::ascii_lower(text::trim((#[trigger] headers[i]).0)) == name
}

/// The headers that are sent without being asked for: the user agent always; `accept`, and the
/// type and length of a body, where the request does not state them itself.
pub proof fn law_unasked_headers(
    endpoint: EndpointView,
    variables: Map<Seq<char>, Seq<char>>,
    start: RequestStartView,
    files: Seq<LoadedFile>,
    request: PreparedRequestView,
)
    requires
        prepared_request(endpoint, variables, start, files) == Ok::<
            PreparedRequestView,
            Seq<char>,
        >(request),
        forall|i: int|
            0 <= i < endpoint.headers.len() ==> !text::is_blank(
                placeholders::resolved((#[trigger] endpoint.headers[i]).0, variables),
            ),
    ensures
        ({
            let own = request.headers.take(request.headers.len() - endpoint.headers.len());
            &&& own[0] == ("user-agent"@, "curl/8.0.0"@)
            &&& own.contains(("accept"@, "*/*"@)) <==> !states_header(
                endpoint.headers,
                "accept"@,
            )
            &&& !states_header(endpoint.headers, "content-type"@) && !(request.body is Empty)
                ==> match request_body::content_type(start.body_mode, start.body) {
                Some(name) => own.contains(("content-type"@, name)),
                None => true,
            }
            &&& states_header(endpoint.headers, "content-type"@) || request.body is Empty
                ==> forall|k: int| 0 <= k < own.len() ==> (#[trigger] own[k]).0 != "content-type"@
            &&& states_header(endpoint.headers, "content-length"@) ==> forall|k: int|
                0 <= k < own.len() ==> (#[trigger] own[k]).0 != "content-length"@
            &&& !states_header(endpoint.headers, "content-length"@) ==> match request.body {
                PreparedBodyView::Text(body) => encode_utf8(body).len() <= usize::MAX
                    ==> own.contains(("content-length"@, text::decimal(encode_utf8(body).len()))),
                PreparedBodyView::Binary(bytes) => bytes.len() <= usize::MAX ==> own.contains(
                    ("content-length"@, text::decimal(bytes.len())),
                ),
                PreparedBodyView::Empty => request.method == "POST"@ || request.method == "PUT"@
                    || request.method == "PATCH"@ ==> own.contains(("content-length"@, "0"@)),
                PreparedBodyView::Multipart(_) => forall|k: int|
                    0 <= k < own.len() ==> (#[trigger] own[k]).0 != "content-length"@,
            }
        }),
{
    reveal_strlit("user-agent");
    reveal_strlit("accept");
    reveal_strlit("content-length");
    reveal_strlit("content-type");
    assert("user-agent"@.len() == 10 && "accept"@.len() == 6);
    assert("content-length"@.len() == 14 && "content-type"@.len() == 12);
    lemma_headers_are_sent(endpoint.headers, variables);
    let headers = endpoint.headers;
    lemma_states_header(headers, "accept"@);
    lemma_states_header(headers, "content-type"@);
    lemma_states_header(headers, "content-length"@);
    let body = request.body;
    let unasked = default_headers(
        headers,
        start.method,
        start.body_mode,
        start.body,
        machine_length(body),
        !(body is Empty),
    );
    let own = request.headers.take(request.headers.len() - headers.len());
    assert(own =~= unasked);
    let accept: int = if merge::has_header(headers, "accept"@) {
        0
    } else {
        1
    };
    if accept == 1 {
        assert(own[1] == ("accept"@, "*/*"@));
    }
    let length = request_body::default_content_length(
        start.method,
        merge::has_header(headers, "content-length"@),
        machine_length(body),
        !(body is Empty),
    );
    if let Some(number) = length {
        assert(own[1 + accept] == ("content-length"@, number));
    }
    let at: int = if length is Some {
        2 + accept
    } else {
        1 + accept
    };
    if !merge::has_header(headers, "content-type"@) && !(body is Empty) {
        if let Some(name) = request_body::content_type(start.body_mode, start.body) {
            assert(own[at] == ("content-type"@, name));
        }
    }
}

proof fn lemma_states_header(headers: Seq<(Seq<char>, Seq<char>)>, name: Seq<char>)
    ensures
        merge::has_header(headers, name) == states_header(headers, name),
{
    if merge::has_header(headers, name) {
        let i = choose|i: int|
            0 <= i < headers.len() && merge::header_name(#[trigger] headers[i]) == name;
        assert(text::ascii_lower(text::trim(headers[i].0)) == name);
    }
    if states_header(headers, name) {
        let i = choose|i: int|
            0 <= i < headers.len() && text::ascii_lower(text::trim((#[trigger] headers[i]).0))
                == name;
        assert(merge::header_name(headers[i]) == name);
    }
}

proof fn lemma_header_is_sent(
    headers: Seq<(Seq<char>, Seq<char>)>,
    variables: Map<Seq<char>, Seq<char>>,
    i: int,
)
    requires
        0 <= i < headers.len(),
        sent_headers(headers, variables) is Ok,
        !text::is_blank(placeholders::resolved(headers[i].0, variables)),
    ensures
        sent_headers(headers, variables)->Ok_0.contains(
            (
                text::ascii_lower(text::trim(placeholders::resolved(headers[i].0, variables))),
                text::trim(placeholders::resolved(headers[i].1, variables)),
            ),
        ),
    decreases headers.len(),
{
    let rest = headers.drop_last();
    let sent = sent_headers(headers, variables)->Ok_0;
    let header = (
        text::ascii_lower(text::trim(placeholders::resolved(headers[i].0, variables))),
        text::trim(placeholders::resolved(headers[i].1, variables)),
    );
    if i == rest.len() {
        assert(headers.last() == headers[i]);
        assert(sent.last() == header);
    } else {
        assert(rest[i] == headers[i]);
        lemma_header_is_sent(rest, variables, i);
        let less = sent_headers(rest, variables)->Ok_0;
        let k = choose|k: int| 0 <= k < less.len() && less[k] == header;
        assert(sent[k] == header);
    }
}

proof fn lemma_headers_are_sent(
    headers: Seq<(Seq<char>, Seq<char>)>,
    variables: Map<Seq<char>, Seq<char>>,
)
    requires
        sent_headers(headers, variables) is Ok,
        forall|i: int|
            0 <= i < headers.len() ==> !text::is_blank(
                placeholders::resolved((#[trigger] headers[i]).0, variables),
            ),
    ensures
        ({
            let sent = sent_headers(headers, variables)->Ok_0;
            &&& sent.len() == headers.len()
            &&& forall|i: int|
                0 <= i < headers.len() ==> sent[i] == (
                    text::ascii_lower(
                        text::trim(placeholders::resolved((#[trigger] headers[i]).0, variables)),
                    ),
                    text::trim(placeholders::resolved(headers[i].1, variables)),
                )
        }),
    decreases headers.len(),
{
    if headers.len() > 0 {
        let rest = headers.drop_last();
        assert forall|i: int| 0 <= i < rest.len() implies !text::is_blank(
            placeholders::resolved((#[trigger] rest[i]).0, variables),
        ) by {
            assert(rest[i] == headers[i]);
        }
        lemma_headers_are_sent(rest, variables);
        let n = headers.len() - 1;
        assert(headers[n] == headers.last());
        let sent = sent_headers(headers, variables)->Ok_0;
        assert forall|i: int| 0 <= i < headers.len() implies sent[i] == (
            text::ascii_lower(
                text::trim(placeholders::resolved((#[trigger] headers[i]).0, variables)),
            ),
            text::trim(placeholders::resolved(headers[i].1, variables)),
        ) by {
            if i < n {
                assert(rest[i] == headers[i]);
            }
        }
    }
}

/// A request is refused exactly where one of its headers cannot be sent: its name is not blank
/// and no token, or its value holds a control character.
pub proof fn law_headers_that_cannot_be_sent(
    headers: Seq<(Seq<char>, Seq<char>)>,
    variables: Map<Seq<char>, Seq<char>>,
)
    ensures
        sent_headers(headers, variables) is Err <==> exists|i: int|
            0 <= i < headers.len() && cannot_be_sent(#[trigger] headers[i], variables),
    decreases headers.len(),
{
    if headers.len() > 0 {
        let rest = headers.drop_last();
        let n = headers.len() - 1;
        law_headers_that_cannot_be_sent(rest, variables);
        assert(headers[n] == headers.last());
        if sent_headers(rest, variables) is Err {
            let i = choose|i: int|
                0 <= i < rest.len() && cannot_be_sent(#[trigger] rest[i], variables);
            assert(cannot_be_sent(headers[i], variables));
        } else if sent_headers(headers, variables) is Err {
            assert(cannot_be_sent(headers[n], variables));
        }
        if exists|i: int|
            0 <= i < headers.len() && cannot_be_sent(#[trigger] headers[i], variables) {
            let i = choose|i: int|
                0 <= i < headers.len() && cannot_be_sent(#[trigger] headers[i], variables);
            if i < n {
                assert(cannot_be_sent(rest[i], variables));
            }
        }
    }
}

/// Whether a header stands in the way of a request.
pub open spec fn cannot_be_sent(
    header: (Seq<char>, Seq<char>),
    variables: Map<Seq<char>, Seq<char>>,
) -> bool {
    let name = text::trim(placeholders::resolved(header.0, variables));
    let value = text::trim(placeholders::resolved(header.1, variables));
    &&& name.len() > 0
    &&& name.len() > 65535 || (exists|i: int|
        0 <= i < name.len() && !is_token_char(#[trigger] name[i])) || (exists|i: int|
        0 <= i < value.len() && #[trigger] value[i] != '\t' && (value[i] < ' ' || value[i]
            == '\u{7f}'))
}

/// What is shown of an answer is what came back: status, duration, body as it is and each header
/// with its value.
pub proof fn law_answer_is_shown(reply: Reply, i: int)
    requires
        0 <= i < reply.headers@.len(),
    ensures
        reply_view(reply).status_code == Some(reply.status_code),
        reply_view(reply).duration_ms == Some(reply.duration_ms),
        reply.reason matches Some(reason) ==> reply_view(reply).status_text == reason@,
        reply.body matches Ok(body) ==> reply_view(reply).body == body@,
        reply_view(reply).error is None,
        reply_view(reply).headers.len() == reply.headers@.len(),
        reply_view(reply).headers[i].0 == reply.headers@[i].0@,
        reply.headers@[i].1 matches Some(value) ==> reply_view(reply).headers[i].1 == value@,
        reply.headers@[i].1 is None ==> reply_view(reply).headers[i].1 == "<non-utf8>"@,
{
}

// ---------------------------------------------------------------------------
// Laws on `curl`
// ---------------------------------------------------------------------------

/// Whether a line of the command is an option with a word, and a shell reads the word as the
/// text.
pub open spec fn gives(line: Seq<char>, option: Seq<char>, content: Seq<char>) -> bool {
    exists|word: Seq<char>|
        line == #[trigger] (option + word) && shell_word(word, false) == content
}

proof fn lemma_quoted_gives(option: Seq<char>, content: Seq<char>)
    ensures
        gives(option + quoted(content), option, content),
{
    law_shell_reads_quoted_text(content);
}

/// The command is made of lines, each but the last continued on the next; it begins with
/// `curl`, the method and the URL that the request is sent to.
pub proof fn law_curl_states_the_request(
    endpoint: EndpointView,
    variables: Map<Seq<char>, Seq<char>>,
)
    ensures
        curl_command(endpoint, variables) == text::join(
            curl_lines(endpoint, variables),
            " \\\n"@,
        ),
        curl_lines(endpoint, variables).len() >= 3,
        curl_lines(endpoint, variables)[0] == "curl"@,
        gives(
            curl_lines(endpoint, variables)[1],
            "  --request "@,
            text::unicode_upper(text::trim(endpoint.method)),
        ),
        gives(
            curl_lines(endpoint, variables)[2],
            "  --url "@,
            urls::request_url(endpoint, variables),
        ),
{
    lemma_quoted_gives("  --request "@, text::unicode_upper(text::trim(endpoint.method)));
    lemma_quoted_gives("  --url "@, urls::request_url(endpoint, variables));
}

/// Each header whose name does not resolve to nothing has a line, with name and value resolved.
pub proof fn law_curl_states_each_header(
    endpoint: EndpointView,
    variables: Map<Seq<char>, Seq<char>>,
    i: int,
)
    requires
        0 <= i < endpoint.headers.len(),
        !text::is_blank(placeholders::resolved(endpoint.headers[i].0, variables)),
    ensures
        exists|k: int|
            3 <= k < curl_lines(endpoint, variables).len() && gives(
                #[trigger] curl_lines(endpoint, variables)[k],
                "  --header "@,
                placeholders::resolved(endpoint.headers[i].0, variables) + ": "@
                    + placeholders::resolved(endpoint.headers[i].1, variables),
            ),
{
    let f = |header: (Seq<char>, Seq<char>)| curl_header(header, variables);
    let content = placeholders::resolved(endpoint.headers[i].0, variables) + ": "@
        + placeholders::resolved(endpoint.headers[i].1, variables);
    let line = "  --header "@ + quoted(content);
    lemma_quoted_gives("  --header "@, content);
    text::lemma_filter_map_holds(endpoint.headers, f, i, line);
    let lines = endpoint.headers.filter_map(f);
    let k = choose|k: int| 0 <= k < lines.len() && lines[k] == line;
    let body = placeholders::resolved(endpoint.body, variables);
    let mode = request_body::body_mode(endpoint.body_mode);
    let first = 3 + curl_content_type(endpoint.headers, mode, body).len();
    assert(curl_lines(endpoint, variables)[first + k] == line);
}

/// A text body is stated in the last line, as a shell reads it just as it is sent.
pub proof fn law_curl_states_the_body(
    endpoint: EndpointView,
    variables: Map<Seq<char>, Seq<char>>,
)
    requires
        request_body::body_mode(endpoint.body_mode) == "raw"@ || request_body::body_mode(
            endpoint.body_mode,
        ) == "urlencoded"@,
        placeholders::resolved(endpoint.body, variables).len() > 0,
    ensures
        gives(
            curl_lines(endpoint, variables).last(),
            "  --data-raw "@,
            placeholders::resolved(endpoint.body, variables),
        ),
        exists|word: Seq<char>|
            text::finishes_with(
                curl_command(endpoint, variables),
                #[trigger] ("  --data-raw "@ + word),
            ) && shell_word(word, false) == placeholders::resolved(endpoint.body, variables),
{
    let body = placeholders::resolved(endpoint.body, variables);
    request_body::lemma_modes_differ();
    lemma_quoted_gives("  --data-raw "@, body);
    law_shell_reads_quoted_text(body);
    let lines = curl_lines(endpoint, variables);
    let line = "  --data-raw "@ + quoted(body);
    assert(lines.last() == line);
    let command = curl_command(endpoint, variables);
    assert(command.subrange(command.len() - line.len(), command.len() as int) =~= line);
    assert(text::finishes_with(command, "  --data-raw "@ + quoted(body)));
}

/// A request without a body has no line for one: behind the headers nothing comes.
pub proof fn law_curl_states_no_other_body(
    endpoint: EndpointView,
    variables: Map<Seq<char>, Seq<char>>,
    files: Seq<LoadedFile>,
)
    requires
        request_body::prepared_body(
            request_body::body_mode(endpoint.body_mode),
            placeholders::resolved(endpoint.body, variables),
            files,
        ) is Empty,
    ensures
        forall|k: int|
            3 <= k < curl_lines(endpoint, variables).len() ==> text::begins_with(
                #[trigger] curl_lines(endpoint, variables)[k],
                "  --header "@,
            ),
{
    let body = placeholders::resolved(endpoint.body, variables);
    let mode = request_body::body_mode(endpoint.body_mode);
    let f = |header: (Seq<char>, Seq<char>)| curl_header(header, variables);
    let header_lines = endpoint.headers.filter_map(f);
    let lines = curl_lines(endpoint, variables);
    request_body::law_body_is_sent(mode, body, files);
    assert(curl_body(mode, body) =~= Seq::empty());
    assert forall|k: int| 3 <= k < lines.len() implies text::begins_with(
        #[trigger] lines[k],
        "  --header "@,
    ) by {
        assert(lines[k] == header_lines[k - 3]);
        assert(header_lines.contains(header_lines[k - 3]));
        endpoint.headers.lemma_filter_map_contains(f, lines[k]);
        let header = choose|header: (Seq<char>, Seq<char>)|
            #[trigger] endpoint.headers.contains(header) && f(header) == Some(lines[k]);
        assert(curl_header(header, variables) == Some(lines[k]));
        let content = placeholders::resolved(header.0, variables) + ": "@
            + placeholders::resolved(header.1, variables);
        assert(lines[k].subrange(0, "  --header "@.len() as int) =~= "  --header "@);
    }
}

/// A form is stated field by field, in the last lines: `key=value`, or `key=@path` for a file.
pub proof fn law_curl_states_each_field(
    endpoint: EndpointView,
    variables: Map<Seq<char>, Seq<char>>,
    i: int,
)
    requires
        request_body::body_mode(endpoint.body_mode) == "form-data"@,
        0 <= i < request_body::body_fields(
            placeholders::resolved(endpoint.body, variables),
        ).len(),
    ensures
        ({
            let fields = request_body::body_fields(
                placeholders::resolved(endpoint.body, variables),
            );
            let lines = curl_lines(endpoint, variables);
            let first = lines.len() - fields.len();
            &&& 3 <= first
            &&& gives(
                lines[first + i],
                "  --form "@,
                if request_body::names_file(fields[i].1) {
                    fields[i].0 + "=@"@ + text::trim(fields[i].1.skip(1))
                } else {
                    fields[i].0 + "="@ + fields[i].1
                },
            )
        }),
{
    request_body::lemma_modes_differ();
    let fields = request_body::body_fields(placeholders::resolved(endpoint.body, variables));
    lemma_quoted_gives("  --form "@, fields[i].0 + "=@"@ + text::trim(fields[i].1.skip(1)));
    lemma_quoted_gives("  --form "@, fields[i].0 + "="@ + fields[i].1);
    let lines = curl_lines(endpoint, variables);
    assert(lines[lines.len() - fields.len() + i] == curl_field(fields[i]));
}

/// A binary body is stated in the last line, as the file or as the text that it is.
pub proof fn law_curl_states_a_binary_body(
    endpoint: EndpointView,
    variables: Map<Seq<char>, Seq<char>>,
)
    requires
        request_body::body_mode(endpoint.body_mode) == "binary"@,
        placeholders::resolved(endpoint.body, variables).len() > 0,
    ensures
        ({
            let body = placeholders::resolved(endpoint.body, variables);
            let content = text::trim(body);
            let line = curl_lines(endpoint, variables).last();
            if request_body::names_file(content) {
                gives(line, "  --data-binary @"@, text::trim(content.skip(1)))
            } else {
                gives(line, "  --data-binary "@, body)
            }
        }),
{
    request_body::lemma_modes_differ();
    let body = placeholders::resolved(endpoint.body, variables);
    lemma_quoted_gives("  --data-binary @"@, text::trim(text::trim(body).skip(1)));
    lemma_quoted_gives("  --data-binary "@, body);
}

/// Where a body is sent and the request states no content type, the command states the one that
/// goes with the mode.
pub proof fn law_curl_states_the_content_type(
    endpoint: EndpointView,
    variables: Map<Seq<char>, Seq<char>>,
    files: Seq<LoadedFile>,
)
    requires
        !states_header(endpoint.headers, "content-type"@),
        !(request_body::prepared_body(
            request_body::body_mode(endpoint.body_mode),
            placeholders::resolved(endpoint.body, variables),
            files,
        ) is Empty),
    ensures
        ({
            let mode = request_body::body_mode(endpoint.body_mode);
            let body = placeholders::resolved(endpoint.body, variables);
            match request_body::content_type(mode, body) {
                Some(name) => gives(
                    curl_lines(endpoint, variables)[3],
                    "  --header "@,
                    "Content-Type: "@ + name,
                ),
                None => true,
            }
        }),
{
    let mode = request_body::body_mode(endpoint.body_mode);
    let body = placeholders::resolved(endpoint.body, variables);
    request_body::law_body_is_sent(mode, body, files);
    lemma_states_header(endpoint.headers, "content-type"@);
    if let Some(name) = request_body::content_type(mode, body) {
        lemma_quoted_gives("  --header "@, "Content-Type: "@ + name);
    }
}

/// A request that is refused says why.
pub proof fn law_refusal_says_why(
    endpoint: EndpointView,
    variables: Map<Seq<char>, Seq<char>>,
    message: Seq<char>,
)
    requires
        endpoint.query_params.len() == 0,
    ensures
        ({
            let is_method = is_token(text::unicode_upper(text::trim(endpoint.method)));
            let has_url = !text::is_blank(placeholders::resolved(endpoint.url, variables));
            let files = request_body::body_files(
                request_body::body_mode(endpoint.body_mode),
                placeholders::resolved(endpoint.body, variables),
            );
            let start = request_start(endpoint, variables);
            &&& !is_method ==> start == Err::<RequestStartView, Seq<char>>(
                "Invalid HTTP method '"@ + text::trim(endpoint.method)
                    + "': invalid HTTP method"@,
            )
            &&& is_method && !has_url ==> start == Err::<RequestStartView, Seq<char>>(
                "Request URL is empty after placeholder resolution."@,
            )
            &&& is_method && has_url && files == Err::<Seq<Seq<char>>, Seq<char>>(message)
                ==> start == Err::<RequestStartView, Seq<char>>(
                "Failed to prepare request body: "@ + message,
            )
            &&& is_method && has_url && files is Ok ==> start is Ok
        }),
{
    let resolved = placeholders::resolved(endpoint.url, variables);
    assert(urls::sent_pairs(endpoint.query_params, variables).len() == 0);
    text::lemma_trim_is_final(resolved);
    reveal_strlit("': invalid HTTP method");
    reveal_strlit("': ");
    reveal_strlit("invalid HTTP method");
    assert("': invalid HTTP method"@ =~= "': "@ + "invalid HTTP method"@);
    let front = "Invalid HTTP method '"@ + text::trim(endpoint.method);
    assert(front + "': "@ + "invalid HTTP method"@ =~= front + "': invalid HTTP method"@);
}

/// A request that fails shows the message and no answer; an answer whose body cannot be read says
/// so in its place.
pub proof fn law_failure_is_shown(reply: Reply, message: Seq<char>)
    ensures
        failed_view(message).error == Some(message),
        failed_view(message).status_code is None,
        failed_view(message).body.len() == 0,
        failed_view(message).headers.len() == 0,
        reply.reason is None ==> reply_view(reply).status_text == "Unknown"@,
        reply.body matches Err(problem) ==> reply_view(reply).body
            == "Failed to decode response body: "@ + problem@,
{
}

} // verus!
