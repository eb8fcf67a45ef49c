//! What a new workspace starts with, and fresh ids.
use crate::models::{
    clone_pairs, Endpoint, EndpointView, Environment, EnvironmentIndexEntry, EnvironmentIndexView,
    EnvironmentView, KeyValue,
};
use crate::placeholders;
use crate::text;
use crate::text::{concat5, decimal_text, eq_ignore_case};
use crate::workspace;
use std::time::{SystemTime, UNIX_EPOCH};
use vstd::prelude::*;

verus! {

/// The requests of a new workspace.
pub open spec fn starting_endpoints() -> Seq<EndpointView> {
    seq![
        crate::models::bare_endpoint(
            "ep-health"@,
            "Health Check"@,
            "GET"@,
            "https://${api_host}/health"@,
        ),
        EndpointView {
            headers: seq![("Content-Type"@, "application/json"@)],
            body_mode: "raw"@,
            body: "{\n  \"email\": \"${email}\",\n  \"password\": \"${password}\"\n}"@,
            ..crate::models::bare_endpoint(
                "ep-login"@,
                "Login"@,
                "POST"@,
                "https://${api_host}/api/v1/login"@,
            )
        },
    ]
}

pub fn default_endpoints() -> (r: Vec<Endpoint>)
    ensures
        text::views(r@) == starting_endpoints(),
{
    let health = Endpoint::with_defaults(
        "ep-health".to_owned(),
        "Health Check",
        "GET",
        "https://${api_host}/health",
    );
    let mut login = Endpoint::with_defaults(
        "ep-login".to_owned(),
        "Login",
        "POST",
        "https://${api_host}/api/v1/login",
    );
    login.headers = vec![KeyValue::new("Content-Type", "application/json")];
    login.body_mode = "raw".to_owned();
    login.body = "{\n  \"email\": \"${email}\",\n  \"password\": \"${password}\"\n}".to_owned();
    assert(text::views(login.headers@) =~= seq![("Content-Type"@, "application/json"@)]);
    assert(login@ =~= starting_endpoints()[1]);
    let r = vec![health, login];
    assert(text::views(r@) =~= starting_endpoints());
    r
}

/// The variables of an environment of a new workspace.
pub open spec fn starting_variables(
    host: Seq<char>,
    email: Seq<char>,
    password: Seq<char>,
) -> Seq<(Seq<char>, Seq<char>)> {
    seq![("api_host"@, host), ("email"@, email), ("password"@, password)]
}

/// The environments of a new workspace.
pub open spec fn starting_environments() -> Seq<EnvironmentView> {
    seq![
        EnvironmentView {
            id: "env-dev"@,
            name: "dev"@,
            file_name: "env-dev.json"@,
            variables: starting_variables(
                "localhost:8080"@,
                "dev@example.com"@,
                "dev-password"@,
            ),
        },
        EnvironmentView {
            id: "env-staging"@,
            name: "staging"@,
            file_name: "env-staging.json"@,
            variables: starting_variables(
                "staging-api.example.com"@,
                "staging@example.com"@,
                "staging-password"@,
            ),
        },
        EnvironmentView {
            id: "env-prod"@,
            name: "prod"@,
            file_name: "env-prod.json"@,
            variables: starting_variables(
                "api.example.com"@,
                "ops@example.com"@,
                "prod-password"@,
            ),
        },
    ]
}

fn default_variables(host: &str, email: &str, password: &str) -> (r: Vec<KeyValue>)
    ensures
        text::views(r@) == starting_variables(host@, email@, password@),
{
    let r = vec![
        KeyValue::new("api_host", host),
        KeyValue::new("email", email),
        KeyValue::new("password", password),
    ];
    assert(text::views(r@) =~= starting_variables(host@, email@, password@));
    r
}

pub fn default_environments() -> (r: Vec<Environment>)
    ensures
        text::views(r@) == starting_environments(),
{
    let dev = Environment {
        id: "env-dev".to_owned(),
        name: "dev".to_owned(),
        file_name: "env-dev.json".to_owned(),
        variables: default_variables("localhost:8080", "dev@example.com", "dev-password"),
    };
    let staging = Environment {
        id: "env-staging".to_owned(),
        name: "staging".to_owned(),
        file_name: "env-staging.json".to_owned(),
        variables: default_variables(
            "staging-api.example.com",
            "staging@example.com",
            "staging-password",
        ),
    };
    let prod = Environment {
        id: "env-prod".to_owned(),
        name: "prod".to_owned(),
        file_name: "env-prod.json".to_owned(),
        variables: default_variables("api.example.com", "ops@example.com", "prod-password"),
    };
    let r = vec![dev, staging, prod];
    assert(text::views(r@) =~= starting_environments());
    r
}

/// The entry of an environment in the list of environments.
pub open spec fn index_entry(environment: EnvironmentView) -> EnvironmentIndexView {
    EnvironmentIndexView {
        id: environment.id,
        name: environment.name,
        file_name: environment.file_name,
    }
}

/// The list of the environments.
pub open spec fn index_of(environments: Seq<EnvironmentView>) -> Seq<EnvironmentIndexView> {
    environments.map_values(|environment: EnvironmentView| index_entry(environment))
}

/// The list of the environments.
pub fn environment_index(environments: &Vec<Environment>) -> (r: Vec<EnvironmentIndexEntry>)
    ensures
        text::views(r@) == index_of(text::views(environments@)),
{
    let mut r: Vec<EnvironmentIndexEntry> = Vec::new();
    let mut i: usize = 0;
    while i < environments.len()
        invariant
            i <= environments@.len(),
            r@.len() == i,
            forall|j: int|
                0 <= j < i ==> (#[trigger] r@[j])@ == index_entry(environments@[j]@),
        decreases environments@.len() - i,
    {
        let environment = &environments[i];
        r.push(
            EnvironmentIndexEntry {
                id: environment.id.clone(),
                name: environment.name.clone(),
                file_name: environment.file_name.clone(),
            },
        );
        i += 1;
    }
    assert(text::views(r@) =~= index_of(text::views(environments@)));
    r
}

pub fn default_environment_index() -> (r: Vec<EnvironmentIndexEntry>)
    ensures
        text::views(r@) == index_of(starting_environments()),
{
    environment_index(&default_environments())
}

/// The variables of the first environment of that name, case not counting; none where there is
/// no such environment.
pub open spec fn variables_named(
    environments: Seq<EnvironmentView>,
    name: Seq<char>,
) -> Seq<(Seq<char>, Seq<char>)>
    decreases environments.len(),
{
    if environments.len() == 0 {
        Seq::empty()
    } else if text::same_ignoring_case(environments[0].name, name) {
        environments[0].variables
    } else {
        variables_named(environments.drop_first(), name)
    }
}

pub fn default_variables_for_environment_name(name: &str) -> (r: Vec<KeyValue>)
    ensures
        text::views(r@) == variables_named(starting_environments(), name@),
{
    let environments = default_environments();
    let ghost all = text::views(environments@);
    let mut i: usize = 0;
    assert(all.skip(0) =~= all);
    while i < environments.len()
        invariant
            i <= environments@.len(),
            all == text::views(environments@),
            all == starting_environments(),
            variables_named(all, name@) == variables_named(all.skip(i as int), name@),
        decreases environments@.len() - i,
    {
        if eq_ignore_case(environments[i].name.as_str(), name) {
            assert(all.skip(i as int)[0] == environments@[i as int]@);
            return clone_pairs(&environments[i].variables);
        }
        assert(all.skip(i as int).drop_first() =~= all.skip(i + 1));
        i += 1;
    }
    let none: Vec<KeyValue> = Vec::new();
    assert(text::views(none@) =~= Seq::empty());
    none
}

/// Every placeholder in the requests of a new workspace is defined in each of its environments:
/// none is left in the URLs and bodies that are sent.
pub proof fn law_default_placeholders_are_defined(i: int, j: int)
    requires
        0 <= i < starting_endpoints().len(),
        0 <= j < starting_environments().len(),
    ensures
        ({
            let endpoint = starting_endpoints()[i];
            let variables = workspace::variables_of(starting_environments()[j].variables);
            &&& !text::has_part(placeholders::resolved(endpoint.url, variables), "${"@)
            &&& !text::has_part(placeholders::resolved(endpoint.body, variables), "${"@)
        }),
{
    reveal_strlit("localhost:8080");
    reveal_strlit("dev@example.com");
    reveal_strlit("dev-password");
    reveal_strlit("staging-api.example.com");
    reveal_strlit("staging@example.com");
    reveal_strlit("staging-password");
    reveal_strlit("api.example.com");
    reveal_strlit("ops@example.com");
    reveal_strlit("prod-password");
    let variables = starting_environments()[j].variables;
    lemma_starting_variables(variables[0].1, variables[1].1, variables[2].1);
}

proof fn lemma_starting_variables(host: Seq<char>, email: Seq<char>, password: Seq<char>)
    requires
        !host.contains('$'),
        !email.contains('$'),
        !password.contains('$'),
    ensures
        forall|i: int|
            0 <= i < starting_endpoints().len() ==> {
                let endpoint = #[trigger] starting_endpoints()[i];
                let variables = workspace::variables_of(
                    starting_variables(host, email, password),
                );
                &&& !text::has_part(placeholders::resolved(endpoint.url, variables), "${"@)
                &&& !text::has_part(placeholders::resolved(endpoint.body, variables), "${"@)
            },
{
    let pairs = starting_variables(host, email, password);
    let variables = workspace::variables_of(pairs);
    reveal_strlit("api_host");
    reveal_strlit("email");
    reveal_strlit("password");
    reveal_with_fuel(workspace::variables_of, 4);
    assert(pairs.drop_last().drop_last().drop_last() =~= Seq::empty());
    assert(pairs.drop_last().drop_last().last() == ("api_host"@, host));
    assert(pairs.drop_last().last() == ("email"@, email));
    assert(pairs.last() == ("password"@, password));
    assert("api_host"@[0] != "email"@[0] && "email"@[0] != "password"@[0]);
    assert("api_host"@[0] != "password"@[0]);
    assert(variables.dom().contains("api_host"@) && variables["api_host"@] == host);
    assert(variables.dom().contains("email"@) && variables["email"@] == email);
    assert(variables.dom().contains("password"@) && variables["password"@] == password);
    lemma_starting_urls(variables);
    lemma_starting_bodies(variables);
}

proof fn lemma_starting_urls(variables: Map<Seq<char>, Seq<char>>)
    requires
        variables.dom().contains("api_host"@),
        !variables["api_host"@].contains('$'),
    ensures
        !text::has_part(
            placeholders::resolved("https://${api_host}/health"@, variables),
            "${"@,
        ),
        !text::has_part(
            placeholders::resolved("https://${api_host}/api/v1/login"@, variables),
            "${"@,
        ),
{
    reveal_strlit("https://${api_host}/health");
    reveal_strlit("https://${api_host}/api/v1/login");
    reveal_strlit("https://");
    reveal_strlit("${");
    reveal_strlit("api_host");
    reveal_strlit("}");
    reveal_strlit("/health");
    reveal_strlit("/api/v1/login");
    let host = variables["api_host"@];
    assert("https://${api_host}/health"@ =~= "https://"@ + "${"@ + "api_host"@ + "}"@ + "/health"@);
    assert("https://${api_host}/api/v1/login"@ =~= "https://"@ + "${"@ + "api_host"@ + "}"@
        + "/api/v1/login"@);
    placeholders::law_placeholder_is_replaced("https://"@, "api_host"@, "/health"@, variables);
    placeholders::law_placeholder_is_replaced(
        "https://"@,
        "api_host"@,
        "/api/v1/login"@,
        variables,
    );
    placeholders::law_plain_text_stays("/health"@, variables);
    placeholders::law_plain_text_stays("/api/v1/login"@, variables);
    lemma_no_placeholder("https://"@ + host, "/health"@);
    lemma_no_placeholder("https://"@ + host, "/api/v1/login"@);
}

proof fn lemma_starting_bodies(variables: Map<Seq<char>, Seq<char>>)
    requires
        variables.dom().contains("email"@),
        variables.dom().contains("password"@),
        !variables["email"@].contains('$'),
        !variables["password"@].contains('$'),
    ensures
        !text::has_part(placeholders::resolved(Seq::empty(), variables), "${"@),
        !text::has_part(
            placeholders::resolved(
                "{\n  \"email\": \"${email}\",\n  \"password\": \"${password}\"\n}"@,
                variables,
            ),
            "${"@,
        ),
{
    reveal_strlit("{\n  \"email\": \"${email}\",\n  \"password\": \"${password}\"\n}");
    reveal_strlit("{\n  \"email\": \"");
    reveal_strlit("\",\n  \"password\": \"");
    reveal_strlit("\"\n}");
    reveal_strlit("${");
    reveal_strlit("email");
    reveal_strlit("password");
    reveal_strlit("}");
    let start = "{\n  \"email\": \""@;
    let middle = "\",\n  \"password\": \""@;
    let end = "\"\n}"@;
    let tail = middle + "${"@ + "password"@ + "}"@ + end;
    assert("{\n  \"email\": \"${email}\",\n  \"password\": \"${password}\"\n}"@ =~= start + "${"@
        + "email"@ + "}"@ + tail);
    placeholders::law_placeholder_is_replaced(start, "email"@, tail, variables);
    placeholders::law_placeholder_is_replaced(middle, "password"@, end, variables);
    placeholders::law_plain_text_stays(end, variables);
    lemma_no_placeholder(middle + variables["password"@], end);
    lemma_no_placeholder(
        start + variables["email"@],
        middle + variables["password"@] + end,
    );
}

proof fn lemma_no_placeholder(a: Seq<char>, b: Seq<char>)
    requires
        !a.contains('$'),
        !b.contains('$'),
    ensures
        !(a + b).contains('$'),
        !text::has_part(a + b, "${"@),
{
    reveal_strlit("${");
    let s = a + b;
    assert forall|i: int| 0 <= i < s.len() implies s[i] != '$' by {
        if i < a.len() {
            assert(a.contains(a[i]));
        } else {
            assert(b.contains(b[i - a.len()]));
        }
    }
    if text::has_part(s, "${"@) {
        let at = choose|at: int| text::stands_at(s, "${"@, at);
        assert(s.subrange(at, at + 2)[0] == s[at]);
    }
}

// ---------------------------------------------------------------------------
// Ids
// ---------------------------------------------------------------------------

/// The id that is made at a time: prefix, seconds and nanoseconds.
pub open spec fn id_at(prefix: Seq<char>, seconds: u64, nanos: u32) -> Seq<char> {
    prefix + "-"@ + text::decimal(seconds as nat) + "-"@ + text::decimal(nanos as nat)
}

/// Whether the id is one that is made at some time.
pub open spec fn is_id(id: Seq<char>, prefix: Seq<char>) -> bool {
    exists|seconds: u64, nanos: u32| id == #[trigger] id_at(prefix, seconds, nanos)
}

pub fn id_from_time(prefix: &str, seconds: u64, nanos: u32) -> (id: String)
    ensures
        id@ == id_at(prefix@, seconds, nanos),
{
    concat5(
        prefix,
        "-",
        decimal_text(seconds).as_str(),
        "-",
        decimal_text(nanos as u64).as_str(),
    )
}

/// `SystemTime::now`, as seconds and nanoseconds since the Unix epoch; zero before it. Nothing
/// is promised of the time but that the nanoseconds are less than a second.
#[verifier::external_body]
fn unix_time() -> (r: (u64, u32))
    ensures
        r.1 < 1_000_000_000,
{
    let now = SystemTime::now().duration_since(UNIX_EPOCH).unwrap_or_default();
    (now.as_secs(), now.subsec_nanos())
}

/// An id made of the prefix and the present time.
pub fn create_id(prefix: &str) -> (id: String)
    ensures
        is_id(id@, prefix@),
{
    let (seconds, nanos) = unix_time();
    id_from_time(prefix, seconds, nanos)
}

/// The variables by the name of an environment are those of the first that has the name, in any
/// case of letters; a name that none has gives none.
pub proof fn law_variables_are_found_by_name(
    environments: Seq<EnvironmentView>,
    name: Seq<char>,
    at: int,
)
    requires
        0 <= at <= environments.len(),
        forall|i: int|
            0 <= i < at ==> text::ascii_lower((#[trigger] environments[i]).name)
                != text::ascii_lower(name),
        at < environments.len() ==> text::ascii_lower(environments[at].name) == text::ascii_lower(
            name,
        ),
    ensures
        at < environments.len() ==> variables_named(environments, name)
            == environments[at].variables,
        at == environments.len() ==> variables_named(environments, name).len() == 0,
    decreases at,
{
    if at > 0 {
        let rest = environments.drop_first();
        assert(text::ascii_lower(environments[0].name) != text::ascii_lower(name));
        assert forall|i: int| 0 <= i < at - 1 implies text::ascii_lower((#[trigger] rest[i]).name)
            != text::ascii_lower(name) by {
            assert(rest[i] == environments[i + 1]);
        }
        law_variables_are_found_by_name(rest, name, at - 1);
    }
}

/// There are three environments to start with, each with a host, an email and a password, and two
/// requests.
pub proof fn law_starting_workspace()
    ensures
        starting_environments().len() == 3,
        starting_environments()[0].name == "dev"@,
        starting_environments()[1].name == "staging"@,
        starting_environments()[2].name == "prod"@,
        starting_environments()[0].variables[0] == ("api_host"@, "localhost:8080"@),
        starting_environments()[1].variables[0] == ("api_host"@, "staging-api.example.com"@),
        starting_environments()[2].variables[0] == ("api_host"@, "api.example.com"@),
        forall|i: int|
            0 <= i < 3 ==> {
                let variables = (#[trigger] starting_environments()[i]).variables;
                variables.len() == 3 && variables[1].0 == "email"@ && variables[2].0
                    == "password"@
            },
        starting_endpoints().len() == 2,
        starting_endpoints()[0].method == "GET"@,
        starting_endpoints()[0].headers.len() == 0,
        starting_endpoints()[0].body.len() == 0,
        starting_endpoints()[1].method == "POST"@,
        starting_endpoints()[1].headers == seq![("Content-Type"@, "application/json"@)],
        starting_endpoints()[1].body_mode == "raw"@,
{
}

} // verus!
