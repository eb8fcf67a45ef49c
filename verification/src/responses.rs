//! Sending requests, and what is done with the answers.
use crate::http;
use crate::http::build_curl_command;
use crate::json;
use crate::json::{get, json_value_to_string, parse_json, Json, JsonTree};
use crate::models;
use crate::models::{
    Endpoint, EnvironmentView, KeyValue, ResponseScript, ResponseState, ResponseView,
};
use crate::table::TextMap;
use crate::tabs;
use crate::tabs::{find_tab, TabView};
use crate::text;
use crate::text::{
    concat4, copy_opt, parse_index, same_text, split_any, trimmed,
};
use crate::workspace;
use crate::workspace::{find_environment, Workspace, WorkspaceView};
use vstd::prelude::*;

verus! {

// ---------------------------------------------------------------------------
// Values in a response
// ---------------------------------------------------------------------------

/// The value at one step of a path: an item by its number, a field by its name.
pub open spec fn step(tree: JsonTree, segment: Seq<char>) -> Option<JsonTree> {
    match text::index_value(segment) {
        Some(i) => match json::as_list(tree) {
            Some(items) => if i < items.len() {
                Some(items[i as int])
            } else {
                None
            },
            None => None,
        },
        None => match json::as_record(tree) {
            Some(fields) => json::field(fields, segment),
            None => None,
        },
    }
}

/// The value at the end of some steps.
pub open spec fn walked(tree: JsonTree, segments: Seq<Seq<char>>) -> Option<JsonTree>
    decreases segments.len(),
{
    if segments.len() == 0 {
        Some(tree)
    } else {
        match walked(tree, segments.drop_last()) {
            Some(reached) => step(reached, segments.last()),
            None => None,
        }
    }
}

/// A value as the text that a variable is set to.
pub open spec fn variable_text(tree: JsonTree) -> Seq<char> {
    match tree {
        JsonTree::Null => "null"@,
        _ => json::plain_text(tree),
    }
}

/// The text of the value at a path, whose steps are separated by dots.
pub open spec fn extracted(tree: JsonTree, path: Seq<char>) -> Option<Seq<char>> {
    match walked(tree, text::split_at(path, '.')) {
        Some(leaf) => Some(variable_text(leaf)),
        None => None,
    }
}

/// The text of the value at a path such as `data.access_token` or `items.0.id`.
pub fn json_path_extract(value: &Json, path: &str) -> (r: Option<String>)
    ensures
        text::opt(r) == extracted(value@, path@),
{
    let segments = split_any(path, '.', '.');
    let ghost all = text::views(segments@);
    let mut current: &Json = value;
    let mut i: usize = 0;
    while i < segments.len()
        invariant
            i <= segments@.len(),
            all == text::views(segments@),
            all == text::split_at(path@, '.'),
            walked(value@, all.take(i as int)) == Some(current@),
        decreases segments@.len() - i,
    {
        proof {
            assert(all.take(i + 1).drop_last() =~= all.take(i as int));
            assert(all.take(i + 1).last() == segments@[i as int]@);
        }
        let segment = segments[i].as_str();
        let next: Option<&Json> = match parse_index(segment) {
            Some(n) => match current.as_list() {
                Some(items) => if n < items.len() {
                    Some(&items[n])
                } else {
                    None
                },
                None => None,
            },
            None => match current.as_record() {
                Some(fields) => get(fields, segment),
                None => None,
            },
        };
        match next {
            Some(reached) => {
                current = reached;
            },
            None => {
                proof {
                    lemma_stuck(value@, all, i + 1);
                }
                return None;
            },
        }
        i += 1;
    }
    assert(all.take(all.len() as int) =~= all);
    Some(
        match current {
            Json::Null => "null".to_owned(),
            _ => json_value_to_string(current),
        },
    )
}

proof fn lemma_stuck(tree: JsonTree, segments: Seq<Seq<char>>, k: int)
    requires
        0 <= k <= segments.len(),
        walked(tree, segments.take(k)) is None,
    ensures
        walked(tree, segments) is None,
    decreases segments.len(),
{
    if k == segments.len() {
        assert(segments.take(k) =~= segments);
    } else {
        assert(segments.drop_last().take(k) =~= segments.take(k));
        lemma_stuck(tree, segments.drop_last(), k);
    }
}

// ---------------------------------------------------------------------------
// Rules
// ---------------------------------------------------------------------------

/// Where the variable with the name first stands; their number where there is none.
pub open spec fn variable_at(variables: Seq<(Seq<char>, Seq<char>)>, name: Seq<char>) -> int
    decreases variables.len(),
{
    if variables.len() == 0 || variables[0].0 == name {
        0
    } else {
        1 + variable_at(variables.drop_first(), name)
    }
}

/// The variables with one set: in its place, or behind all.
pub open spec fn with_variable(
    variables: Seq<(Seq<char>, Seq<char>)>,
    name: Seq<char>,
    value: Seq<char>,
) -> Seq<(Seq<char>, Seq<char>)> {
    let at = variable_at(variables, name);
    if at < variables.len() {
        variables.update(at, (variables[at].0, value))
    } else {
        variables.push((name, value))
    }
}

fn set_variable(variables: &mut Vec<KeyValue>, name: &str, value: String)
    ensures
        text::views(final(variables)@) == with_variable(
            text::views(old(variables)@),
            name@,
            value@,
        ),
{
    let ghost all = text::views(variables@);
    let mut i: usize = 0;
    assert(all.skip(0) =~= all);
    while i < variables.len()
        invariant
            i <= variables@.len(),
            variables@ == old(variables)@,
            all == text::views(variables@),
            variable_at(all, name@) == i + variable_at(all.skip(i as int), name@),
        decreases variables@.len() - i,
    {
        assert(all.skip(i as int)[0] == variables@[i as int]@);
        if same_text(variables[i].key.as_str(), name) {
            let pair = KeyValue { key: variables[i].key.clone(), value };
            proof {
                text::lemma_views_update(variables@, i as int, pair);
            }
            variables.set(i, pair);
            return;
        }
        assert(all.skip(i as int).drop_first() =~= all.skip(i + 1));
        i += 1;
    }
    let pair = KeyValue { key: name.to_owned(), value };
    proof {
        text::lemma_views_push(variables@, pair);
    }
    variables.push(pair);
}

/// The variables after some rules ran on a response, and how many rules set one.
pub open spec fn after_rules(
    tree: JsonTree,
    rules: Seq<(Seq<char>, Seq<char>)>,
    variables: Seq<(Seq<char>, Seq<char>)>,
) -> (Seq<(Seq<char>, Seq<char>)>, nat)
    decreases rules.len(),
{
    if rules.len() == 0 {
        (variables, 0)
    } else {
        let before = after_rules(tree, rules.drop_last(), variables);
        let path = text::trim(rules.last().0);
        let name = text::trim(rules.last().1);
        if path.len() == 0 || name.len() == 0 {
            before
        } else {
            match extracted(tree, path) {
                Some(value) => (with_variable(before.0, name, value), before.1 + 1),
                None => before,
            }
        }
    }
}

/// Runs rules on a response, and says how many set a variable.
pub fn run_rules(value: &Json, rules: &Vec<ResponseScript>, variables: &mut Vec<KeyValue>) -> (ran:
    usize)
    ensures
        ({
            let after = after_rules(
                value@,
                text::views(rules@),
                text::views(old(variables)@),
            );
            &&& text::views(final(variables)@) == after.0
            &&& ran == after.1
        }),
{
    let ghost all = text::views(rules@);
    let ghost start = text::views(variables@);
    let mut ran: usize = 0;
    let mut i: usize = 0;
    while i < rules.len()
        invariant
            i <= rules@.len(),
            ran <= i,
            all == text::views(rules@),
            text::views(variables@) == after_rules(value@, all.take(i as int), start).0,
            ran == after_rules(value@, all.take(i as int), start).1,
        decreases rules@.len() - i,
    {
        proof {
            assert(all.take(i + 1).drop_last() =~= all.take(i as int));
            assert(all.take(i + 1).last() == rules@[i as int]@);
        }
        let path = trimmed(rules[i].extract_key.as_str());
        let name = trimmed(rules[i].env_var.as_str());
        if !path.as_str().is_empty() && !name.as_str().is_empty() {
            match json_path_extract(value, path.as_str()) {
                Some(content) => {
                    set_variable(variables, name.as_str(), content);
                    ran += 1;
                },
                None => {},
            }
        }
        i += 1;
    }
    assert(all.take(all.len() as int) =~= all);
    ran
}

/// A rule that finds its value sets its variable to it.
pub proof fn law_rule_sets_its_variable(
    tree: JsonTree,
    rule: (Seq<char>, Seq<char>),
    variables: Seq<(Seq<char>, Seq<char>)>,
)
    requires
        !text::is_blank(rule.0),
        !text::is_blank(rule.1),
        extracted(tree, text::trim(rule.0)) is Some,
    ensures
        ({
            let after = after_rules(tree, seq![rule], variables).0;
            let at = variable_at(after, text::trim(rule.1));
            &&& at < after.len()
            &&& Some(after[at].1) == extracted(tree, text::trim(rule.0))
        }),
{
    reveal_with_fuel(after_rules, 2);
    assert(seq![rule].drop_last() =~= Seq::<(Seq<char>, Seq<char>)>::empty());
    let name = text::trim(rule.1);
    let value = extracted(tree, text::trim(rule.0))->0;
    lemma_variable_is_set(variables, name, value);
}

proof fn lemma_variable_at(variables: Seq<(Seq<char>, Seq<char>)>, name: Seq<char>, i: int)
    requires
        0 <= i <= variables.len(),
        forall|j: int| 0 <= j < i ==> (#[trigger] variables[j]).0 != name,
        i == variables.len() || variables[i].0 == name,
    ensures
        variable_at(variables, name) == i,
    decreases i,
{
    if i > 0 {
        let rest = variables.drop_first();
        assert(variables[0].0 != name);
        assert forall|j: int| 0 <= j < i - 1 implies (#[trigger] rest[j]).0 != name by {
            assert(rest[j] == variables[j + 1]);
        }
        lemma_variable_at(rest, name, i - 1);
    }
}

proof fn lemma_variable_bounds(variables: Seq<(Seq<char>, Seq<char>)>, name: Seq<char>)
    ensures
        0 <= variable_at(variables, name) <= variables.len(),
        forall|j: int| 0 <= j < variable_at(variables, name) ==> (#[trigger] variables[j]).0 != name,
        variable_at(variables, name) < variables.len() ==> variables[variable_at(
            variables,
            name,
        )].0 == name,
    decreases variables.len(),
{
    if variables.len() == 0 || variables[0].0 == name {
    } else {
        let rest = variables.drop_first();
        lemma_variable_bounds(rest, name);
        assert forall|j: int| 0 <= j < variable_at(variables, name) implies (
        #[trigger] variables[j]).0 != name by {
            if j > 0 {
                assert(rest[j - 1] == variables[j]);
            }
        }
    }
}

proof fn lemma_variable_is_set(
    variables: Seq<(Seq<char>, Seq<char>)>,
    name: Seq<char>,
    value: Seq<char>,
)
    ensures
        ({
            let after = with_variable(variables, name, value);
            let at = variable_at(after, name);
            &&& 0 <= at < after.len()
            &&& after[at] == (name, value)
        }),
{
    let at = variable_at(variables, name);
    let after = with_variable(variables, name, value);
    lemma_variable_bounds(variables, name);
    assert forall|j: int| 0 <= j < at implies (#[trigger] after[j]).0 != name by {
        assert(after[j] == variables[j]);
    }
    lemma_variable_at(after, name, at);
}

// ---------------------------------------------------------------------------
// Sending
// ---------------------------------------------------------------------------

/// The tab while its request is under way.
pub open spec fn sending_tab(tab: TabView, environment: Option<Seq<char>>) -> TabView {
    tabs::without_caches(
        TabView {
            scripts_ran: 0,
            inflight_environment_id: environment,
            response: models::blank_response("Sending request..."@),
            ..tab
        },
    )
}

/// The workspace while the request of the active tab is under way; where none is active, only a
/// message.
pub open spec fn sending(ws: WorkspaceView, now: u64) -> WorkspaceView {
    let open = ws.open_request_tabs;
    let at = match ws.active_request_tab_id {
        Some(id) => tabs::tab_index(open, id),
        None => open.len() as int,
    };
    if at < open.len() {
        workspace::ui_touched(
            WorkspaceView {
                in_flight_tab_id: Some(open[at].id),
                open_request_tabs: open.update(
                    at,
                    sending_tab(open[at], ws.selected_environment_id),
                ),
                status_line: "Sending "@ + open[at].draft.method + " "@ + open[at].draft.url,
                ..ws
            },
            now,
        )
    } else {
        WorkspaceView { status_line: "Select an endpoint first."@, ..ws }
    }
}

/// What is handed to the worker that sends a request.
pub struct OutgoingRequest {
    pub tab_id: String,
    pub endpoint: Endpoint,
    pub env_vars: TextMap<String>,
}

impl Workspace {
    /// Begins to send the request of the active tab, unless one is under way.
    pub fn send_selected_request(&mut self, now: u64) -> (r: Option<OutgoingRequest>)
        ensures
            ({
                let before = old(self)@;
                let open = before.open_request_tabs;
                if before.in_flight_tab_id is Some {
                    r is None && final(self)@ == before
                } else {
                    &&& final(self)@ == sending(before, now)
                    &&& match before.active_request_tab_id {
                        Some(id) => {
                            let at = tabs::tab_index(open, id);
                            if at < open.len() {
                                r matches Some(request) && request.tab_id@ == open[at].id
                                    && request.endpoint@ == open[at].draft && request.env_vars@
                                    == workspace::selected_variables(before)
                            } else {
                                r is None
                            }
                        },
                        None => r is None,
                    }
                }
            }),
    {
        if self.in_flight_tab_id.is_some() {
            return None;
        }
        let i = match self.active_request_tab_index() {
            Some(i) => i,
            None => {
                self.status_line = "Select an endpoint first.".to_owned();
                return None;
            },
        };
        let env_vars = self.selected_environment_variables();
        let ghost before = self.open_request_tabs@;
        let mut tab = self.open_request_tabs.remove(i);
        let tab_id = tab.id.clone();
        let endpoint = tab.draft.clone();
        self.in_flight_tab_id = Some(tab_id.clone());
        tab.scripts_ran = 0;
        tab.inflight_environment_id = copy_opt(&self.selected_environment_id);
        tab.response.clear_for_request();
        tab.clear_response_caches();
        self.open_request_tabs.insert(i, tab);
        assert(self.open_request_tabs@ =~= before.update(i as int, tab));
        proof {
            text::lemma_views_update(before, i as int, tab);
        }
        self.status_line = concat4(
            "Sending ",
            endpoint.method.as_str(),
            " ",
            endpoint.url.as_str(),
        );
        self.mark_workspace_ui_dirty(now);
        Some(OutgoingRequest { tab_id, endpoint, env_vars })
    }

    /// The request of the active tab as a cURL command.
    pub fn copy_curl_for_selected_request(&mut self) -> (r: Option<String>)
        ensures
            ({
                let before = old(self)@;
                let open = before.open_request_tabs;
                let at = match before.active_request_tab_id {
                    Some(id) => tabs::tab_index(open, id),
                    None => open.len() as int,
                };
                if at < open.len() {
                    &&& r matches Some(command) && command@ == http::curl_command(
                        open[at].draft,
                        workspace::selected_variables(before),
                    )
                    &&& final(self)@ == (WorkspaceView {
                        status_line: "Copied cURL for "@ + open[at].draft.method + " "@
                            + open[at].draft.name,
                        ..before
                    })
                } else {
                    &&& r is None
                    &&& final(self)@ == (WorkspaceView {
                        status_line: "Select an endpoint first."@,
                        ..before
                    })
                }
            }),
    {
        match self.active_request_tab_index() {
            Some(i) => {
                let env_vars = self.selected_environment_variables();
                let endpoint = &self.open_request_tabs[i].draft;
                let command = build_curl_command(endpoint, &env_vars);
                self.status_line = concat4(
                    "Copied cURL for ",
                    endpoint.method.as_str(),
                    " ",
                    endpoint.name.as_str(),
                );
                Some(command)
            },
            None => {
                self.status_line = "Select an endpoint first.".to_owned();
                None
            },
        }
    }
}

// ---------------------------------------------------------------------------
// Answers
// ---------------------------------------------------------------------------

/// What the rules of a tab do to the variables of an environment, and how many of them set one;
/// `None` where no rule is run: the answer is no success or not JSON, or there are no rules.
pub open spec fn rules_outcome(tab: TabView, variables: Seq<(Seq<char>, Seq<char>)>) -> Option<
    (Seq<(Seq<char>, Seq<char>)>, nat),
> {
    match tab.response.status_code {
        Some(status) => if 200 <= status < 300 && tab.draft.scripts.len() > 0 {
            match json::parsed_json(tab.response.body) {
                Some(tree) => Some(after_rules(tree, tab.draft.scripts, variables)),
                None => None,
            }
        } else {
            None
        },
        None => None,
    }
}

/// The workspace after the rules of a tab ran on its response. They write into the environment
/// that was selected when the request was sent.
pub open spec fn scripted(ws: WorkspaceView, tab_id: Seq<char>, now: u64) -> WorkspaceView {
    let open = ws.open_request_tabs;
    let at = tabs::tab_index(open, tab_id);
    if at >= open.len() {
        ws
    } else {
        match open[at].inflight_environment_id {
            Some(id) => {
                let e = workspace::environment_at(ws.environments, id);
                if e >= ws.environments.len() {
                    ws
                } else {
                    let environment = ws.environments[e];
                    match rules_outcome(open[at], environment.variables) {
                        Some((variables, ran)) => if ran > 0 {
                            workspace::ui_touched(
                                workspace::touched(
                                    WorkspaceView {
                                        environments: ws.environments.update(
                                            e,
                                            EnvironmentView { variables, ..environment },
                                        ),
                                        open_request_tabs: open.update(
                                            at,
                                            TabView { scripts_ran: ran as usize, ..open[at] },
                                        ),
                                        ..ws
                                    },
                                    now,
                                ),
                                now,
                            )
                        } else {
                            ws
                        },
                        None => ws,
                    }
                }
            },
            None => ws,
        }
    }
}

/// The workspace once the answer to the request of a tab is there.
pub open spec fn answered(
    ws: WorkspaceView,
    tab_id: Seq<char>,
    response: ResponseView,
    now: u64,
) -> WorkspaceView {
    let open = ws.open_request_tabs;
    let at = tabs::tab_index(open, tab_id);
    let shown = if at < open.len() {
        let tab = tabs::with_caches(TabView { response, ..open[at] });
        scripted(WorkspaceView { open_request_tabs: open.update(at, tab), ..ws }, tab_id, now)
    } else {
        ws
    };
    workspace::ui_touched(WorkspaceView { in_flight_tab_id: None, ..shown }, now)
}

/// The workspace when no answer will come.
pub open spec fn unanswered(ws: WorkspaceView) -> WorkspaceView {
    let open = ws.open_request_tabs;
    let at = match ws.in_flight_tab_id {
        Some(id) => tabs::tab_index(open, id),
        None => open.len() as int,
    };
    WorkspaceView {
        in_flight_tab_id: None,
        open_request_tabs: if at < open.len() {
            open.update(
                at,
                tabs::without_caches(
                    TabView {
                        response: ResponseView {
                            error: Some("Request worker disconnected."@),
                            ..open[at].response
                        },
                        ..open[at]
                    },
                ),
            )
        } else {
            open
        },
        ..ws
    }
}

impl Workspace {
    /// Runs the rules of a tab on its response.
    pub fn run_response_scripts(&mut self, tab_id: &str, now: u64)
        ensures
            final(self)@ == scripted(old(self)@, tab_id@, now),
    {
        let at = find_tab(&self.open_request_tabs, tab_id);
        if at >= self.open_request_tabs.len() {
            return;
        }
        let tab = &self.open_request_tabs[at];
        let successful = match tab.response.status_code {
            Some(status) => 200 <= status && status < 300,
            None => false,
        };
        if !successful || tab.draft.scripts.len() == 0 {
            return;
        }
        let value = match parse_json(tab.response.body.as_str()) {
            Some(value) => value,
            None => {
                return;
            },
        };
        let e = match &tab.inflight_environment_id {
            Some(id) => find_environment(&self.environments, id.as_str()),
            None => {
                return;
            },
        };
        if e >= self.environments.len() {
            return;
        }
        let ghost before = self@;
        let ghost before_environments = self.environments@;
        let ghost before_tabs = self.open_request_tabs@;
        let mut environment = self.environments.remove(e);
        let ran = run_rules(&value, &tab.draft.scripts, &mut environment.variables);
        self.environments.insert(e, environment);
        assert(self.environments@ =~= before_environments.update(e as int, environment));
        proof {
            text::lemma_views_update(before_environments, e as int, environment);
            if ran == 0 {
                lemma_no_rule_ran(
                    value@,
                    before.open_request_tabs[at as int].draft.scripts,
                    before.environments[e as int].variables,
                );
                assert(environment@ =~= before.environments[e as int]);
                assert(text::views(self.environments@) =~= before.environments);
            }
        }
        if ran > 0 {
            let mut tab = self.open_request_tabs.remove(at);
            tab.scripts_ran = ran;
            self.open_request_tabs.insert(at, tab);
            assert(self.open_request_tabs@ =~= before_tabs.update(at as int, tab));
            proof {
                text::lemma_views_update(before_tabs, at as int, tab);
            }
            self.mark_dirty(now);
            self.mark_workspace_ui_dirty(now);
        }
    }

    /// Takes in the answer to the request of a tab.
    pub fn receive_response(&mut self, tab_id: &str, response: ResponseState, now: u64)
        ensures
            final(self)@ == answered(old(self)@, tab_id@, response@, now),
    {
        let at = find_tab(&self.open_request_tabs, tab_id);
        if at < self.open_request_tabs.len() {
            let ghost before = self.open_request_tabs@;
            let mut tab = self.open_request_tabs.remove(at);
            tab.response = response;
            tab.rebuild_response_caches();
            self.open_request_tabs.insert(at, tab);
            assert(self.open_request_tabs@ =~= before.update(at as int, tab));
            proof {
                text::lemma_views_update(before, at as int, tab);
            }
            self.run_response_scripts(tab_id, now);
        }
        self.in_flight_tab_id = None;
        self.mark_workspace_ui_dirty(now);
    }

    /// Notes that no answer to the request that is under way will come.
    pub fn lose_response(&mut self)
        ensures
            final(self)@ == unanswered(old(self)@),
    {
        let at = match &self.in_flight_tab_id {
            Some(id) => find_tab(&self.open_request_tabs, id.as_str()),
            None => self.open_request_tabs.len(),
        };
        self.in_flight_tab_id = None;
        if at < self.open_request_tabs.len() {
            let ghost before = self.open_request_tabs@;
            let mut tab = self.open_request_tabs.remove(at);
            tab.response.error = Some("Request worker disconnected.".to_owned());
            tab.clear_response_caches();
            self.open_request_tabs.insert(at, tab);
            assert(self.open_request_tabs@ =~= before.update(at as int, tab));
            proof {
                text::lemma_views_update(before, at as int, tab);
            }
        }
    }
}

proof fn lemma_no_rule_ran(
    tree: JsonTree,
    rules: Seq<(Seq<char>, Seq<char>)>,
    variables: Seq<(Seq<char>, Seq<char>)>,
)
    requires
        after_rules(tree, rules, variables).1 == 0,
    ensures
        after_rules(tree, rules, variables).0 == variables,
    decreases rules.len(),
{
    if rules.len() > 0 {
        lemma_no_rule_ran(tree, rules.drop_last(), variables);
    }
}

/// An answer that is no success leaves the environments alone.
pub proof fn law_rules_run_on_success_only(
    ws: WorkspaceView,
    tab_id: Seq<char>,
    response: ResponseView,
    now: u64,
)
    requires
        match response.status_code {
            Some(status) => !(200 <= status < 300),
            None => true,
        },
    ensures
        answered(ws, tab_id, response, now).environments == ws.environments,
{
    let open = ws.open_request_tabs;
    let at = tabs::tab_index(open, tab_id);
    tabs::lemma_tab_index(open, tab_id);
    if at < open.len() {
        let tab = tabs::with_caches(TabView { response, ..open[at] });
        let after = open.update(at, tab);
        assert forall|k: int| 0 <= k < at implies (#[trigger] after[k]).id != tab_id by {
            assert(after[k] == open[k]);
        }
        tabs::lemma_tab_index(after, tab_id);
        assert(after[at].id == tab_id);
        assert(tabs::has_tab(after, tab_id));
        let found = tabs::tab_index(after, tab_id);
        assert(found <= at) by {
            if found > at {
                assert(after[at].id != tab_id);
            }
        }
        assert(found == at);
    }
}

// ---------------------------------------------------------------------------
// Laws
// ---------------------------------------------------------------------------

/// A name that is a step of a path to a field: no dot in it, and not a number.
pub open spec fn is_step_name(name: Seq<char>) -> bool {
    &&& !name.contains('.')
    &&& name.len() > 0
    &&& name[0] != '+'
    &&& exists|i: int| 0 <= i < name.len() && !('0' <= #[trigger] name[i] && name[i] <= '9')
}

/// A path that is the name of a field finds the first field of that name; where there is none, or
/// where the value is no record, it finds nothing.
pub proof fn law_field_is_found(tree: JsonTree, name: Seq<char>)
    requires
        is_step_name(name),
    ensures
        tree matches JsonTree::Record(fields) ==> forall|i: int|
            0 <= i < fields.len() && (#[trigger] fields[i]).0 == name && (forall|j: int|
                0 <= j < i ==> (#[trigger] fields[j]).0 != name) ==> extracted(tree, name) == Some(
                variable_text(fields[i].1),
            ),
        (tree matches JsonTree::Record(fields) ==> forall|i: int|
            0 <= i < fields.len() ==> (#[trigger] fields[i]).0 != name) ==> extracted(tree, name)
            is None,
{
    lemma_single_step(tree, name);
    lemma_is_no_number(name);
    if let JsonTree::Record(fields) = tree {
        assert forall|i: int|
            0 <= i < fields.len() && (#[trigger] fields[i]).0 == name && (forall|j: int|
                0 <= j < i ==> (#[trigger] fields[j]).0 != name) implies extracted(tree, name)
            == Some(variable_text(fields[i].1)) by {
            lemma_first_field(fields, name, i);
        }
        if forall|i: int| 0 <= i < fields.len() ==> (#[trigger] fields[i]).0 != name {
            lemma_no_field(fields, name);
        }
    }
}

/// A path that is a number finds the item of a list at that place, counted from zero; beyond the
/// end, and where the value is no list, it finds nothing.
pub proof fn law_item_is_found(tree: JsonTree, n: nat)
    requires
        n <= usize::MAX,
    ensures
        extracted(tree, text::decimal(n)) == (match tree {
            JsonTree::List(items) => if n < items.len() {
                Some(variable_text(items[n as int]))
            } else {
                None
            },
            _ => None,
        }),
{
    text::lemma_decimal_is_read(n);
    let path = text::decimal(n);
    assert(!path.contains('.')) by {
        if path.contains('.') {
            let k = choose|k: int| 0 <= k < path.len() && path[k] == '.';
            assert('0' <= path[k] && path[k] <= '9');
        }
    }
    lemma_single_step(tree, path);
}

/// A path goes one step after the other: behind the first step, the rest of it counts for the
/// value that was reached.
pub proof fn law_path_goes_step_by_step(
    tree: JsonTree,
    name: Seq<char>,
    rest: Seq<char>,
    fields: Seq<(Seq<char>, JsonTree)>,
    i: int,
)
    requires
        is_step_name(name),
        tree == JsonTree::Record(fields),
        0 <= i < fields.len(),
        fields[i].0 == name,
        forall|j: int| 0 <= j < i ==> (#[trigger] fields[j]).0 != name,
    ensures
        extracted(tree, name + "."@ + rest) == extracted(fields[i].1, rest),
{
    reveal_strlit(".");
    lemma_is_no_number(name);
    lemma_first_field(fields, name, i);
    lemma_first_step(tree, name, rest);
}

/// Like a field, an item is a step of a longer path.
pub proof fn law_path_goes_through_items(
    items: Seq<JsonTree>,
    n: nat,
    rest: Seq<char>,
)
    requires
        n <= usize::MAX,
        n < items.len(),
    ensures
        extracted(JsonTree::List(items), text::decimal(n) + "."@ + rest) == extracted(
            items[n as int],
            rest,
        ),
{
    text::lemma_decimal_is_read(n);
    let path = text::decimal(n);
    assert(!path.contains('.')) by {
        if path.contains('.') {
            let k = choose|k: int| 0 <= k < path.len() && path[k] == '.';
            assert('0' <= path[k] && path[k] <= '9');
        }
    }
    lemma_first_step(JsonTree::List(items), path, rest);
}

/// A text is taken as it stands, a truth value and nothing by their names in JSON.
pub proof fn law_values_become_texts(content: Seq<char>)
    ensures
        variable_text(JsonTree::Text(content)) == content,
        variable_text(JsonTree::Bool(true)) == "true"@,
        variable_text(JsonTree::Bool(false)) == "false"@,
        variable_text(JsonTree::Null) == "null"@,
{
}

/// A number is taken as `serde_json` displays it, a list or record as JSON on one line.
pub proof fn law_other_values_become_json(tree: JsonTree)
    ensures
        match tree {
            JsonTree::Number(number) => variable_text(tree) == json::number_text(number),
            JsonTree::List(_) => variable_text(tree) == json::compact_text(json::in_order(tree)),
            JsonTree::Record(_) => variable_text(tree) == json::compact_text(json::in_order(tree)),
            _ => true,
        },
{
}

proof fn lemma_is_no_number(name: Seq<char>)
    requires
        is_step_name(name),
    ensures
        text::index_value(name) is None,
{
    let i = choose|i: int| 0 <= i < name.len() && !('0' <= #[trigger] name[i] && name[i] <= '9');
    text::lemma_no_number(name, i);
}

proof fn lemma_single_step(tree: JsonTree, path: Seq<char>)
    requires
        !path.contains('.'),
    ensures
        extracted(tree, path) == (match step(tree, path) {
            Some(leaf) => Some(variable_text(leaf)),
            None => None,
        }),
{
    assert forall|j: int| 0 <= j < path.len() implies path[j] != '.' by {
        assert(path.contains(path[j]));
    }
    text::lemma_first_of(path, '.', '.', path.len() as int);
    let segments = text::split_at(path, '.');
    assert(segments =~= seq![path]);
    assert(segments.drop_last() =~= Seq::<Seq<char>>::empty());
    reveal_with_fuel(walked, 2);
}

proof fn lemma_first_step(tree: JsonTree, name: Seq<char>, rest: Seq<char>)
    requires
        !name.contains('.'),
    ensures
        extracted(tree, name + "."@ + rest) == (match step(tree, name) {
            Some(reached) => extracted(reached, rest),
            None => None,
        }),
{
    reveal_strlit(".");
    let path = name + "."@ + rest;
    assert forall|j: int| 0 <= j < name.len() implies path[j] != '.' by {
        assert(name.contains(name[j]));
    }
    text::lemma_first_of(path, '.', '.', name.len() as int);
    assert(path.take(name.len() as int) =~= name);
    assert(path.skip(name.len() as int + 1) =~= rest);
    let segments = text::split_at(rest, '.');
    assert(text::split_at(path, '.') =~= seq![name] + segments);
    lemma_walked_on(tree, name, segments);
}

proof fn lemma_walked_on(tree: JsonTree, first: Seq<char>, segments: Seq<Seq<char>>)
    ensures
        walked(tree, seq![first] + segments) == (match step(tree, first) {
            Some(reached) => walked(reached, segments),
            None => None,
        }),
    decreases segments.len(),
{
    let all = seq![first] + segments;
    if segments.len() == 0 {
        assert(all.drop_last() =~= Seq::<Seq<char>>::empty());
        reveal_with_fuel(walked, 2);
        assert(all.last() == first);
    } else {
        lemma_walked_on(tree, first, segments.drop_last());
        assert(all.drop_last() =~= seq![first] + segments.drop_last());
        assert(all.last() == segments.last());
    }
}

proof fn lemma_first_field(fields: Seq<(Seq<char>, JsonTree)>, name: Seq<char>, i: int)
    requires
        0 <= i < fields.len(),
        fields[i].0 == name,
        forall|j: int| 0 <= j < i ==> (#[trigger] fields[j]).0 != name,
    ensures
        json::field(fields, name) == Some(fields[i].1),
    decreases i,
{
    if i > 0 {
        let rest = fields.drop_first();
        assert(fields[0].0 != name);
        assert forall|j: int| 0 <= j < i - 1 implies (#[trigger] rest[j]).0 != name by {
            assert(rest[j] == fields[j + 1]);
        }
        lemma_first_field(rest, name, i - 1);
    }
}

proof fn lemma_no_field(fields: Seq<(Seq<char>, JsonTree)>, name: Seq<char>)
    requires
        forall|i: int| 0 <= i < fields.len() ==> (#[trigger] fields[i]).0 != name,
    ensures
        json::field(fields, name) is None,
    decreases fields.len(),
{
    if fields.len() > 0 {
        let rest = fields.drop_first();
        assert(fields[0].0 != name);
        assert forall|j: int| 0 <= j < rest.len() implies (#[trigger] rest[j]).0 != name by {
            assert(rest[j] == fields[j + 1]);
        }
        lemma_no_field(rest, name);
    }
}

/// Whether a script finds a value in the answer: its path and its variable are named, and the
/// path leads to the value.
pub open spec fn finds(tree: JsonTree, script: (Seq<char>, Seq<char>), value: Seq<char>) -> bool {
    &&& !text::is_blank(script.0)
    &&& !text::is_blank(script.1)
    &&& extracted(tree, text::trim(script.0)) == Some(value)
}

/// Whether the tab is the first that has the id.
pub open spec fn is_tab_at(open: Seq<TabView>, tab_id: Seq<char>, at: int) -> bool {
    &&& 0 <= at < open.len()
    &&& open[at].id == tab_id
    &&& forall|k: int| 0 <= k < at ==> (#[trigger] open[k]).id != tab_id
}

/// Whether the environment is the first that has the id.
pub open spec fn is_environment_at(
    environments: Seq<EnvironmentView>,
    id: Seq<char>,
    at: int,
) -> bool {
    &&& 0 <= at < environments.len()
    &&& environments[at].id == id
    &&& forall|k: int| 0 <= k < at ==> (#[trigger] environments[k]).id != id
}

/// On an answer of any success, from 200 to 299, whose body is JSON, each script that finds a
/// value sets its variable to it in the environment in which the request was sent, unless a later
/// script sets the same variable.
pub proof fn law_scripts_run_on_every_success(
    ws: WorkspaceView,
    tab_id: Seq<char>,
    response: ResponseView,
    now: u64,
    at: int,
    id: Seq<char>,
    e: int,
    status: u16,
    tree: JsonTree,
    r: int,
    value: Seq<char>,
)
    requires
        is_tab_at(ws.open_request_tabs, tab_id, at),
        ws.open_request_tabs[at].inflight_environment_id == Some(id),
        is_environment_at(ws.environments, id, e),
        response.status_code == Some(status),
        200 <= status <= 299,
        json::json_reading(response.body) == Ok::<JsonTree, Seq<char>>(tree),
        0 <= r < ws.open_request_tabs[at].draft.scripts.len() <= usize::MAX,
        finds(tree, ws.open_request_tabs[at].draft.scripts[r], value),
        forall|k: int|
            r < k < ws.open_request_tabs[at].draft.scripts.len() ==> text::trim(
                (#[trigger] ws.open_request_tabs[at].draft.scripts[k]).1,
            ) != text::trim(ws.open_request_tabs[at].draft.scripts[r].1),
    ensures
        ({
            let after = answered(ws, tab_id, response, now);
            let name = text::trim(ws.open_request_tabs[at].draft.scripts[r].1);
            let variables = after.environments[e].variables;
            &&& after.environments.len() == ws.environments.len()
            &&& exists|k: int|
                0 <= k < variables.len() && #[trigger] variables[k] == (name, value) && forall|
                    j: int,
                |
                    0 <= j < k ==> (#[trigger] variables[j]).0 != name
            &&& after.dirty && after.last_mutation == now
            &&& after.open_request_tabs[at].scripts_ran == ws.open_request_tabs[at].draft.scripts.filter(
                |script: (Seq<char>, Seq<char>)|
                    exists|found: Seq<char>| finds(tree, script, found),
            ).len()
        }),
{
    let scripts = ws.open_request_tabs[at].draft.scripts;
    let variables = ws.environments[e].variables;
    let name = text::trim(scripts[r].1);
    lemma_answered(ws, tab_id, response, now, at, id, e);
    lemma_script_sets(tree, scripts, variables, r, value);
    let after = after_rules(tree, scripts, variables);
    lemma_rule_count(tree, scripts, variables);
    lemma_variable_bounds(after.0, name);
    let k = variable_at(after.0, name);
    assert(after.0[k] == (name, value));
    assert(json::parsed_json(response.body) == Some(tree));
    let shown = answered(ws, tab_id, response, now);
    assert(shown.environments[e].variables == after.0);
}

/// What an answer of a success does to nothing but the variables of the scripts: each other
/// variable, environment and tab stays, and the answer is shown in its tab.
pub proof fn law_scripts_change_their_variables_only(
    ws: WorkspaceView,
    tab_id: Seq<char>,
    response: ResponseView,
    now: u64,
    at: int,
)
    requires
        is_tab_at(ws.open_request_tabs, tab_id, at),
    ensures
        ({
            let after = answered(ws, tab_id, response, now);
            let tab = ws.open_request_tabs[at];
            &&& after.in_flight_tab_id is None
            &&& after.open_request_tabs.len() == ws.open_request_tabs.len()
            &&& after.open_request_tabs[at].response == response
            &&& after.open_request_tabs[at].draft == tab.draft
            &&& forall|k: int|
                0 <= k < ws.open_request_tabs.len() && k != at ==> #[trigger] after.open_request_tabs[k]
                    == ws.open_request_tabs[k]
            &&& after.saved_endpoints == ws.saved_endpoints
            &&& after.selected_environment_id == ws.selected_environment_id
            &&& after.environments.len() == ws.environments.len()
            &&& forall|k: int|
                0 <= k < ws.environments.len() ==> {
                    let environment = #[trigger] after.environments[k];
                    &&& environment.id == ws.environments[k].id
                    &&& environment.name == ws.environments[k].name
                    &&& environment.file_name == ws.environments[k].file_name
                    &&& Some(environment.id) != tab.inflight_environment_id ==> environment
                        == ws.environments[k]
                    &&& forall|v: int|
                        0 <= v < ws.environments[k].variables.len() ==> {
                            let variable = #[trigger] environment.variables[v];
                            &&& variable.0 == ws.environments[k].variables[v].0
                            &&& (forall|r: int|
                                0 <= r < tab.draft.scripts.len() ==> text::trim(
                                    (#[trigger] tab.draft.scripts[r]).1,
                                ) != variable.0) ==> variable.1
                                == ws.environments[k].variables[v].1
                        }
                }
        }),
{
    let tab = ws.open_request_tabs[at];
    lemma_shown_tab(ws, tab_id, response, at);
    if let Some(id) = tab.inflight_environment_id {
        let e = workspace::environment_at(ws.environments, id);
        workspace::lemma_environment_at(ws.environments, id);
        if e < ws.environments.len() {
            if let Some(tree) = json::parsed_json(response.body) {
                lemma_rules_keep(tree, tab.draft.scripts, ws.environments[e].variables);
            }
        }
    }
}

proof fn lemma_shown_tab(ws: WorkspaceView, tab_id: Seq<char>, response: ResponseView, at: int)
    requires
        is_tab_at(ws.open_request_tabs, tab_id, at),
    ensures
        tabs::tab_index(ws.open_request_tabs, tab_id) == at,
        tabs::tab_index(
            ws.open_request_tabs.update(
                at,
                tabs::with_caches(TabView { response, ..ws.open_request_tabs[at] }),
            ),
            tab_id,
        ) == at,
{
    let open = ws.open_request_tabs;
    let after = open.update(at, tabs::with_caches(TabView { response, ..open[at] }));
    lemma_tab_is_at(open, tab_id, at);
    assert forall|k: int| 0 <= k < at implies (#[trigger] after[k]).id != tab_id by {
        assert(after[k] == open[k]);
    }
    lemma_tab_is_at(after, tab_id, at);
}

proof fn lemma_tab_is_at(open: Seq<TabView>, tab_id: Seq<char>, at: int)
    requires
        is_tab_at(open, tab_id, at),
    ensures
        tabs::tab_index(open, tab_id) == at,
    decreases at,
{
    if at > 0 {
        let rest = open.drop_first();
        assert(open[0].id != tab_id);
        assert forall|k: int| 0 <= k < at - 1 implies (#[trigger] rest[k]).id != tab_id by {
            assert(rest[k] == open[k + 1]);
        }
        lemma_tab_is_at(rest, tab_id, at - 1);
    }
}

proof fn lemma_environment_is_at(environments: Seq<EnvironmentView>, id: Seq<char>, at: int)
    requires
        is_environment_at(environments, id, at),
    ensures
        workspace::environment_at(environments, id) == at,
    decreases at,
{
    if at > 0 {
        let rest = environments.drop_first();
        assert(environments[0].id != id);
        assert forall|k: int| 0 <= k < at - 1 implies (#[trigger] rest[k]).id != id by {
            assert(rest[k] == environments[k + 1]);
        }
        lemma_environment_is_at(rest, id, at - 1);
    }
}

proof fn lemma_answered(
    ws: WorkspaceView,
    tab_id: Seq<char>,
    response: ResponseView,
    now: u64,
    at: int,
    id: Seq<char>,
    e: int,
)
    requires
        is_tab_at(ws.open_request_tabs, tab_id, at),
        ws.open_request_tabs[at].inflight_environment_id == Some(id),
        is_environment_at(ws.environments, id, e),
    ensures
        tabs::tab_index(ws.open_request_tabs, tab_id) == at,
        tabs::tab_index(
            ws.open_request_tabs.update(
                at,
                tabs::with_caches(TabView { response, ..ws.open_request_tabs[at] }),
            ),
            tab_id,
        ) == at,
        workspace::environment_at(ws.environments, id) == e,
{
    lemma_shown_tab(ws, tab_id, response, at);
    lemma_environment_is_at(ws.environments, id, e);
}

proof fn lemma_rule_count(
    tree: JsonTree,
    rules: Seq<(Seq<char>, Seq<char>)>,
    variables: Seq<(Seq<char>, Seq<char>)>,
)
    ensures
        after_rules(tree, rules, variables).1 <= rules.len(),
        after_rules(tree, rules, variables).1 == rules.filter(
            |script: (Seq<char>, Seq<char>)| exists|found: Seq<char>| finds(tree, script, found),
        ).len(),
    decreases rules.len(),
{
    reveal(Seq::filter);
    if rules.len() > 0 {
        lemma_rule_count(tree, rules.drop_last(), variables);
        let last = rules.last();
        if !text::is_blank(last.0) && !text::is_blank(last.1) {
            if let Some(found) = extracted(tree, text::trim(last.0)) {
                assert(finds(tree, last, found));
            }
        }
    }
}

/// The last script that sets a variable decides its value.
proof fn lemma_script_sets(
    tree: JsonTree,
    scripts: Seq<(Seq<char>, Seq<char>)>,
    variables: Seq<(Seq<char>, Seq<char>)>,
    r: int,
    value: Seq<char>,
)
    requires
        0 <= r < scripts.len(),
        finds(tree, scripts[r], value),
        forall|k: int|
            r < k < scripts.len() ==> text::trim((#[trigger] scripts[k]).1) != text::trim(
                scripts[r].1,
            ),
    ensures
        ({
            let after = after_rules(tree, scripts, variables);
            let at = variable_at(after.0, text::trim(scripts[r].1));
            &&& 0 <= at < after.0.len()
            &&& after.0[at] == (text::trim(scripts[r].1), value)
            &&& after.1 > 0
        }),
    decreases scripts.len(),
{
    let name = text::trim(scripts[r].1);
    let rest = scripts.drop_last();
    let before = after_rules(tree, rest, variables);
    assert(scripts[scripts.len() - 1] == scripts.last());
    if r == scripts.len() - 1 {
        lemma_variable_is_set(before.0, name, value);
        assert(after_rules(tree, scripts, variables).0 == with_variable(before.0, name, value));
    } else {
        assert(rest[r] == scripts[r]);
        assert forall|k: int| r < k < rest.len() implies text::trim((#[trigger] rest[k]).1)
            != text::trim(rest[r].1) by {
            assert(rest[k] == scripts[k]);
        }
        lemma_script_sets(tree, rest, variables, r, value);
        let last = scripts[scripts.len() - 1];
        let other = text::trim(last.1);
        assert(other != name);
        if let Some(found) = extracted(tree, text::trim(last.0)) {
            lemma_other_variable_stays(before.0, other, found, name);
            lemma_variable_bounds(before.0, other);
        }
    }
}

proof fn lemma_other_variable_stays(
    variables: Seq<(Seq<char>, Seq<char>)>,
    name: Seq<char>,
    value: Seq<char>,
    other: Seq<char>,
)
    requires
        name != other,
        variable_at(variables, other) < variables.len(),
    ensures
        variable_at(with_variable(variables, name, value), other) == variable_at(
            variables,
            other,
        ),
        with_variable(variables, name, value)[variable_at(variables, other)]
            == variables[variable_at(variables, other)],
{
    let after = with_variable(variables, name, value);
    let at = variable_at(variables, other);
    lemma_variable_bounds(variables, other);
    lemma_variable_bounds(variables, name);
    assert forall|j: int| 0 <= j < at implies (#[trigger] after[j]).0 != other by {
        assert(after[j].0 == variables[j].0);
    }
    lemma_variable_at(after, other, at);
}

proof fn lemma_rules_keep(
    tree: JsonTree,
    rules: Seq<(Seq<char>, Seq<char>)>,
    variables: Seq<(Seq<char>, Seq<char>)>,
)
    ensures
        ({
            let after = after_rules(tree, rules, variables).0;
            &&& after.len() >= variables.len()
            &&& forall|v: int|
                0 <= v < variables.len() ==> {
                    let variable = #[trigger] after[v];
                    &&& variable.0 == variables[v].0
                    &&& (forall|r: int|
                        0 <= r < rules.len() ==> text::trim((#[trigger] rules[r]).1)
                            != variable.0) ==> variable.1 == variables[v].1
                }
        }),
    decreases rules.len(),
{
    if rules.len() > 0 {
        let rest = rules.drop_last();
        let before = after_rules(tree, rest, variables).0;
        let after = after_rules(tree, rules, variables).0;
        let name = text::trim(rules.last().1);
        lemma_rules_keep(tree, rest, variables);
        lemma_variable_bounds(before, name);
        assert(rules[rules.len() - 1] == rules.last());
        assert forall|v: int| 0 <= v < variables.len() implies {
            let variable = #[trigger] after[v];
            &&& variable.0 == variables[v].0
            &&& (forall|r: int|
                0 <= r < rules.len() ==> text::trim((#[trigger] rules[r]).1) != variable.0)
                ==> variable.1 == variables[v].1
        } by {
            assert(before[v].0 == variables[v].0);
            if forall|r: int|
                0 <= r < rules.len() ==> text::trim((#[trigger] rules[r]).1) != variables[v].0 {
                assert forall|r: int| 0 <= r < rest.len() implies text::trim(
                    (#[trigger] rest[r]).1,
                ) != variables[v].0 by {
                    assert(rest[r] == rules[r]);
                }
                assert(text::trim(rules[rules.len() - 1].1) != variables[v].0);
            }
        }
    }
}

/// A request is sent from the active tab as it stands there, unsaved changes included, and in
/// the environment that is selected; until the answer comes nothing is shown of an earlier one.
pub proof fn law_request_is_sent_from_the_active_tab(
    ws: WorkspaceView,
    id: Seq<char>,
    at: int,
    now: u64,
)
    requires
        ws.active_request_tab_id == Some(id),
        is_tab_at(ws.open_request_tabs, id, at),
    ensures
        ({
            let after = sending(ws, now);
            let tab = after.open_request_tabs[at];
            &&& after.in_flight_tab_id == Some(id)
            &&& tab.inflight_environment_id == ws.selected_environment_id
            &&& tab.draft == ws.open_request_tabs[at].draft
            &&& tab.id == id
            &&& tab.scripts_ran == 0
            &&& tab.response.status_code is None
            &&& tab.response.body.len() == 0
            &&& tab.parsed_response_json is None
            &&& tab.response_raw_chunks.len() == 0
            &&& after.open_request_tabs.len() == ws.open_request_tabs.len()
            &&& forall|k: int|
                0 <= k < ws.open_request_tabs.len() && k != at
                    ==> #[trigger] after.open_request_tabs[k] == ws.open_request_tabs[k]
            &&& after.environments == ws.environments
            &&& after.saved_endpoints == ws.saved_endpoints
        }),
{
    lemma_tab_is_at(ws.open_request_tabs, id, at);
}

/// Where the answer cannot come any more, the tab that waits for it says so, and another request
/// can be sent.
pub proof fn law_lost_answer_is_told(ws: WorkspaceView, id: Seq<char>, at: int)
    requires
        ws.in_flight_tab_id == Some(id),
        is_tab_at(ws.open_request_tabs, id, at),
    ensures
        ({
            let after = unanswered(ws);
            &&& after.in_flight_tab_id is None
            &&& after.open_request_tabs[at].response.error == Some("Request worker disconnected."@)
            &&& after.open_request_tabs[at].draft == ws.open_request_tabs[at].draft
            &&& after.open_request_tabs.len() == ws.open_request_tabs.len()
            &&& after.environments == ws.environments
        }),
{
    lemma_tab_is_at(ws.open_request_tabs, id, at);
}

} // verus!
