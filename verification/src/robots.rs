//! What a `robots.txt` allows, and for whom.
use crate::error::UnexpectedStatusError;
use crate::number::{parse_u64, read_u64};
use crate::robots_txt::{
    directive_views, is_readable, parse_robotstxt, robots_directives, Directive, DirectiveView,
};
use crate::string_map::{texts, StringMap};
use crate::time::Duration;
use crate::web::{url_path, user_agent, PageRequest};
use vstd::prelude::*;

verus! {

/// A rule that either allows or disallows an url pattern.
#[derive(Debug)]
pub struct Rule {
    /// The url pattern like `/`.
    pattern: String,
    /// Whether the `pattern` is allowed or disallowed.
    allow: bool,
}

/// What a [Rule] says.
pub struct RuleView {
    /// The url pattern.
    pub pattern: Seq<char>,
    /// Whether the pattern is allowed.
    pub allow: bool,
}

impl View for Rule {
    type V = RuleView;

    closed spec fn view(&self) -> RuleView {
        RuleView { pattern: self.pattern@, allow: self.allow }
    }
}

impl Rule {
    /// Whether the pattern allows accessing the url.
    pub fn is_allow(&self) -> (allow: bool)
        ensures
            allow == self@.allow,
    {
        self.allow
    }

    /// Whether the pattern disallows accessing the url.
    pub fn is_disallow(&self) -> (disallow: bool)
        ensures
            disallow == !self@.allow,
    {
        !self.allow
    }

    /// The url pattern.
    pub fn pattern(&self) -> (pattern: &String)
        ensures
            pattern@ == self@.pattern,
    {
        &self.pattern
    }

    /// Create a new rule to allow this `pattern`.
    pub fn allow(pattern: String) -> (rule: Self)
        ensures
            rule@ == (RuleView { pattern: pattern@, allow: true }),
    {
        Rule { pattern, allow: true }
    }

    /// Create a new rule to disallow this `pattern`.
    pub fn disallow(pattern: String) -> (rule: Self)
        ensures
            rule@ == (RuleView { pattern: pattern@, allow: false }),
    {
        Rule { pattern, allow: false }
    }
}

impl Clone for Rule {
    fn clone(&self) -> (copy: Self)
        ensures
            copy == *self,
    {
        Rule { pattern: self.pattern.clone(), allow: self.allow }
    }
}

/// A Set of rules for a list of user-agents.
#[derive(Debug)]
pub struct Group {
    /// The pause that is asked for between two requests.
    crawl_delay: Option<Duration>,
    /// The rules, in their order.
    rules: Vec<Rule>,
}

/// What a [Group] holds.
#[verifier::ext_equal]
pub struct GroupView {
    /// The pause that is asked for between two requests: seconds, and nanoseconds beyond them.
    pub crawl_delay: Option<(u64, u32)>,
    /// The rules, in their order.
    pub rules: Seq<RuleView>,
}

/// The seconds of a span, and the nanoseconds beyond them.
pub open spec fn span_parts(span: Option<Duration>) -> Option<(u64, u32)> {
    match span {
        Some(span) => Some((span.secs(), span.nanos())),
        None => None,
    }
}

/// What some rules say.
pub open spec fn rule_views(rules: Seq<Rule>) -> Seq<RuleView> {
    rules.map_values(|rule: Rule| rule@)
}

impl View for Group {
    type V = GroupView;

    closed spec fn view(&self) -> GroupView {
        GroupView { crawl_delay: span_parts(self.crawl_delay), rules: rule_views(self.rules@) }
    }
}

impl GroupView {
    /// The group without rules.
    pub open spec fn empty() -> GroupView {
        GroupView { crawl_delay: None, rules: Seq::empty() }
    }

    /// The group with one more rule.
    pub open spec fn push(self, rule: RuleView) -> GroupView {
        GroupView { rules: self.rules.push(rule), ..self }
    }
}

impl Group {
    /// The pause that is asked for between two requests.
    pub fn crawl_delay(&self) -> (delay: Option<Duration>)
        ensures
            span_parts(delay) == self@.crawl_delay,
    {
        self.crawl_delay
    }

    /// The rules, in their order.
    pub fn rules(&self) -> (rules: &Vec<Rule>)
        ensures
            rule_views(rules@) == self@.rules,
    {
        &self.rules
    }

    fn push(&mut self, rule: Rule)
        ensures
            final(self)@ == old(self)@.push(rule@),
    {
        self.rules.push(rule);
        assert(self@.rules =~= old(self)@.rules.push(rule@));
    }
}

impl Default for Group {
    fn default() -> (group: Self)
        ensures
            group@ == GroupView::empty(),
    {
        let group = Group { crawl_delay: None, rules: Vec::new() };
        assert(group@.rules =~= Seq::<RuleView>::empty());
        group
    }
}

impl Clone for Group {
    fn clone(&self) -> (copy: Self)
        ensures
            copy@ == self@,
    {
        let rules = self.rules.clone();
        let copy = Group { crawl_delay: self.crawl_delay, rules };
        assert forall|i: int| 0 <= i < rules@.len() implies #[trigger] rules@[i] == self.rules@[i] by {
            assert(cloned(self.rules@[i], rules@[i]));
        }
        assert(copy@.rules =~= self@.rules);
        copy
    }
}

/// Represents a `robots.txt` file.
#[derive(Debug)]
pub struct RobotsData {
    /// All the groups in the `robots.txt`.
    pub groups: Vec<Group>,
    /// Mapping of all user-agents to all their groups.
    pub group_agents: StringMap<Vec<usize>>,
    /// Whether to allow all url patterns for all user agents.
    pub allow_all: bool,
    /// Disallow all url patterns for all user agents.
    pub disallow_all: bool,
}

/// What a [RobotsData] holds.
#[verifier::ext_equal]
pub struct RobotsView {
    /// All the groups.
    pub groups: Seq<GroupView>,
    /// The groups of each user agent.
    pub group_agents: Map<Seq<char>, Seq<usize>>,
    /// Whether everything is allowed.
    pub allow_all: bool,
    /// Whether nothing is allowed.
    pub disallow_all: bool,
}

/// What some groups hold.
pub open spec fn group_views(groups: Seq<Group>) -> Seq<GroupView> {
    groups.map_values(|group: Group| group@)
}

/// The groups of each user agent.
pub open spec fn agent_lists(lists: Map<Seq<char>, Vec<usize>>) -> Map<Seq<char>, Seq<usize>> {
    lists.map_values(|list: Vec<usize>| list@)
}

impl View for RobotsData {
    type V = RobotsView;

    open spec fn view(&self) -> RobotsView {
        RobotsView {
            groups: group_views(self.groups@),
            group_agents: agent_lists(self.group_agents@),
            allow_all: self.allow_all,
            disallow_all: self.disallow_all,
        }
    }
}

impl Clone for RobotsData {
    fn clone(&self) -> (copy: Self)
        ensures
            copy@ == self@,
    {
        let groups = self.groups.clone();
        let group_agents = self.group_agents.clone();
        proof {
            assert forall|i: int| 0 <= i < groups@.len() implies (
            #[trigger] groups@[i])@ == self.groups@[i]@ by {
                assert(cloned(self.groups@[i], groups@[i]));
            }
            assert(group_views(groups@) =~= group_views(self.groups@));
            let keys = self.group_agents.keys();
            let (before, after) = (self.group_agents.values(), group_agents.values());
            assert forall|agent: Seq<char>| #[trigger]
                self.group_agents@.contains_key(agent) implies group_agents@[agent]@
                == self.group_agents@[agent]@ by {
                let i = keys.index_of(agent);
                self.group_agents.lemma_index(agent);
                assert(cloned::<Vec<usize>>(before[i], after[i]));
                assert(after[i]@ =~= before[i]@);
            }
            assert(agent_lists(group_agents@) =~= agent_lists(self.group_agents@));
        }
        RobotsData {
            groups,
            group_agents,
            allow_all: self.allow_all,
            disallow_all: self.disallow_all,
        }
    }
}

/// The path and the query that `robotstxt::get_path_params_query` takes out of an address.
pub uninterp spec fn path_params_query(url: Seq<char>) -> Seq<char>;

/// Whether a path matches a pattern by `LongestMatchRobotsMatchStrategy::matches`.
pub uninterp spec fn pattern_matches(path: Seq<char>, pattern: Seq<char>) -> bool;

/// The text in lower case, as `str::to_lowercase` has it.
pub uninterp spec fn lowercase(text: Seq<char>) -> Seq<char>;

/// `robotstxt::get_path_params_query`: the path and the query of an address.
#[verifier::external_body]
fn get_path_params_query(url: &str) -> (path: String)
    ensures
        path@ == path_params_query(url@),
{
    robotstxt::get_path_params_query(url).into_owned()
}

/// `LongestMatchRobotsMatchStrategy::matches`: whether a path matches a pattern.
#[verifier::external_body]
fn matches_pattern(path: &str, pattern: &str) -> (matched: bool)
    ensures
        matched == pattern_matches(path@, pattern@),
{
    <robotstxt::matcher::LongestMatchRobotsMatchStrategy as robotstxt::matcher::RobotsMatchStrategy>::matches(
        path,
        pattern,
    )
}

/// `str::to_lowercase`: the text in lower case.
#[verifier::external_body]
fn to_lowercase(text: &str) -> (lower: String)
    ensures
        lower@ == lowercase(text@),
{
    text.to_lowercase()
}

/// The patterns that some rules disallow, in their order.
pub open spec fn denied(rules: Seq<RuleView>) -> Seq<Seq<char>>
    decreases rules.len(),
{
    if rules.len() == 0 {
        Seq::empty()
    } else if rules.last().allow {
        denied(rules.drop_last())
    } else {
        denied(rules.drop_last()).push(rules.last().pattern)
    }
}

/// The patterns that the listed groups disallow, in their order.
pub open spec fn denied_by(groups: Seq<GroupView>, list: Seq<usize>) -> Seq<Seq<char>>
    decreases list.len(),
{
    if list.len() == 0 {
        Seq::empty()
    } else {
        denied_by(groups, list.drop_last()) + denied(groups[list.last() as int].rules)
    }
}

/// The path that the rules are held against.
pub open spec fn rule_path(url: Seq<char>) -> Seq<char> {
    match url_path(url) {
        Some(path) => path_params_query(path),
        None => path_params_query(Seq::empty()),
    }
}

impl RobotsView {
    /// Whether the data can be asked: one of the flags decides, or the groups that are listed for
    /// an agent exist.
    pub open spec fn well_formed(self) -> bool {
        self.disallow_all || self.allow_all || self.groups_exist()
    }

    /// Whether the groups that are listed for an agent exist.
    pub open spec fn groups_exist(self) -> bool {
        forall|agent: Seq<char>, k: int|
            self.group_agents.contains_key(agent) && 0 <= k < self.group_agents[agent].len()
                ==> #[trigger] self.group_agents[agent][k] < self.groups.len()
    }

    /// The agent whose rules count for a request: its user agent, or `*` where it has none that is
    /// readable, or one that no group is listed for.
    pub open spec fn rule_agent(self, headers: reqwest::header::HeaderMap) -> Seq<char> {
        match user_agent(headers) {
            Some(agent) => if self.group_agents.contains_key(agent) {
                agent
            } else {
                "*"@
            },
            None => "*"@,
        }
    }

    /// The patterns that are disallowed for an agent.
    pub open spec fn denied_patterns(self, agent: Seq<char>) -> Seq<Seq<char>> {
        if self.group_agents.contains_key(agent) {
            denied_by(self.groups, self.group_agents[agent])
        } else {
            Seq::empty()
        }
    }

    /// Whether a request to `url` with these headers may be sent: the flags decide where one of
    /// them is set; else it may unless some pattern that is disallowed for its agent matches.
    pub open spec fn permits(self, url: Seq<char>, headers: reqwest::header::HeaderMap) -> bool {
        if self.disallow_all {
            false
        } else if self.allow_all {
            true
        } else {
            let patterns = self.denied_patterns(self.rule_agent(headers));
            !exists|i: int|
                0 <= i < patterns.len() && pattern_matches(rule_path(url), #[trigger] patterns[i])
        }
    }

    /// Everything is allowed.
    pub open spec fn allowing() -> RobotsView {
        RobotsView {
            groups: Seq::empty(),
            group_agents: Map::empty(),
            allow_all: true,
            disallow_all: false,
        }
    }

    /// Nothing is allowed.
    pub open spec fn disallowing() -> RobotsView {
        RobotsView {
            groups: Seq::empty(),
            group_agents: Map::empty(),
            allow_all: false,
            disallow_all: true,
        }
    }
}

impl RobotsData {
    /// All patterns for all agents are allowed.
    pub fn allow_all() -> (data: Self)
        ensures
            data@ == RobotsView::allowing(),
    {
        let data = RobotsData {
            groups: Vec::new(),
            group_agents: StringMap::new(),
            allow_all: true,
            disallow_all: false,
        };
        assert(data@ =~= RobotsView::allowing());
        data
    }

    /// All patterns for all agents are disallowed.
    pub fn disallow_all() -> (data: Self)
        ensures
            data@ == RobotsView::disallowing(),
    {
        let data = RobotsData {
            groups: Vec::new(),
            group_agents: StringMap::new(),
            allow_all: false,
            disallow_all: true,
        };
        assert(data@ =~= RobotsView::disallowing());
        data
    }

    /// Whether the data can be asked: one of the flags decides, or the groups that are listed for
    /// an agent exist.
    pub fn is_well_formed(&self) -> (well_formed: bool)
        ensures
            well_formed == self@.well_formed(),
    {
        self.disallow_all || self.allow_all || self.has_groups()
    }

    /// Whether the groups that are listed for an agent exist.
    pub fn has_groups(&self) -> (exist: bool)
        ensures
            exist == self@.groups_exist(),
    {
        let mut i: usize = 0;
        let len: usize = self.group_agents.len();
        while i < len
            invariant
                len == self.group_agents.keys().len(),
                len == self.group_agents.values().len(),
                self.group_agents.keys().no_duplicates(),
                i <= len,
                forall|a: int, k: int|
                    0 <= a < i && 0 <= k < self.group_agents.values()[a]@.len()
                        ==> #[trigger] self.group_agents.values()[a]@[k] < self.groups@.len(),
            decreases len - i,
        {
            let list = self.group_agents.value_at(i);
            let ghost agent = self.group_agents.keys()[i as int];
            let mut k: usize = 0;
            while k < list.len()
                invariant
                    k <= list@.len(),
                    self.group_agents@.contains_key(agent),
                    *list == self.group_agents@[agent],
                    forall|j: int| 0 <= j < k ==> #[trigger] list@[j] < self.groups@.len(),
                decreases list@.len() - k,
            {
                if list[k] >= self.groups.len() {
                    assert(self@.group_agents[agent][k as int] == list@[k as int]);
                    return false;
                }
                k = k + 1;
            }
            i = i + 1;
        }
        assert forall|agent: Seq<char>, k: int|
            self@.group_agents.contains_key(agent) && 0 <= k
                < self@.group_agents[agent].len() implies #[trigger] self@.group_agents[agent][k]
            < self@.groups.len() by {
            let a = self.group_agents.keys().index_of(agent);
            assert(self.group_agents.values()[a]@[k] == self@.group_agents[agent][k]);
        }
        true
    }

    /// The patterns that are disallowed for an agent, group by group and in their order.
    pub fn denied_patterns(&self, agent: &str) -> (patterns: Vec<String>)
        requires
            self@.groups_exist(),
        ensures
            texts(patterns@) == self@.denied_patterns(agent@),
    {
        let mut patterns: Vec<String> = Vec::new();
        assert(texts(patterns@) =~= Seq::<Seq<char>>::empty());
        let list = match self.group_agents.get(agent) {
            Some(list) => list,
            None => {
                return patterns;
            },
        };
        assert(list@ == self@.group_agents[agent@]);
        let mut k: usize = 0;
        while k < list.len()
            invariant
                self@.groups_exist(),
                self@.group_agents.contains_key(agent@),
                list@ == self@.group_agents[agent@],
                k <= list@.len(),
                texts(patterns@) == denied_by(self@.groups, list@.take(k as int)),
            decreases list@.len() - k,
        {
            assert(self@.group_agents[agent@][k as int] < self@.groups.len());
            let rules = self.groups[list[k]].rules();
            let ghost before = texts(patterns@);
            let ghost said = rule_views(rules@);
            let mut r: usize = 0;
            while r < rules.len()
                invariant
                    r <= rules@.len(),
                    said == rule_views(rules@),
                    texts(patterns@) == before + denied(said.take(r as int)),
                decreases rules@.len() - r,
            {
                let ghost so_far = texts(patterns@);
                assert(said.take(r + 1).drop_last() =~= said.take(r as int));
                if rules[r].is_disallow() {
                    patterns.push(rules[r].pattern().clone());
                    assert(texts(patterns@) =~= so_far.push(said[r as int].pattern));
                    assert(so_far.push(said[r as int].pattern) =~= before + denied(
                        said.take(r + 1),
                    ));
                }
                r = r + 1;
            }
            assert(said.take(rules@.len() as int) =~= said);
            assert(list@.take(k + 1).drop_last() =~= list@.take(k as int));
            k = k + 1;
        }
        assert(list@.take(list@.len() as int) =~= list@);
        patterns
    }

    /// Validate that the requested url is *NOT* disallowed.
    ///
    /// This does *NOT* mean that it is explicitly allowed. Where no group is listed for the
    /// request's agent, the groups of the wildcard decide.
    pub fn is_not_disallowed(&self, request: &PageRequest) -> (permitted: bool)
        requires
            self@.well_formed(),
        ensures
            permitted == self@.permits(request.url(), request.headers()),
    {
        if self.disallow_all {
            return false;
        }
        if self.allow_all {
            return true;
        }
        let path = match request.address().path() {
            Some(path) => get_path_params_query(path.as_str()),
            None => get_path_params_query(String::new().as_str()),
        };
        let agent = match request.agent() {
            Some(agent) => if self.group_agents.contains_key(agent.as_str()) {
                agent
            } else {
                "*".to_owned()
            },
            None => "*".to_owned(),
        };
        let patterns = self.denied_patterns(agent.as_str());
        !any_matches(path.as_str(), &patterns)
    }
}

/// Whether a path matches one of the patterns.
fn any_matches(path: &str, patterns: &Vec<String>) -> (matched: bool)
    ensures
        matched == exists|i: int|
            0 <= i < texts(patterns@).len() && pattern_matches(
                path@,
                #[trigger] texts(patterns@)[i],
            ),
{
    let mut i: usize = 0;
    while i < patterns.len()
        invariant
            i <= patterns@.len(),
            forall|j: int|
                0 <= j < i ==> !pattern_matches(path@, #[trigger] texts(patterns@)[j]),
        decreases patterns@.len() - i,
    {
        assert(texts(patterns@)[i as int] == patterns@[i as int]@);
        if matches_pattern(path, patterns[i].as_str()) {
            return true;
        }
        i = i + 1;
    }
    false
}

/// The handler that parses the `robots.txt` into a `RobotsData`.
#[derive(Debug)]
pub struct RobotsHandler {
    /// List of groups with all their user agents.
    groups: Vec<(Vec<String>, Group)>,
    /// The current group that is processed.
    group: Option<Group>,
    /// The list of agents for the current group that is currently processed.
    agents: Option<Vec<String>>,
}

/// What a [RobotsHandler] holds.
#[verifier::ext_equal]
pub struct HandlerView {
    /// The finished groups with the agents that they are for.
    pub groups: Seq<(Set<Seq<char>>, GroupView)>,
    /// The group that rules are added to.
    pub group: Option<GroupView>,
    /// The agents that the next group is for.
    pub agents: Option<Set<Seq<char>>>,
}

/// The names in a list of agents.
pub open spec fn agent_set(agents: Seq<String>) -> Set<Seq<char>> {
    texts(agents).to_set()
}

/// What finished groups hold, with the agents that they are for.
pub open spec fn finished_groups(groups: Seq<(Vec<String>, Group)>) -> Seq<
    (Set<Seq<char>>, GroupView),
> {
    groups.map_values(|entry: (Vec<String>, Group)| (agent_set(entry.0@), entry.1@))
}

impl View for RobotsHandler {
    type V = HandlerView;

    closed spec fn view(&self) -> HandlerView {
        HandlerView {
            groups: finished_groups(self.groups@),
            group: match self.group {
                Some(group) => Some(group@),
                None => None,
            },
            agents: match self.agents {
                Some(agents) => Some(agent_set(agents@)),
                None => None,
            },
        }
    }
}

impl Clone for RobotsHandler {
    fn clone(&self) -> (copy: Self)
        ensures
            copy@ == self@,
    {
        let mut groups: Vec<(Vec<String>, Group)> = Vec::new();
        let mut i: usize = 0;
        while i < self.groups.len()
            invariant
                i <= self.groups@.len(),
                finished_groups(groups@) == finished_groups(self.groups@).take(i as int),
            decreases self.groups@.len() - i,
        {
            let agents = clone_names(&self.groups[i].0);
            let group = self.groups[i].1.clone();
            let ghost before = finished_groups(groups@);
            groups.push((agents, group));
            i = i + 1;
            proof {
                assert(finished_groups(groups@) =~= before.push((agent_set(agents@), group@)));
                assert(finished_groups(groups@) =~= finished_groups(self.groups@).take(i as int));
            }
        }
        proof {
            assert(finished_groups(self.groups@).take(i as int) =~= finished_groups(self.groups@));
        }
        RobotsHandler {
            groups,
            group: match &self.group {
                Some(group) => Some(group.clone()),
                None => None,
            },
            agents: match &self.agents {
                Some(agents) => Some(clone_names(agents)),
                None => None,
            },
        }
    }
}

/// A copy of some names.
fn clone_names(names: &Vec<String>) -> (copy: Vec<String>)
    ensures
        texts(copy@) == texts(names@),
{
    let copy = names.clone();
    assert(texts(copy@) =~= texts(names@));
    copy
}

/// Whether a key, in lower case, asks for a pause between requests.
pub open spec fn is_crawl_delay(lower: Seq<char>) -> bool {
    lower == "crawldelay"@ || lower == "crawl-delay"@
}

/// The pause that a value asks for: whole seconds, of which the rest modulo a thousand counts, or
/// else the milliseconds that it comes to when read as a fraction of seconds.
pub open spec fn asked_delay(value: Seq<char>, fraction: Option<u64>) -> Option<(u64, u32)> {
    match read_u64(value) {
        Some(secs) => Some((secs % 1000, 0u32)),
        None => match fraction {
            Some(millis) => Some((millis / 1000, ((millis % 1000) * 1_000_000) as u32)),
            None => None,
        },
    }
}

impl HandlerView {
    /// The handler before the first line.
    pub open spec fn start() -> HandlerView {
        HandlerView { groups: Seq::empty(), group: None, agents: None }
    }

    /// The agents that the next group is for, none if no line named any.
    pub open spec fn next_agents(self) -> Set<Seq<char>> {
        match self.agents {
            Some(agents) => agents,
            None => Set::empty(),
        }
    }

    /// The handler once the group in progress, if any, is finished.
    pub open spec fn finish_group(self) -> HandlerView {
        match self.group {
            Some(group) => HandlerView {
                groups: self.groups.push((self.next_agents(), group)),
                group: None,
                agents: None,
            },
            None => self,
        }
    }

    /// The handler after a line that names an agent.
    pub open spec fn user_agent(self, agent: Seq<char>) -> HandlerView {
        let done = self.finish_group();
        HandlerView { agents: Some(done.next_agents().insert(agent)), ..done }
    }

    /// The handler after a line with a pattern.
    pub open spec fn rule(self, rule: RuleView) -> HandlerView {
        if rule.pattern.len() == 0 {
            self
        } else {
            let group = match self.group {
                Some(group) => group,
                None => GroupView::empty(),
            };
            HandlerView { group: Some(group.push(rule)), ..self }
        }
    }

    /// The handler after a line with any other key, which is `lower` in lower case.
    pub open spec fn unknown_action(
        self,
        lower: Seq<char>,
        value: Seq<char>,
        fraction: Option<u64>,
    ) -> HandlerView {
        match self.group {
            Some(group) => if is_crawl_delay(lower) && asked_delay(value, fraction) is Some {
                HandlerView {
                    group: Some(
                        GroupView { crawl_delay: asked_delay(value, fraction), ..group },
                    ),
                    ..self
                }
            } else {
                self
            },
            None => self,
        }
    }

    /// The handler after a directive. A line with any other key may come with the milliseconds
    /// that its value comes to when read as a fraction of seconds.
    pub open spec fn handle(self, directive: DirectiveView, fraction: Option<u64>) -> HandlerView {
        match directive {
            DirectiveView::UserAgent(_, agent) => self.user_agent(agent),
            DirectiveView::Allow(_, pattern) => self.rule(RuleView { pattern, allow: true }),
            DirectiveView::Disallow(_, pattern) => self.rule(RuleView { pattern, allow: false }),
            DirectiveView::Sitemap(_, _) => self,
            DirectiveView::Unknown(_, action, value) => self.unknown_action(
                lowercase(action),
                value,
                fraction,
            ),
        }
    }

    /// The handler after some directives, the `i`th of which comes with the `i`th fraction, as far
    /// as there are fractions.
    pub open spec fn handle_all(
        self,
        directives: Seq<DirectiveView>,
        fractions: Seq<Option<u64>>,
    ) -> HandlerView
        decreases directives.len(),
    {
        if directives.len() == 0 {
            self
        } else {
            self.handle_all(directives.drop_last(), fractions).handle(
                directives.last(),
                fraction_at(fractions, directives.len() - 1),
            )
        }
    }

    /// The groups and the rules that the handler has gathered in finished groups.
    pub open spec fn finish(self) -> RobotsView {
        RobotsView {
            groups: Seq::new(self.groups.len(), |i: int| self.groups[i].1),
            group_agents: group_index(self.groups),
            allow_all: false,
            disallow_all: false,
        }
    }
}

/// The fraction at place `i`, if there is one.
pub open spec fn fraction_at(fractions: Seq<Option<u64>>, i: int) -> Option<u64> {
    if 0 <= i < fractions.len() {
        fractions[i]
    } else {
        None
    }
}

/// The places of the groups that are for an agent, in their order.
pub open spec fn groups_of(groups: Seq<(Set<Seq<char>>, GroupView)>, agent: Seq<char>) -> Seq<usize>
    decreases groups.len(),
{
    if groups.len() == 0 {
        Seq::empty()
    } else {
        let before = groups_of(groups.drop_last(), agent);
        if groups.last().0.contains(agent) {
            before.push((groups.len() - 1) as usize)
        } else {
            before
        }
    }
}

/// What the text of a `robots.txt` comes to.
pub open spec fn robots_of(text: Seq<char>, fractions: Seq<Option<u64>>) -> RobotsView {
    HandlerView::start().handle_all(robots_directives(text), fractions).finish_group().finish()
}

/// The places of the groups of an agent are places of groups.
proof fn lemma_groups_of(groups: Seq<(Set<Seq<char>>, GroupView)>, agent: Seq<char>)
    requires
        groups.len() <= usize::MAX,
    ensures
        forall|k: int|
            0 <= k < groups_of(groups, agent).len() ==> #[trigger] groups_of(groups, agent)[k]
                < groups.len(),
    decreases groups.len(),
{
    if groups.len() > 0 {
        let before = groups_of(groups.drop_last(), agent);
        lemma_groups_of(groups.drop_last(), agent);
        assert forall|k: int| 0 <= k < groups_of(groups, agent).len() implies #[trigger] groups_of(
            groups,
            agent,
        )[k] < groups.len() by {
            if k < before.len() {
                assert(before[k] < groups.drop_last().len());
            }
        }
    }
}

/// The places of the groups of each agent.
pub open spec fn group_index(groups: Seq<(Set<Seq<char>>, GroupView)>) -> Map<
    Seq<char>,
    Seq<usize>,
> {
    Map::new(
        |agent: Seq<char>| groups_of(groups, agent).len() > 0,
        |agent: Seq<char>| groups_of(groups, agent),
    )
}

/// The index with place `place` noted for an agent, unless it stands last there already.
spec fn noted(index: Map<Seq<char>, Seq<usize>>, agent: Seq<char>, place: usize) -> Map<
    Seq<char>,
    Seq<usize>,
> {
    if !index.contains_key(agent) {
        index.insert(agent, seq![place])
    } else if index[agent].len() > 0 && index[agent].last() == place {
        index
    } else {
        index.insert(agent, index[agent].push(place))
    }
}

/// Noting the place of the last group for an agent is what adding the agent to that group does.
proof fn lemma_noted(
    groups: Seq<(Set<Seq<char>>, GroupView)>,
    agents: Set<Seq<char>>,
    group: GroupView,
    agent: Seq<char>,
)
    requires
        groups.len() < usize::MAX,
    ensures
        group_index(groups.push((agents.insert(agent), group))) == noted(
            group_index(groups.push((agents, group))),
            agent,
            groups.len() as usize,
        ),
{
    let before = groups.push((agents, group));
    let after = groups.push((agents.insert(agent), group));
    assert(before.drop_last() =~= groups);
    assert(after.drop_last() =~= groups);
    lemma_groups_of(groups, agent);
    let places = groups_of(groups, agent);
    if places.len() > 0 {
        assert(places[places.len() - 1] < groups.len());
    }
    assert(groups_of(after, agent) =~= places.push(groups.len() as usize));
    assert forall|other: Seq<char>| other != agent implies groups_of(after, other) == groups_of(
        before,
        other,
    ) by {}
    let place = groups.len() as usize;
    if agents.contains(agent) {
        assert(groups_of(before, agent) =~= places.push(place));
        assert(groups_of(before, agent).last() == place);
    } else {
        assert(groups_of(before, agent) == places);
        if places.len() == 0 {
            assert(places.push(place) =~= seq![place]);
        }
    }
    assert(group_index(after) =~= noted(group_index(before), agent, place));
}

/// A group without agents adds nothing to the index.
proof fn lemma_no_agents(groups: Seq<(Set<Seq<char>>, GroupView)>, group: GroupView)
    ensures
        group_index(groups.push((Set::empty(), group))) == group_index(groups),
{
    assert(groups.push((Set::empty(), group)).drop_last() =~= groups);
    assert(group_index(groups.push((Set::empty(), group))) =~= group_index(groups));
}

/// The set of one more agent.
proof fn lemma_agent_push(agents: Seq<String>, j: int)
    requires
        0 <= j < agents.len(),
    ensures
        agent_set(agents.take(j + 1)) == agent_set(agents.take(j)).insert(agents[j]@),
{
    let before = texts(agents.take(j));
    let after = texts(agents.take(j + 1));
    assert(after =~= before.push(agents[j]@));
    assert forall|agent: Seq<char>| after.contains(agent) <==> before.contains(agent) || agent
        == agents[j]@ by {
        assert(after[j] == agents[j]@);
        if before.contains(agent) {
            assert(after[before.index_of(agent)] == agent);
        }
    }
    assert(agent_set(agents.take(j + 1)) =~= agent_set(agents.take(j)).insert(agents[j]@));
}

/// Notes down that the group at `place` is for an agent.
fn note_group(index: &mut StringMap<Vec<usize>>, agent: String, place: usize)
    ensures
        agent_lists(final(index)@) == noted(agent_lists(old(index)@), agent@, place),
{
    let ghost before = index@;
    let mut list: Vec<usize> = Vec::new();
    match index.get(agent.as_str()) {
        Some(places) => {
            let len: usize = places.len();
            if len > 0 && places[len - 1] == place {
                return;
            }
            list = places.clone();
            assert(list@ =~= before[agent@]@);
        },
        None => {},
    }
    list.push(place);
    proof {
        if !before.contains_key(agent@) {
            assert(list@ =~= seq![place]);
        }
    }
    index.insert(agent, list);
    assert(agent_lists(index@) =~= noted(agent_lists(before), agent@, place));
}

impl RobotsHandler {
    fn finish_group(&mut self)
        ensures
            final(self)@ == old(self)@.finish_group(),
    {
        let ghost before = self.groups@;
        if let Some(group) = self.group.take() {
            let agents = match self.agents.take() {
                Some(agents) => agents,
                None => Vec::new(),
            };
            proof {
                if old(self).agents is None {
                    assert(agent_set(agents@) =~= Set::empty());
                }
            }
            self.groups.push((agents, group));
            assert(finished_groups(self.groups@) =~= finished_groups(before).push(
                (agent_set(agents@), group@),
            ));
        }
    }

    /// Called before the first line.
    pub fn handle_robots_start(&mut self)
        ensures
            final(self)@ == old(self)@,
    {
    }

    /// Called after the last line: the group in progress is finished.
    pub fn handle_robots_end(&mut self)
        ensures
            final(self)@ == old(self)@.finish_group(),
    {
        self.finish_group();
    }

    /// A line that names an agent.
    pub fn handle_user_agent(&mut self, _line: u32, user_agent: &str)
        ensures
            final(self)@ == old(self)@.user_agent(user_agent@),
    {
        self.finish_group();
        let ghost done = self@;
        let mut agents = match self.agents.take() {
            Some(agents) => agents,
            None => Vec::new(),
        };
        let ghost before = agents@;
        assert(agent_set(agents@) =~= done.next_agents());
        agents.push(user_agent.to_owned());
        proof {
            let longer = texts(agents@);
            assert(longer =~= texts(before).push(user_agent@));
            assert forall|agent: Seq<char>| longer.contains(agent) <==> texts(before).contains(agent)
                || agent == user_agent@ by {
                assert(longer[before.len() as int] == user_agent@);
                if texts(before).contains(agent) {
                    assert(longer[texts(before).index_of(agent)] == agent);
                }
            }
            assert(agent_set(agents@) =~= done.next_agents().insert(user_agent@));
        }
        self.agents = Some(agents);
    }

    fn handle_rule(&mut self, rule: Rule)
        requires
            rule@.pattern.len() > 0,
        ensures
            final(self)@ == old(self)@.rule(rule@),
    {
        let mut group = match self.group.take() {
            Some(group) => group,
            None => Group::default(),
        };
        group.push(rule);
        self.group = Some(group);
    }

    /// A line with a pattern that may be accessed.
    pub fn handle_allow(&mut self, _line: u32, value: &str)
        ensures
            final(self)@ == old(self)@.rule(RuleView { pattern: value@, allow: true }),
    {
        if !value.is_empty() {
            self.handle_rule(Rule::allow(value.to_owned()));
        }
    }

    /// A line with a pattern that may not be accessed.
    pub fn handle_disallow(&mut self, _line: u32, value: &str)
        ensures
            final(self)@ == old(self)@.rule(RuleView { pattern: value@, allow: false }),
    {
        if !value.is_empty() {
            self.handle_rule(Rule::disallow(value.to_owned()));
        }
    }

    /// A line with the address of a sitemap.
    pub fn handle_sitemap(&mut self, _line: u32, _value: &str)
        ensures
            final(self)@ == old(self)@,
    {
    }

    /// A line with any other key.
    ///
    /// `fraction` is the number of milliseconds that the value comes to when it is read as a
    /// fraction of seconds, if it can be read so.
    pub fn handle_unknown_action(
        &mut self,
        _line: u32,
        action: &str,
        value: &str,
        fraction: Option<u64>,
    )
        ensures
            final(self)@ == old(self)@.unknown_action(lowercase(action@), value@, fraction),
    {
        let lower = to_lowercase(action);
        self.handle_key(lower.as_str(), value, fraction);
    }

    /// A line with the key `lower`, which is in lower case.
    pub fn handle_key(&mut self, lower: &str, value: &str, fraction: Option<u64>)
        ensures
            final(self)@ == old(self)@.unknown_action(lower@, value@, fraction),
    {
        let key = lower.to_owned();
        if self.group.is_some() && (key == "crawldelay".to_owned() || key
            == "crawl-delay".to_owned()) {
            let delay = match parse_u64(value) {
                Some(secs) => Some(Duration::from_secs(secs % 1000)),
                None => match fraction {
                    Some(millis) => Some(Duration::from_millis(millis)),
                    None => None,
                },
            };
            if delay.is_some() {
                let group = self.group.take().unwrap();
                self.group = Some(Group { crawl_delay: delay, rules: group.rules });
            }
        }
    }

    /// One directive, with the fraction that its value comes to.
    pub fn handle(&mut self, directive: &Directive, fraction: Option<u64>)
        ensures
            final(self)@ == old(self)@.handle(directive@, fraction),
    {
        match directive {
            Directive::UserAgent(line, agent) => self.handle_user_agent(*line, agent.as_str()),
            Directive::Allow(line, pattern) => self.handle_allow(*line, pattern.as_str()),
            Directive::Disallow(line, pattern) => self.handle_disallow(*line, pattern.as_str()),
            Directive::Sitemap(line, value) => self.handle_sitemap(*line, value.as_str()),
            Directive::Unknown(line, action, value) => self.handle_unknown_action(
                *line,
                action.as_str(),
                value.as_str(),
                fraction,
            ),
        }
    }

    /// All directives of a `robots.txt`, in their order, and then its end. The `i`th directive
    /// comes with the `i`th fraction, as far as there are fractions.
    pub fn handle_directives(&mut self, directives: &Vec<Directive>, fractions: &Vec<Option<u64>>)
        ensures
            final(self)@ == old(self)@.handle_all(
                directive_views(directives@),
                fractions@,
            ).finish_group(),
    {
        let ghost said = directive_views(directives@);
        self.handle_robots_start();
        let mut i: usize = 0;
        while i < directives.len()
            invariant
                i <= directives@.len(),
                said == directive_views(directives@),
                self@ == old(self)@.handle_all(said.take(i as int), fractions@),
            decreases directives@.len() - i,
        {
            let fraction = if i < fractions.len() {
                fractions[i]
            } else {
                None
            };
            self.handle(&directives[i], fraction);
            assert(said.take(i + 1).drop_last() =~= said.take(i as int));
            i = i + 1;
        }
        assert(said.take(said.len() as int) =~= said);
        self.handle_robots_end();
    }

    /// What the `robots.txt` comes to, by the response that came for it.
    ///
    /// A text that was found is read. All 4xx errors are treated in the same way: no valid
    /// `robots.txt` exists, and there are no restrictions. Server errors (5xx) are seen as
    /// temporary errors that result in a full disallow of crawling.
    ///
    /// The `i`th directive of the text comes with the `i`th fraction, as far as there are
    /// fractions.
    pub fn from_response(status: u16, text: &str, fractions: &Vec<Option<u64>>) -> (data: Result<
        RobotsData,
        UnexpectedStatusError,
    >)
        requires
            200 <= status < 300 ==> is_readable(text@),
        ensures
            match data {
                Ok(data) => {
                    ||| 200 <= status < 300 && data@ == robots_of(text@, fractions@)
                    ||| 400 <= status < 500 && data@ == RobotsView::allowing()
                    ||| 500 <= status < 600 && data@ == RobotsView::disallowing()
                },
                Err(error) => error.code() == status && !(200 <= status < 300 || 400 <= status
                    < 600),
            },
            data matches Ok(data) ==> data@.well_formed(),
    {
        if 200 <= status && status < 300 {
            let mut handler = RobotsHandler::default();
            let directives = parse_robotstxt(text);
            handler.handle_directives(&directives, fractions);
            return Ok(handler.finish());
        }
        if 400 <= status && status < 500 {
            return Ok(RobotsData::allow_all());
        }
        if 500 <= status && status < 600 {
            return Ok(RobotsData::disallow_all());
        }
        Err(UnexpectedStatusError::new(status))
    }

    /// The groups and the rules that the handler has gathered in finished groups.
    pub fn finish(self) -> (data: RobotsData)
        ensures
            data@ == self@.finish(),
            data@.groups_exist(),
    {
        let ghost all = self@.groups;
        let mut groups: Vec<Group> = Vec::new();
        let mut group_agents: StringMap<Vec<usize>> = StringMap::new();
        let total: usize = self.groups.len();
        let ghost found = self.groups@;
        assert(agent_lists(group_agents@) =~= group_index(all.take(0)));
        for entry in it: self.groups
            invariant
                it.seq() == found,
                total == found.len(),
                all == finished_groups(found),
                groups@.len() == it.index(),
                group_views(groups@) == Seq::new(it.index() as nat, |i: int| all[i].1),
                agent_lists(group_agents@) == group_index(all.take(it.index() as int)),
        {
            let place: usize = groups.len();
            let ghost done = all.take(place as int);
            let (agents, group) = entry;
            assert(entry == found[place as int]);
            assert(all[place as int] == (agent_set(agents@), group@));
            proof {
                lemma_no_agents(done, group@);
                assert(agent_set(agents@.take(0)) =~= Set::empty());
            }
            let mut j: usize = 0;
            while j < agents.len()
                invariant
                    j <= agents@.len(),
                    place == done.len(),
                    place < usize::MAX,
                    agent_lists(group_agents@) == group_index(
                        done.push((agent_set(agents@.take(j as int)), group@)),
                    ),
                decreases agents@.len() - j,
            {
                proof {
                    lemma_noted(done, agent_set(agents@.take(j as int)), group@, agents@[j as int]@);
                    lemma_agent_push(agents@, j as int);
                }
                note_group(&mut group_agents, agents[j].clone(), place);
                j = j + 1;
            }
            assert(agents@.take(agents@.len() as int) =~= agents@);
            assert(all.take(place + 1) =~= done.push(all[place as int]));
            let ghost before = groups@;
            groups.push(group);
            assert(group_views(groups@) =~= group_views(before).push(group@));
            assert(group_views(groups@) =~= Seq::new((place + 1) as nat, |i: int| all[i].1));
        }
        let data = RobotsData { groups, group_agents, allow_all: false, disallow_all: false };
        proof {
            assert(all.take(all.len() as int) =~= all);
            assert(data@ =~= self@.finish());
            assert forall|agent: Seq<char>, k: int|
                data@.group_agents.contains_key(agent) && 0 <= k
                    < data@.group_agents[agent].len() implies #[trigger] data@.group_agents[agent][k]
                < data@.groups.len() by {
                lemma_groups_of(all, agent);
            }
        }
        data
    }
}

impl Default for RobotsHandler {
    fn default() -> (handler: Self)
        ensures
            handler@ == HandlerView::start(),
    {
        let handler = RobotsHandler { groups: Vec::new(), group: None, agents: None };
        assert(handler@ =~= HandlerView::start());
        handler
    }
}

} // verus!
