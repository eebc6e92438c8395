//! What the lines of a `robots.txt` come to.
//!
//! A rule is for the agents that are named above it: those of the lines before it that no later
//! agent line, behind a rule, has put an end to. Lines with other keys do not count.
use crate::number::{decimal, is_digit, read_u64};
use crate::robots::{
    denied, denied_by, groups_of, lowercase, path_params_query, pattern_matches,
    robots_of, rule_path, GroupView, HandlerView, RobotsView, RuleView,
};
use crate::robots_txt::{robots_directives, DirectiveView};
use crate::web::{header_text, header_values, url_path, user_agent};
use vstd::prelude::*;

verus! {

/// The rule that a line lays down, if any: an empty pattern is none.
pub open spec fn rule_in(line: DirectiveView) -> Option<RuleView> {
    match line {
        DirectiveView::Allow(_, pattern) => if pattern.len() > 0 {
            Some(RuleView { pattern, allow: true })
        } else {
            None
        },
        DirectiveView::Disallow(_, pattern) => if pattern.len() > 0 {
            Some(RuleView { pattern, allow: false })
        } else {
            None
        },
        _ => None,
    }
}

/// Whether a line names an agent, and this one.
pub open spec fn is_agent_line(line: DirectiveView, agent: Seq<char>) -> bool {
    line matches DirectiveView::UserAgent(_, name) && name == agent
}

/// Whether what the line at `j` names is still in force at `i`: in between no agent is named behind
/// a rule.
pub open spec fn in_force(lines: Seq<DirectiveView>, j: int, i: int) -> bool {
    forall|k: int, l: int|
        #![trigger lines[k], lines[l]]
        j < k < l < i && rule_in(lines[k]) is Some ==> !(lines[l] is UserAgent)
}

/// Whether a rule at `i` is for an agent.
pub open spec fn is_for(lines: Seq<DirectiveView>, agent: Seq<char>, i: int) -> bool {
    exists|j: int|
        0 <= j < i && is_agent_line(#[trigger] lines[j], agent) && in_force(lines, j, i)
}

/// Whether the lines lay down a rule for an agent.
pub open spec fn lays_down(lines: Seq<DirectiveView>, agent: Seq<char>, rule: RuleView) -> bool {
    exists|i: int|
        0 <= i < lines.len() && rule_in(#[trigger] lines[i]) == Some(rule) && is_for(
            lines,
            agent,
            i,
        )
}

/// Whether the lines lay down any rule for an agent.
pub open spec fn is_listed(lines: Seq<DirectiveView>, agent: Seq<char>) -> bool {
    exists|i: int|
        0 <= i < lines.len() && rule_in(#[trigger] lines[i]) is Some && is_for(lines, agent, i)
}

/// Whether the last rule stands behind the last line that names an agent.
pub open spec fn ends_in_rules(lines: Seq<DirectiveView>) -> bool {
    exists|k: int|
        0 <= k < lines.len() && rule_in(#[trigger] lines[k]) is Some && !names_after(lines, k)
}

/// Whether an agent is named behind the line at `k`.
pub open spec fn names_after(lines: Seq<DirectiveView>, k: int) -> bool {
    exists|l: int| k < l < lines.len() && (#[trigger] lines[l]) is UserAgent
}

/// Whether some groups hold a rule for an agent.
spec fn group_holds(
    groups: Seq<(Set<Seq<char>>, GroupView)>,
    agent: Seq<char>,
    rule: RuleView,
) -> bool {
    exists|g: int|
        0 <= g < groups.len() && (#[trigger] groups[g]).0.contains(agent)
            && groups[g].1.rules.contains(rule)
}

/// What is in force behind some lines and one more.
proof fn lemma_in_force_push(lines: Seq<DirectiveView>, line: DirectiveView, j: int)
    requires
        0 <= j < lines.len(),
    ensures
        in_force(lines.push(line), j, lines.len() as int) == in_force(lines, j, lines.len() as int),
        in_force(lines.push(line), j, lines.len() as int + 1) <==> in_force(lines, j, lines.len() as int)
            && (line is UserAgent ==> forall|k: int|
            j < k < lines.len() ==> rule_in(#[trigger] lines[k]) is None),
{
    let more = lines.push(line);
    let n = lines.len() as int;
    assert forall|k: int| 0 <= k < n implies more[k] == #[trigger] lines[k] by {}
    if in_force(more, j, n) {
        assert forall|k: int, l: int|
            #![trigger lines[k], lines[l]]
            j < k < l < n && rule_in(lines[k]) is Some implies !(lines[l] is UserAgent) by {
            assert(more[k] == lines[k] && more[l] == lines[l]);
        }
    }
    if in_force(more, j, n + 1) {
        assert forall|k: int, l: int|
            #![trigger lines[k], lines[l]]
            j < k < l < n && rule_in(lines[k]) is Some implies !(lines[l] is UserAgent) by {
            assert(more[k] == lines[k] && more[l] == lines[l]);
        }
        if line is UserAgent {
            assert forall|k: int| j < k < n implies rule_in(#[trigger] lines[k]) is None by {
                assert(more[k] == lines[k] && more[n] == line);
            }
        }
    }
}

/// Whether a rule is for an agent does not depend on what follows.
proof fn lemma_is_for_push(
    lines: Seq<DirectiveView>,
    line: DirectiveView,
    agent: Seq<char>,
    i: int,
)
    requires
        0 <= i <= lines.len(),
    ensures
        is_for(lines.push(line), agent, i) == is_for(lines, agent, i),
{
    let more = lines.push(line);
    assert forall|j: int| 0 <= j < i implies in_force(more, j, i) == in_force(lines, j, i) by {
        if in_force(lines, j, i) {
            assert forall|k: int, l: int|
                #![trigger more[k], more[l]]
                j < k < l < i && rule_in(more[k]) is Some implies !(more[l] is UserAgent) by {
                assert(more[k] == lines[k] && more[l] == lines[l]);
            }
        }
        if in_force(more, j, i) {
            assert forall|k: int, l: int|
                #![trigger lines[k], lines[l]]
                j < k < l < i && rule_in(lines[k]) is Some implies !(lines[l] is UserAgent) by {
                assert(more[k] == lines[k] && more[l] == lines[l]);
            }
        }
    }
    if is_for(lines, agent, i) {
        let j = choose|j: int|
            0 <= j < i && is_agent_line(#[trigger] lines[j], agent) && in_force(lines, j, i);
        assert(more[j] == lines[j]);
    }
    if is_for(more, agent, i) {
        let j = choose|j: int|
            0 <= j < i && is_agent_line(#[trigger] more[j], agent) && in_force(more, j, i);
        assert(more[j] == lines[j]);
    }
}

/// What a handler that has read some lines has to hold.
spec fn has_read(handler: HandlerView, lines: Seq<DirectiveView>) -> bool {
    let done = handler.finish_group();
    &&& forall|agent: Seq<char>| #[trigger]
        handler.next_agents().contains(agent) <==> is_for(lines, agent, lines.len() as int)
    &&& handler.group is Some <==> ends_in_rules(lines)
    &&& forall|agent: Seq<char>, rule: RuleView| #[trigger]
        group_holds(done.groups, agent, rule) <==> lays_down(lines, agent, rule)
    &&& forall|g: int| 0 <= g < done.groups.len() ==> (#[trigger] done.groups[g]).1.rules.len() > 0
    &&& done.groups.len() <= lines.len()
}

proof fn lemma_nothing_read()
    ensures
        has_read(HandlerView::start(), Seq::empty()),
{
}

/// A line that names an agent.
proof fn lemma_agent_line(handler: HandlerView, lines: Seq<DirectiveView>, n: u32, name: Seq<char>)
    requires
        has_read(handler, lines),
    ensures
        has_read(
            handler.handle(DirectiveView::UserAgent(n, name), None),
            lines.push(DirectiveView::UserAgent(n, name)),
        ),
{
    let line = DirectiveView::UserAgent(n, name);
    let more = lines.push(line);
    let len = lines.len() as int;
    let after = handler.handle(line, None);
    assert(more[len] == line);
    assert(!ends_in_rules(more)) by {
        assert forall|k: int| 0 <= k < more.len() && rule_in(#[trigger] more[k]) is Some implies
            names_after(more, k) by {
            assert(more[len] is UserAgent);
        }
    }
    assert forall|agent: Seq<char>| #[trigger]
        after.next_agents().contains(agent) <==> is_for(more, agent, len + 1) by {
        if agent == name {
            assert(is_agent_line(more[len], agent));
            assert(in_force(more, len, len + 1));
        } else {
            if handler.group is Some {
                let k = choose|k: int|
                    0 <= k < lines.len() && rule_in(#[trigger] lines[k]) is Some && !names_after(
                        lines,
                        k,
                    );
                assert forall|j: int|
                    0 <= j < len && is_agent_line(#[trigger] lines[j], agent) implies !in_force(
                    more,
                    j,
                    len + 1,
                ) by {
                    assert(j < k);
                    lemma_in_force_push(lines, line, j);
                }
                assert(!is_for(more, agent, len + 1)) by {
                    if is_for(more, agent, len + 1) {
                        let j = choose|j: int|
                            0 <= j < len + 1 && is_agent_line(#[trigger] more[j], agent)
                                && in_force(more, j, len + 1);
                        assert(more[j] == lines[j]);
                    }
                }
            } else {
                if is_for(lines, agent, len) {
                    let j = choose|j: int|
                        0 <= j < len && is_agent_line(#[trigger] lines[j], agent) && in_force(
                            lines,
                            j,
                            len,
                        );
                    assert forall|k: int| j < k < len implies rule_in(
                        #[trigger] lines[k],
                    ) is None by {
                        if rule_in(lines[k]) is Some {
                            assert(names_after(lines, k));
                            let l = choose|l: int|
                                k < l < lines.len() && (#[trigger] lines[l]) is UserAgent;
                            assert(lines[k] == lines[k] && lines[l] == lines[l]);
                        }
                    }
                    lemma_in_force_push(lines, line, j);
                    assert(more[j] == lines[j]);
                }
                if is_for(more, agent, len + 1) {
                    let j = choose|j: int|
                        0 <= j < len + 1 && is_agent_line(#[trigger] more[j], agent) && in_force(
                            more,
                            j,
                            len + 1,
                        );
                    assert(more[j] == lines[j]);
                    lemma_in_force_push(lines, line, j);
                }
                assert(handler.next_agents().contains(agent) <==> is_for(lines, agent, len));
            }
        }
    }
    assert(after.finish_group() == after);
    assert(after.groups == handler.finish_group().groups);
    lemma_lays_down_push(lines, line);
}

/// One line more lays down what was laid down, and its own rule.
proof fn lemma_lays_down_push(lines: Seq<DirectiveView>, line: DirectiveView)
    ensures
        forall|agent: Seq<char>, rule: RuleView| #[trigger]
            lays_down(lines.push(line), agent, rule) <==> lays_down(lines, agent, rule) || (
            rule_in(line) == Some(rule) && is_for(lines, agent, lines.len() as int)),
{
    let more = lines.push(line);
    let len = lines.len() as int;
    assert forall|agent: Seq<char>, rule: RuleView| #[trigger]
        lays_down(more, agent, rule) <==> lays_down(lines, agent, rule) || (rule_in(line) == Some(
            rule,
        ) && is_for(lines, agent, len)) by {
        if lays_down(more, agent, rule) {
            let i = choose|i: int|
                0 <= i < more.len() && rule_in(#[trigger] more[i]) == Some(rule) && is_for(
                    more,
                    agent,
                    i,
                );
            lemma_is_for_push(lines, line, agent, i);
            if i < len {
                assert(lines[i] == more[i]);
            }
        }
        if lays_down(lines, agent, rule) {
            let i = choose|i: int|
                0 <= i < lines.len() && rule_in(#[trigger] lines[i]) == Some(rule) && is_for(
                    lines,
                    agent,
                    i,
                );
            lemma_is_for_push(lines, line, agent, i);
            assert(more[i] == lines[i]);
        }
        if rule_in(line) == Some(rule) && is_for(lines, agent, len) {
            lemma_is_for_push(lines, line, agent, len);
            assert(more[len] == line);
        }
    }
}

/// A line that names no agent leaves those in force that are.
proof fn lemma_still_in_force(lines: Seq<DirectiveView>, line: DirectiveView, agent: Seq<char>)
    requires
        !(line is UserAgent),
    ensures
        is_for(lines.push(line), agent, lines.len() as int + 1) == is_for(
            lines,
            agent,
            lines.len() as int,
        ),
{
    let more = lines.push(line);
    let len = lines.len() as int;
    if is_for(lines, agent, len) {
        let j = choose|j: int|
            0 <= j < len && is_agent_line(#[trigger] lines[j], agent) && in_force(lines, j, len);
        lemma_in_force_push(lines, line, j);
        assert(more[j] == lines[j]);
    }
    if is_for(more, agent, len + 1) {
        let j = choose|j: int|
            0 <= j < len + 1 && is_agent_line(#[trigger] more[j], agent) && in_force(
                more,
                j,
                len + 1,
            );
        assert(more[j] == lines[j]);
        lemma_in_force_push(lines, line, j);
    }
}

/// Whether lines end in rules, with one line more.
proof fn lemma_ends_in_rules_push(lines: Seq<DirectiveView>, line: DirectiveView)
    requires
        !(line is UserAgent),
    ensures
        ends_in_rules(lines.push(line)) <==> ends_in_rules(lines) || rule_in(line) is Some,
{
    let more = lines.push(line);
    let len = lines.len() as int;
    assert(more[len] == line);
    if ends_in_rules(lines) {
        let k = choose|k: int|
            0 <= k < lines.len() && rule_in(#[trigger] lines[k]) is Some && !names_after(lines, k);
        assert(more[k] == lines[k]);
        if names_after(more, k) {
            let l = choose|l: int| k < l < more.len() && (#[trigger] more[l]) is UserAgent;
            assert(lines[l] is UserAgent);
        }
    }
    if ends_in_rules(more) {
        let k = choose|k: int|
            0 <= k < more.len() && rule_in(#[trigger] more[k]) is Some && !names_after(more, k);
        if k < len {
            assert(lines[k] == more[k]);
            if names_after(lines, k) {
                let l = choose|l: int| k < l < lines.len() && (#[trigger] lines[l]) is UserAgent;
                assert(more[l] is UserAgent);
            }
        }
    }
    if rule_in(line) is Some {
        assert(!names_after(more, len));
    }
}

/// Whether groups with another last one hold a rule.
proof fn lemma_group_holds_push(
    groups: Seq<(Set<Seq<char>>, GroupView)>,
    agents: Set<Seq<char>>,
    group: GroupView,
    agent: Seq<char>,
    rule: RuleView,
)
    ensures
        group_holds(groups.push((agents, group)), agent, rule) <==> group_holds(
            groups,
            agent,
            rule,
        ) || (agents.contains(agent) && group.rules.contains(rule)),
{
    let more = groups.push((agents, group));
    if group_holds(groups, agent, rule) {
        let g = choose|g: int|
            0 <= g < groups.len() && (#[trigger] groups[g]).0.contains(agent)
                && groups[g].1.rules.contains(rule);
        assert(more[g] == groups[g]);
    }
    if agents.contains(agent) && group.rules.contains(rule) {
        assert(more[groups.len() as int] == (agents, group));
    }
    if group_holds(more, agent, rule) {
        let g = choose|g: int|
            0 <= g < more.len() && (#[trigger] more[g]).0.contains(agent)
                && more[g].1.rules.contains(rule);
        if g < groups.len() {
            assert(groups[g] == more[g]);
        }
    }
}

/// What a group holds with one rule more.
proof fn lemma_rules_push(rules: Seq<RuleView>, added: RuleView, rule: RuleView)
    ensures
        rules.push(added).contains(rule) <==> rules.contains(rule) || rule == added,
{
    let more = rules.push(added);
    if rules.contains(rule) {
        let i = choose|i: int| 0 <= i < rules.len() && rules[i] == rule;
        assert(more[i] == rule);
    }
    assert(more[rules.len() as int] == added);
}

/// A line that lays down a rule.
proof fn lemma_rule_line(
    handler: HandlerView,
    lines: Seq<DirectiveView>,
    line: DirectiveView,
    fraction: Option<u64>,
)
    requires
        has_read(handler, lines),
        rule_in(line) is Some,
    ensures
        has_read(handler.handle(line, fraction), lines.push(line)),
{
    let added = rule_in(line)->0;
    let after = handler.handle(line, fraction);
    let more = lines.push(line);
    let len = lines.len() as int;
    let agents = handler.next_agents();
    let rules = match handler.group {
        Some(group) => group.rules,
        None => Seq::empty(),
    };
    lemma_ends_in_rules_push(lines, line);
    lemma_lays_down_push(lines, line);
    assert(after.next_agents() == agents);
    assert forall|agent: Seq<char>| #[trigger] after.next_agents().contains(agent) <==> is_for(
        more,
        agent,
        len + 1,
    ) by {
        lemma_still_in_force(lines, line, agent);
        assert(handler.next_agents().contains(agent) <==> is_for(lines, agent, len));
    }
    let (before, done) = (handler.finish_group(), after.finish_group());
    let group = after.group->0;
    assert(group.rules =~= rules.push(added));
    assert(done.groups == handler.groups.push((agents, group)));
    assert forall|agent: Seq<char>, rule: RuleView| #[trigger]
        group_holds(done.groups, agent, rule) <==> lays_down(more, agent, rule) by {
        lemma_group_holds_push(handler.groups, agents, group, agent, rule);
        lemma_rules_push(rules, added, rule);
        if let Some(open) = handler.group {
            lemma_group_holds_push(handler.groups, agents, open, agent, rule);
        }
        assert(group_holds(before.groups, agent, rule) <==> lays_down(lines, agent, rule));
        assert(handler.next_agents().contains(agent) <==> is_for(lines, agent, len));
    }
    assert forall|g: int| 0 <= g < done.groups.len() implies (
    #[trigger] done.groups[g]).1.rules.len() > 0 by {
        if g < handler.groups.len() {
            assert(done.groups[g] == handler.groups[g]);
            assert(before.groups[g] == handler.groups[g]);
        }
    }
}

/// A line that neither names an agent nor lays down a rule.
proof fn lemma_other_line(
    handler: HandlerView,
    lines: Seq<DirectiveView>,
    line: DirectiveView,
    fraction: Option<u64>,
)
    requires
        has_read(handler, lines),
        !(line is UserAgent),
        rule_in(line) is None,
    ensures
        has_read(handler.handle(line, fraction), lines.push(line)),
{
    let after = handler.handle(line, fraction);
    let more = lines.push(line);
    let len = lines.len() as int;
    lemma_ends_in_rules_push(lines, line);
    lemma_lays_down_push(lines, line);
    assert forall|agent: Seq<char>| #[trigger] after.next_agents().contains(agent) <==> is_for(
        more,
        agent,
        len + 1,
    ) by {
        lemma_still_in_force(lines, line, agent);
        assert(handler.next_agents().contains(agent) <==> is_for(lines, agent, len));
    }
    let (before, done) = (handler.finish_group(), after.finish_group());
    assert forall|agent: Seq<char>, rule: RuleView| #[trigger]
        group_holds(done.groups, agent, rule) <==> lays_down(more, agent, rule) by {
        if let (Some(open), Some(group)) = (handler.group, after.group) {
            lemma_group_holds_push(handler.groups, handler.next_agents(), open, agent, rule);
            lemma_group_holds_push(handler.groups, handler.next_agents(), group, agent, rule);
        }
        assert(group_holds(before.groups, agent, rule) <==> lays_down(lines, agent, rule));
    }
    assert forall|g: int| 0 <= g < done.groups.len() implies (
    #[trigger] done.groups[g]).1.rules.len() > 0 by {
        assert(before.groups[g].1.rules.len() > 0);
    }
}

/// A handler that has handled some lines has read them.
proof fn lemma_handled_is_read(lines: Seq<DirectiveView>, fractions: Seq<Option<u64>>)
    ensures
        has_read(HandlerView::start().handle_all(lines, fractions), lines),
    decreases lines.len(),
{
    if lines.len() == 0 {
        assert(lines =~= Seq::empty());
        lemma_nothing_read();
    } else {
        let (others, line) = (lines.drop_last(), lines.last());
        lemma_handled_is_read(others, fractions);
        let handler = HandlerView::start().handle_all(others, fractions);
        assert(others.push(line) =~= lines);
        let fraction = if others.len() < fractions.len() {
            fractions[others.len() as int]
        } else {
            None
        };
        if let DirectiveView::UserAgent(n, name) = line {
            lemma_agent_line(handler, others, n, name);
        } else if rule_in(line) is Some {
            lemma_rule_line(handler, others, line, fraction);
        } else {
            lemma_other_line(handler, others, line, fraction);
        }
    }
}

/// The places of the groups of an agent are those of the groups that are for it.
proof fn lemma_places(groups: Seq<(Set<Seq<char>>, GroupView)>, agent: Seq<char>, place: int)
    requires
        groups.len() <= usize::MAX,
    ensures
        (exists|k: int|
            0 <= k < groups_of(groups, agent).len() && #[trigger] groups_of(groups, agent)[k]
                == place) <==> 0 <= place < groups.len() && groups[place].0.contains(agent),
    decreases groups.len(),
{
    if groups.len() > 0 {
        let before = groups_of(groups.drop_last(), agent);
        let after = groups_of(groups, agent);
        lemma_places(groups.drop_last(), agent, place);
        if exists|k: int| 0 <= k < before.len() && #[trigger] before[k] == place {
            let k = choose|k: int| 0 <= k < before.len() && #[trigger] before[k] == place;
            assert(after[k] == place);
        }
        if exists|k: int| 0 <= k < after.len() && #[trigger] after[k] == place {
            let k = choose|k: int| 0 <= k < after.len() && #[trigger] after[k] == place;
            if k < before.len() {
                assert(before[k] == place);
            }
        }
        if place == groups.len() - 1 && groups.last().0.contains(agent) {
            assert(after[before.len() as int] == place);
        }
    }
}

/// The patterns that rules deny are those of the rules that disallow.
proof fn lemma_denied(rules: Seq<RuleView>, pattern: Seq<char>)
    ensures
        denied(rules).contains(pattern) <==> rules.contains(RuleView { pattern, allow: false }),
    decreases rules.len(),
{
    let rule = RuleView { pattern, allow: false };
    if rules.len() > 0 {
        lemma_denied(rules.drop_last(), pattern);
        lemma_rules_push(rules.drop_last(), rules.last(), rule);
        assert(rules.drop_last().push(rules.last()) =~= rules);
        let before = denied(rules.drop_last());
        if !rules.last().allow {
            let after = before.push(rules.last().pattern);
            if before.contains(pattern) {
                let i = choose|i: int| 0 <= i < before.len() && before[i] == pattern;
                assert(after[i] == pattern);
            }
            assert(after[before.len() as int] == rules.last().pattern);
        }
    }
}

/// The patterns that groups deny are those that one of them does.
proof fn lemma_denied_by(groups: Seq<GroupView>, list: Seq<usize>, pattern: Seq<char>)
    ensures
        denied_by(groups, list).contains(pattern) <==> exists|k: int|
            0 <= k < list.len() && groups[#[trigger] list[k] as int].rules.contains(
                RuleView { pattern, allow: false },
            ),
    decreases list.len(),
{
    if list.len() > 0 {
        let others = list.drop_last();
        lemma_denied_by(groups, others, pattern);
        lemma_denied(groups[list.last() as int].rules, pattern);
        let before = denied_by(groups, others);
        let own = denied(groups[list.last() as int].rules);
        let all = before + own;
        if before.contains(pattern) {
            let i = choose|i: int| 0 <= i < before.len() && before[i] == pattern;
            assert(all[i] == pattern);
            let k = choose|k: int|
                0 <= k < others.len() && groups[#[trigger] others[k] as int].rules.contains(
                    RuleView { pattern, allow: false },
                );
            assert(list[k] == others[k]);
        }
        if own.contains(pattern) {
            let i = choose|i: int| 0 <= i < own.len() && own[i] == pattern;
            assert(all[before.len() + i] == pattern);
            assert(list[list.len() - 1] == list.last());
        }
        if all.contains(pattern) {
            let i = choose|i: int| 0 <= i < all.len() && all[i] == pattern;
            if i < before.len() {
                assert(before[i] == pattern);
            } else {
                assert(own[i - before.len()] == pattern);
            }
        }
        if exists|k: int|
            0 <= k < list.len() && groups[#[trigger] list[k] as int].rules.contains(
                RuleView { pattern, allow: false },
            ) {
            let k = choose|k: int|
                0 <= k < list.len() && groups[#[trigger] list[k] as int].rules.contains(
                    RuleView { pattern, allow: false },
                );
            if k < others.len() {
                assert(others[k] == list[k]);
            }
        }
    }
}

/// A `robots.txt` lists just the agents that one of its rules is for, and disallows to an agent
/// just the patterns that stand in a `Disallow` line below a line that names it, where no other
/// agents were named behind a rule in between. Lines with other keys change nothing, wherever they
/// stand.
pub proof fn law_rules_are_for_the_agents_above_them(
    text: Seq<char>,
    fractions: Seq<Option<u64>>,
    agent: Seq<char>,
    pattern: Seq<char>,
)
    requires
        robots_directives(text).len() <= usize::MAX,
    ensures
        ({
            let lines = robots_directives(text);
            let data = robots_of(text, fractions);
            &&& data.group_agents.contains_key(agent) <==> is_listed(lines, agent)
            &&& data.denied_patterns(agent).contains(pattern) <==> lays_down(
                lines,
                agent,
                RuleView { pattern, allow: false },
            )
            &&& !data.allow_all
            &&& !data.disallow_all
        }),
{
    let lines = robots_directives(text);
    let data = robots_of(text, fractions);
    let rule = RuleView { pattern, allow: false };
    lemma_handled_is_read(lines, fractions);
    let done = HandlerView::start().handle_all(lines, fractions).finish_group();
    let groups = done.groups;
    let list = groups_of(groups, agent);
    assert(data == done.finish());
    assert(data.group_agents.contains_key(agent) <==> list.len() > 0);
    if list.len() > 0 {
        let g = list[0] as int;
        lemma_places(groups, agent, g);
        assert(groups[g].1.rules.len() > 0);
        let held = groups[g].1.rules[0];
        assert(groups[g].1.rules.contains(held));
        assert(group_holds(groups, agent, held));
        assert(lays_down(lines, agent, held));
        let i = choose|i: int|
            0 <= i < lines.len() && rule_in(#[trigger] lines[i]) == Some(held) && is_for(
                lines,
                agent,
                i,
            );
        assert(rule_in(lines[i]) is Some);
    }
    if is_listed(lines, agent) {
        let i = choose|i: int|
            0 <= i < lines.len() && rule_in(#[trigger] lines[i]) is Some && is_for(lines, agent, i);
        let held = rule_in(lines[i])->0;
        assert(lays_down(lines, agent, held));
        assert(group_holds(groups, agent, held));
        let g = choose|g: int|
            0 <= g < groups.len() && (#[trigger] groups[g]).0.contains(agent)
                && groups[g].1.rules.contains(held);
        lemma_places(groups, agent, g);
    }
    lemma_denied_by(data.groups, list, pattern);
    assert(group_holds(groups, agent, rule) <==> lays_down(lines, agent, rule));
    if group_holds(groups, agent, rule) {
        let g = choose|g: int|
            0 <= g < groups.len() && (#[trigger] groups[g]).0.contains(agent)
                && groups[g].1.rules.contains(rule);
        lemma_places(groups, agent, g);
        let k = choose|k: int| 0 <= k < list.len() && #[trigger] list[k] == g;
        assert(data.groups[list[k] as int] == groups[g].1);
    }
    if exists|k: int|
        0 <= k < list.len() && data.groups[#[trigger] list[k] as int].rules.contains(rule) {
        let k = choose|k: int|
            0 <= k < list.len() && data.groups[#[trigger] list[k] as int].rules.contains(rule);
        lemma_places(groups, agent, list[k] as int);
        assert(data.groups[list[k] as int] == groups[list[k] as int].1);
    }
}

/// The agent whose rules count for a request with these headers: the one of its first
/// `user-agent` header, if that is text and rules are listed for it, and otherwise `*`.
pub open spec fn counting_agent(
    headers: reqwest::header::HeaderMap,
    listed: spec_fn(Seq<char>) -> bool,
) -> Seq<char> {
    let values = header_values(headers);
    if values.contains_key("user-agent"@) {
        match header_text(values["user-agent"@][0]) {
            Some(name) => if listed(name) {
                name
            } else {
                "*"@
            },
            None => "*"@,
        }
    } else {
        "*"@
    }
}

/// A request may be sent just if none of the rules that a `robots.txt` lays down for its agent
/// disallows a pattern that its path matches. An agent that no rule is for goes by the rules for
/// `*`.
pub proof fn law_robots_decide_by_path_and_agent(
    text: Seq<char>,
    fractions: Seq<Option<u64>>,
    url: Seq<char>,
    path: Seq<char>,
    headers: reqwest::header::HeaderMap,
)
    requires
        robots_directives(text).len() <= usize::MAX,
        url_path(url) == Some(path),
    ensures
        ({
            let lines = robots_directives(text);
            let agent = counting_agent(headers, |name: Seq<char>| is_listed(lines, name));
            robots_of(text, fractions).permits(url, headers) <==> !exists|pattern: Seq<char>|
                {
                    &&& #[trigger] pattern_matches(path_params_query(path), pattern)
                    &&& lays_down(lines, agent, RuleView { pattern, allow: false })
                }
        }),
{
    let lines = robots_directives(text);
    let data = robots_of(text, fractions);
    let agent = counting_agent(headers, |name: Seq<char>| is_listed(lines, name));
    let none = Seq::<char>::empty();
    law_rules_are_for_the_agents_above_them(text, fractions, agent, none);
    if let Some(name) = user_agent(headers) {
        law_rules_are_for_the_agents_above_them(text, fractions, name, none);
    }
    assert(data.rule_agent(headers) == agent);
    let patterns = data.denied_patterns(agent);
    if exists|pattern: Seq<char>|
        {
            &&& #[trigger] pattern_matches(path_params_query(path), pattern)
            &&& lays_down(lines, agent, RuleView { pattern, allow: false })
        } {
        let pattern = choose|pattern: Seq<char>|
            {
                &&& #[trigger] pattern_matches(path_params_query(path), pattern)
                &&& lays_down(lines, agent, RuleView { pattern, allow: false })
            };
        law_rules_are_for_the_agents_above_them(text, fractions, agent, pattern);
        let i = choose|i: int| 0 <= i < patterns.len() && patterns[i] == pattern;
        assert(pattern_matches(path_params_query(path), patterns[i]));
    }
    if !data.permits(url, headers) {
        let i = choose|i: int|
            0 <= i < patterns.len() && pattern_matches(
                path_params_query(path),
                #[trigger] patterns[i],
            );
        assert(patterns.contains(patterns[i]));
        law_rules_are_for_the_agents_above_them(text, fractions, agent, patterns[i]);
    }
}

/// Data of any origin decides so too: the flags come first, that nothing is allowed before that
/// everything is; where none is set, a request may be sent unless a rule that disallows, in one of
/// the groups that are listed for its agent, has a pattern that its path matches.
pub proof fn law_data_decides_by_path_and_agent(
    data: RobotsView,
    url: Seq<char>,
    path: Seq<char>,
    headers: reqwest::header::HeaderMap,
)
    requires
        url_path(url) == Some(path),
    ensures
        data.disallow_all ==> !data.permits(url, headers),
        !data.disallow_all && data.allow_all ==> data.permits(url, headers),
        !data.disallow_all && !data.allow_all ==> ({
            let agent = counting_agent(
                headers,
                |name: Seq<char>| data.group_agents.contains_key(name),
            );
            data.permits(url, headers) <==> !(data.group_agents.contains_key(agent) && exists|
                k: int,
                r: int,
            |
                {
                    let rules = data.groups[data.group_agents[agent][k] as int].rules;
                    &&& 0 <= k < data.group_agents[agent].len()
                    &&& 0 <= r < rules.len()
                    &&& !(#[trigger] data.groups[data.group_agents[agent][k] as int].rules[r]).allow
                    &&& pattern_matches(path_params_query(path), rules[r].pattern)
                })
        }),
{
    let agent = counting_agent(headers, |name: Seq<char>| data.group_agents.contains_key(name));
    assert(data.rule_agent(headers) == agent);
    if !data.disallow_all && !data.allow_all && data.group_agents.contains_key(agent) {
        let list = data.group_agents[agent];
        let patterns = data.denied_patterns(agent);
        if !data.permits(url, headers) {
            let i = choose|i: int|
                0 <= i < patterns.len() && pattern_matches(
                    path_params_query(path),
                    #[trigger] patterns[i],
                );
            lemma_denied_by(data.groups, list, patterns[i]);
            assert(patterns.contains(patterns[i]));
            let rule = RuleView { pattern: patterns[i], allow: false };
            let k = choose|k: int|
                0 <= k < list.len() && data.groups[#[trigger] list[k] as int].rules.contains(rule);
            let rules = data.groups[list[k] as int].rules;
            let r = choose|r: int| 0 <= r < rules.len() && rules[r] == rule;
            assert(!data.groups[data.group_agents[agent][k] as int].rules[r].allow);
        }
        if exists|k: int, r: int|
            {
                let rules = data.groups[data.group_agents[agent][k] as int].rules;
                &&& 0 <= k < data.group_agents[agent].len()
                &&& 0 <= r < rules.len()
                &&& !(#[trigger] data.groups[data.group_agents[agent][k] as int].rules[r]).allow
                &&& pattern_matches(path_params_query(path), rules[r].pattern)
            } {
            let (k, r) = choose|k: int, r: int|
                {
                    let rules = data.groups[data.group_agents[agent][k] as int].rules;
                    &&& 0 <= k < data.group_agents[agent].len()
                    &&& 0 <= r < rules.len()
                    &&& !(#[trigger] data.groups[data.group_agents[agent][k] as int].rules[r]).allow
                    &&& pattern_matches(path_params_query(path), rules[r].pattern)
                };
            let rules = data.groups[list[k] as int].rules;
            let pattern = rules[r].pattern;
            assert(rules[r] == RuleView { pattern, allow: false });
            assert(rules.contains(RuleView { pattern, allow: false }));
            lemma_denied_by(data.groups, list, pattern);
            let i = choose|i: int| 0 <= i < patterns.len() && patterns[i] == pattern;
            assert(pattern_matches(path_params_query(path), patterns[i]));
        }
    }
}

/// Whether a line counts for what a `robots.txt` permits.
pub open spec fn counts(line: DirectiveView) -> bool {
    line is UserAgent || line is Allow || line is Disallow
}

/// Groups without their pauses.
spec fn without_pauses(groups: Seq<(Set<Seq<char>>, GroupView)>) -> Seq<
    (Set<Seq<char>>, Seq<RuleView>),
> {
    groups.map_values(|entry: (Set<Seq<char>>, GroupView)| (entry.0, entry.1.rules))
}

/// Whether two handlers differ in pauses at most.
spec fn alike(first: HandlerView, second: HandlerView) -> bool {
    &&& without_pauses(first.groups) == without_pauses(second.groups)
    &&& first.agents == second.agents
    &&& match (first.group, second.group) {
        (Some(one), Some(other)) => one.rules == other.rules,
        (None, None) => true,
        _ => false,
    }
}

proof fn lemma_alike_handle(
    first: HandlerView,
    second: HandlerView,
    line: DirectiveView,
    fraction: Option<u64>,
    other: Option<u64>,
)
    requires
        alike(first, second),
    ensures
        alike(first.handle(line, fraction), second.handle(line, other)),
        !counts(line) ==> alike(first.handle(line, fraction), second),
        alike(first.finish_group(), second.finish_group()),
{
    lemma_alike_finish(first, second);
    assert(without_pauses(first.handle(line, fraction).groups) =~= without_pauses(
        second.handle(line, other).groups,
    ));
}

proof fn lemma_alike_finish(first: HandlerView, second: HandlerView)
    requires
        alike(first, second),
    ensures
        alike(first.finish_group(), second.finish_group()),
{
    let (one, other) = (first.finish_group().groups, second.finish_group().groups);
    assert(first.groups.len() == without_pauses(first.groups).len());
    assert(second.groups.len() == without_pauses(second.groups).len());
    assert forall|g: int| 0 <= g < one.len() implies #[trigger] without_pauses(one)[g]
        == without_pauses(other)[g] by {
        if g < first.groups.len() {
            assert(without_pauses(first.groups)[g] == without_pauses(second.groups)[g]);
        }
    }
    assert(without_pauses(one) =~= without_pauses(other));
}

proof fn lemma_alike_read(
    lines: Seq<DirectiveView>,
    fractions: Seq<Option<u64>>,
    others: Seq<Option<u64>>,
)
    ensures
        alike(
            HandlerView::start().handle_all(lines, fractions),
            HandlerView::start().handle_all(
                lines.filter(|line: DirectiveView| counts(line)),
                others,
            ),
        ),
    decreases lines.len(),
{
    let pick = |line: DirectiveView| counts(line);
    reveal(Seq::filter);
    if lines.len() > 0 {
        lemma_alike_read(lines.drop_last(), fractions, others);
        let first = HandlerView::start().handle_all(lines.drop_last(), fractions);
        let kept = lines.drop_last().filter(pick);
        let second = HandlerView::start().handle_all(kept, others);
        let fraction = if lines.len() - 1 < fractions.len() {
            fractions[lines.len() - 1]
        } else {
            None
        };
        let other = if kept.len() < others.len() {
            others[kept.len() as int]
        } else {
            None
        };
        lemma_alike_handle(first, second, lines.last(), fraction, other);
        if counts(lines.last()) {
            assert(lines.filter(pick) =~= kept.push(lines.last()));
            assert(kept.push(lines.last()).drop_last() =~= kept);
        } else {
            assert(lines.filter(pick) =~= kept);
        }
    }
}

proof fn lemma_alike_places(
    first: Seq<(Set<Seq<char>>, GroupView)>,
    second: Seq<(Set<Seq<char>>, GroupView)>,
    agent: Seq<char>,
)
    requires
        without_pauses(first) == without_pauses(second),
    ensures
        groups_of(first, agent) == groups_of(second, agent),
        first.len() == second.len(),
    decreases first.len(),
{
    assert(first.len() == without_pauses(first).len());
    assert(second.len() == without_pauses(second).len());
    if first.len() > 0 {
        let (one, other) = (first.drop_last(), second.drop_last());
        assert forall|g: int| 0 <= g < one.len() implies #[trigger] without_pauses(one)[g]
            == without_pauses(other)[g] by {
            assert(without_pauses(first)[g] == without_pauses(second)[g]);
        }
        assert(without_pauses(one) =~= without_pauses(other));
        lemma_alike_places(one, other, agent);
        assert(without_pauses(first)[first.len() - 1] == without_pauses(second)[second.len() - 1]);
    }
}

proof fn lemma_alike_denies(first: Seq<GroupView>, second: Seq<GroupView>, list: Seq<usize>)
    requires
        forall|k: int|
            0 <= k < list.len() ==> first[#[trigger] list[k] as int].rules
                == second[list[k] as int].rules,
    ensures
        denied_by(first, list) == denied_by(second, list),
    decreases list.len(),
{
    if list.len() > 0 {
        let others = list.drop_last();
        assert forall|k: int| 0 <= k < others.len() implies first[#[trigger] others[k] as int].rules
            == second[others[k] as int].rules by {
            assert(others[k] == list[k]);
        }
        lemma_alike_denies(first, second, others);
        assert(list[list.len() - 1] == list.last());
    }
}

/// Taking the lines with other keys than `User-agent`, `Allow` and `Disallow` out of a `robots.txt`
/// leaves what it permits to every request the same.
pub proof fn law_other_lines_permit_the_same(
    text: Seq<char>,
    shorter: Seq<char>,
    fractions: Seq<Option<u64>>,
    others: Seq<Option<u64>>,
    url: Seq<char>,
    headers: reqwest::header::HeaderMap,
)
    requires
        robots_directives(text).len() <= usize::MAX,
        robots_directives(shorter) == robots_directives(text).filter(
            |line: DirectiveView| counts(line),
        ),
    ensures
        robots_of(text, fractions).permits(url, headers) == robots_of(shorter, others).permits(
            url,
            headers,
        ),
{
    let lines = robots_directives(text);
    lemma_alike_read(lines, fractions, others);
    lemma_handled_is_read(lines, fractions);
    let first = HandlerView::start().handle_all(lines, fractions);
    let second = HandlerView::start().handle_all(robots_directives(shorter), others);
    lemma_alike_finish(first, second);
    let (one, other) = (first.finish_group().groups, second.finish_group().groups);
    let (data, same) = (robots_of(text, fractions), robots_of(shorter, others));
    assert forall|agent: Seq<char>|
        #![trigger data.denied_patterns(agent)]
        data.group_agents.contains_key(agent) == same.group_agents.contains_key(agent)
            && data.denied_patterns(agent) == same.denied_patterns(agent) by {
        lemma_alike_places(one, other, agent);
        let list = groups_of(one, agent);
        assert forall|k: int| 0 <= k < list.len() implies data.groups[#[trigger] list[k] as int].rules
            == same.groups[list[k] as int].rules by {
            lemma_places(one, agent, list[k] as int);
            let g = list[k] as int;
            assert(without_pauses(one)[g] == without_pauses(other)[g]);
        }
        lemma_alike_denies(data.groups, same.groups, list);
    }
    if let Some(name) = user_agent(headers) {
        assert(data.denied_patterns(name) == same.denied_patterns(name));
    }
    let agent = data.rule_agent(headers);
    assert(data.denied_patterns(agent) == same.denied_patterns(agent));
    assert(same.rule_agent(headers) == agent);
    let (path, patterns) = (rule_path(url), data.denied_patterns(agent));
    assert(data.permits(url, headers) <==> !exists|i: int|
        0 <= i < patterns.len() && pattern_matches(path, #[trigger] patterns[i]));
    assert(same.permits(url, headers) <==> !exists|i: int|
        0 <= i < patterns.len() && pattern_matches(path, #[trigger] patterns[i]));
}

/// A line with the address of a sitemap changes nothing at all. A line with any other key changes
/// at most the pause of the group in progress, and that only where the key is `crawl-delay` or
/// `crawldelay`, in any case: a whole number counts as seconds, of which only the rest modulo a
/// thousand counts, and anything else as what it comes to as a fraction, in milliseconds.
pub proof fn law_other_lines_touch_the_pause_only(
    handler: HandlerView,
    line: u32,
    key: Seq<char>,
    value: Seq<char>,
    fraction: Option<u64>,
)
    ensures
        handler.handle(DirectiveView::Sitemap(line, value), fraction) == handler,
        ({
            let after = handler.handle(DirectiveView::Unknown(line, key, value), fraction);
            let lower = lowercase(key);
            &&& after.groups == handler.groups
            &&& after.agents == handler.agents
            &&& match handler.group {
                None => after.group is None,
                Some(group) => {
                    &&& after.group matches Some(changed)
                    &&& changed.rules == group.rules
                    &&& changed.crawl_delay == if lower == "crawl-delay"@ || lower
                        == "crawldelay"@ {
                        match (read_u64(value), fraction) {
                            (Some(secs), _) => Some(((secs % 1000) as u64, 0u32)),
                            (None, Some(millis)) => Some(
                                ((millis / 1000) as u64, (millis % 1000 * 1_000_000) as u32),
                            ),
                            (None, None) => group.crawl_delay,
                        }
                    } else {
                        group.crawl_delay
                    }
                },
            }
        }),
{
}

/// A line that lays down a rule adds it behind the others of the group in progress, whose pause it
/// keeps; a group that it opens asks for no pause. An empty pattern changes nothing. The agents and
/// the finished groups stay.
pub proof fn law_rules_are_gathered_in_order(
    handler: HandlerView,
    line: u32,
    pattern: Seq<char>,
    fraction: Option<u64>,
)
    ensures
        ({
            let allowing = handler.handle(DirectiveView::Allow(line, pattern), fraction);
            let denying = handler.handle(DirectiveView::Disallow(line, pattern), fraction);
            let (pause, rules) = match handler.group {
                Some(group) => (group.crawl_delay, group.rules),
                None => (None, Seq::empty()),
            };
            if pattern.len() == 0 {
                allowing == handler && denying == handler
            } else {
                &&& allowing.groups == handler.groups && denying.groups == handler.groups
                &&& allowing.agents == handler.agents && denying.agents == handler.agents
                &&& allowing.group == Some(
                    GroupView {
                        crawl_delay: pause,
                        rules: rules.push(RuleView { pattern, allow: true }),
                    },
                )
                &&& denying.group == Some(
                    GroupView {
                        crawl_delay: pause,
                        rules: rules.push(RuleView { pattern, allow: false }),
                    },
                )
            }
        }),
{
}

/// The end of a `robots.txt`, and every line that names an agent behind a rule, finish the group in
/// progress: it goes, with its rules, its pause and its agents, behind the finished ones, which
/// keep their places. The data holds the finished groups in that order.
pub proof fn law_groups_are_finished_in_order(handler: HandlerView, line: u32, name: Seq<char>)
    ensures
        ({
            let done = handler.finish_group();
            let named = handler.handle(DirectiveView::UserAgent(line, name), None);
            &&& match handler.group {
                Some(group) => {
                    &&& done.groups.len() == handler.groups.len() + 1
                    &&& done.groups.last().1 == group
                    &&& forall|agent: Seq<char>|
                        done.groups.last().0.contains(agent) <==> (handler.agents matches Some(
                            agents,
                        ) && agents.contains(agent))
                },
                None => done == handler,
            }
            &&& forall|g: int|
                0 <= g < handler.groups.len() ==> #[trigger] done.groups[g] == handler.groups[g]
            &&& named.groups == done.groups
            &&& done.finish().groups.len() == done.groups.len()
            &&& forall|g: int|
                0 <= g < done.groups.len() ==> #[trigger] done.finish().groups[g]
                    == done.groups[g].1
        }),
{
}

/// Lines are read in their order, each with the fraction at its own place, if there is one; nothing
/// is there before the first.
pub proof fn law_lines_are_read_in_order(
    lines: Seq<DirectiveView>,
    line: DirectiveView,
    fractions: Seq<Option<u64>>,
)
    ensures
        ({
            let before = HandlerView::start().handle_all(lines, fractions);
            HandlerView::start().handle_all(lines.push(line), fractions) == before.handle(
                line,
                if lines.len() < fractions.len() {
                    fractions[lines.len() as int]
                } else {
                    None
                },
            )
        }),
        HandlerView::start().handle_all(Seq::empty(), fractions) == HandlerView::start(),
        HandlerView::start().groups.len() == 0,
        HandlerView::start().group is None,
        HandlerView::start().agents is None,
{
    assert(lines.push(line).drop_last() =~= lines);
}

/// A header is text just if each of its bytes is a blank, a tab or a visible ASCII character; the
/// text then has a character for each byte, with the same code.
pub proof fn law_header_text_is_ascii(bytes: Seq<u8>)
    ensures
        match header_text(bytes) {
            Some(text) => {
                &&& text.len() == bytes.len()
                &&& forall|i: int|
                    0 <= i < bytes.len() ==> {
                        &&& #[trigger] bytes[i] == 9 || 32 <= bytes[i] <= 126
                        &&& text[i] as u32 == bytes[i]
                    }
            },
            None => exists|i: int|
                0 <= i < bytes.len() && (#[trigger] bytes[i] > 126 || (bytes[i] < 32 && bytes[i]
                    != 9)),
        },
{
}

/// A number is read digit by digit: one digit more makes it ten times as large and adds the digit,
/// as long as a `u64` holds it. A plus sign before the first digit counts for nothing.
pub proof fn law_numbers_are_decimal(digits: Seq<char>, digit: char)
    ensures
        read_u64(seq!['+']) is None,
        read_u64(Seq::empty()) is None,
        '0' <= digit <= '9' ==> read_u64(seq![digit]) == Some((digit as u64 - '0' as u64) as u64),
        !('0' <= digit <= '9') ==> read_u64(digits.push(digit)) is None,
        digits.len() > 0 && digits[0] != '+' ==> read_u64(seq!['+'] + digits) == read_u64(digits),
        '0' <= digit <= '9' ==> match read_u64(digits) {
            Some(number) => {
                let larger = number * 10 + (digit as int - '0' as int);
                read_u64(digits.push(digit)) == if larger <= u64::MAX {
                    Some(larger as u64)
                } else {
                    None
                }
            },
            None => digits.len() > 1 || digits.len() == 1 && digits[0] != '+' ==> read_u64(
                digits.push(digit),
            ) is None,
        },
{
    let more = digits.push(digit);
    let plus = if digits.len() > 0 && digits[0] == '+' {
        1int
    } else {
        0int
    };
    assert(seq![digit].drop_last() =~= Seq::empty());
    assert(seq![digit][0] == digit);
    reveal_with_fuel(decimal, 2);
    assert(seq!['+'].skip(1) =~= Seq::empty());
    if digits.len() > 0 {
        assert(more[0] == digits[0]);
        assert(more.skip(plus) =~= digits.skip(plus).push(digit));
        assert(digits.skip(0) =~= digits);
        assert(more.skip(0) =~= more);
        let (own, longer) = (digits.skip(plus), digits.skip(plus).push(digit));
        assert(longer.drop_last() =~= own);
        assert(longer.last() == digit);
        assert forall|i: int| 0 <= i < own.len() implies longer[i] == #[trigger] own[i] by {}
        assert(longer[own.len() as int] == digit);
        if own.len() > 0 {
            let marked = seq!['+'] + digits;
            assert(marked.skip(1) =~= digits);
            assert(marked[0] == '+');
        }
        if read_u64(digits) is None && (exists|i: int|
            0 <= i < own.len() && !is_digit(#[trigger] own[i])) {
            let i = choose|i: int| 0 <= i < own.len() && !is_digit(#[trigger] own[i]);
            assert(!is_digit(longer[i]));
        }
    } else {
        assert(more =~= seq![digit]);
    }
}

} // verus!
