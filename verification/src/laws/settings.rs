//! What a config says after each setting, and what becomes of the settings in a crawler.
use crate::allow_list::{lemma_taken_out, AllowPhaseView, AllowState};
use crate::allowed_domain::DomainState;
use crate::collector::{Collector, Scraper};
use crate::config::{
    allowing_with_delays, name_texts, ConfigState, CrawlerConfig, CrawlerSettings,
};
use crate::crawler::{domain_config, Crawler, CrawlerPhaseView, CrawlerSignal, CrawlerState};
use crate::domain::{lemma_listing_uses_up, ListingState};
use crate::error::CrawlError;
use crate::fetch::{swap_removed, DemandView, Progress, Signal};
use crate::laws::config::{
    law_config_decides_by_host, law_config_limits_the_depth, law_config_limits_the_requests,
    law_crawler_obeys_its_config, Happening,
};
use crate::laws::invariants::{
    law_listing_stays_well_formed, lemma_hear_is_sound, lemma_poll_finds_idle,
    lemma_visited_attends,
};
use crate::laws::limits::{
    law_block_list_keeps_its_settings, law_domain_keeps_its_settings_on_requests,
    law_drained_domain_is_within_depth,
};
use crate::requests::{QueuedRequest, RequestDelay};
use crate::time::Timer;
use crate::web::PageRequest;
use reqwest_middleware::ClientWithMiddleware;
use std::sync::Arc;
use vstd::prelude::*;

verus! {

/// Whether an entry of a list of domains is the last one for its domain.
pub open spec fn is_last_entry(domains: Seq<(&str, RequestDelay)>, i: int) -> bool {
    forall|j: int| i < j < domains.len() ==> (#[trigger] domains[j]).0@ != domains[i].0@
}

/// Whether two configs say the same but for the allowed domains.
pub open spec fn same_but_allowed(config: ConfigState, after: ConfigState) -> bool {
    &&& after.max_depth == config.max_depth
    &&& after.max_requests == config.max_requests
    &&& after.skip_non_successful_responses == config.skip_non_successful_responses
    &&& after.disallowed == config.disallowed
    &&& after.respect_robots_txt == config.respect_robots_txt
    &&& after.client == config.client
}

/// Whether two configs say the same but for what a single setting sets: the limits, whether
/// responses are skipped, whether the `robots.txt` is respected, and the client.
pub open spec fn same_domains_allowed(config: ConfigState, after: ConfigState) -> bool {
    after.allowed == config.allowed && after.disallowed == config.disallowed
}

proof fn lemma_last_delay_counts(
    allowed: Map<Seq<char>, Option<RequestDelay>>,
    domains: Seq<(&str, RequestDelay)>,
)
    ensures
        ({
            let after = allowing_with_delays(allowed, domains);
            &&& forall|i: int|
                0 <= i < domains.len() && is_last_entry(domains, i) ==> {
                    &&& after.contains_key((#[trigger] domains[i]).0@)
                    &&& after[domains[i].0@] == Some(domains[i].1)
                }
            &&& forall|name: Seq<char>|
                (forall|i: int| 0 <= i < domains.len() ==> (#[trigger] domains[i]).0@ != name) ==> {
                    &&& #[trigger] after.contains_key(name) == allowed.contains_key(name)
                    &&& after[name] == allowed[name]
                }
        }),
    decreases domains.len(),
{
    if domains.len() > 0 {
        let before = domains.drop_last();
        lemma_last_delay_counts(allowed, before);
        let earlier = allowing_with_delays(allowed, before);
        let after = allowing_with_delays(allowed, domains);
        let last = domains.len() - 1;
        assert forall|i: int| 0 <= i < domains.len() && is_last_entry(domains, i) implies {
            &&& after.contains_key((#[trigger] domains[i]).0@)
            &&& after[domains[i].0@] == Some(domains[i].1)
        } by {
            if i < last {
                assert(domains[last].0@ != domains[i].0@);
                assert(before[i] == domains[i]);
                assert forall|j: int| i < j < before.len() implies (#[trigger] before[j]).0@
                    != before[i].0@ by {
                    assert(domains[j] == before[j]);
                }
                assert(is_last_entry(before, i));
            }
        }
        assert forall|name: Seq<char>|
            (forall|i: int| 0 <= i < domains.len() ==> (#[trigger] domains[i]).0@ != name) implies {
            &&& #[trigger] after.contains_key(name) == allowed.contains_key(name)
            &&& after[name] == allowed[name]
        } by {
            assert(domains[last].0@ != name);
            assert forall|i: int| 0 <= i < before.len() implies (#[trigger] before[i]).0@ != name by {
                assert(domains[i] == before[i]);
            }
            assert(earlier.contains_key(name) == allowed.contains_key(name));
        }
    }
}

/// Domains that are allowed with delays are allowed from then on, each with the delay of its last
/// entry in the list. Every other domain stays as it was, and so does all else that the config
/// says.
pub proof fn law_named_domains_get_their_delays(
    config: CrawlerConfig,
    domains: &[(&str, RequestDelay)],
    after: CrawlerConfig,
)
    requires
        call_ensures(CrawlerConfig::allow_domains_with_delay, (config, domains), after),
    ensures
        forall|i: int|
            0 <= i < domains@.len() && is_last_entry(domains@, i) ==> {
                &&& after@.allowed.contains_key((#[trigger] domains@[i]).0@)
                &&& after@.allowed[domains@[i].0@] == Some(domains@[i].1)
            },
        forall|name: Seq<char>|
            (forall|i: int| 0 <= i < domains@.len() ==> (#[trigger] domains@[i]).0@ != name) ==> {
                &&& #[trigger] after@.allowed.contains_key(name) == config@.allowed.contains_key(name)
                &&& after@.allowed[name] == config@.allowed[name]
            },
        same_but_allowed(config@, after@),
{
    lemma_last_delay_counts(config@.allowed, domains@);
}

/// A domain that is allowed with a delay has that delay from then on, whatever it had before; one
/// that is allowed without has none. Every other domain stays as it was.
pub proof fn law_named_domain_gets_its_delay(
    config: CrawlerConfig,
    domain: &str,
    delay: RequestDelay,
    slowed: CrawlerConfig,
    allowing: CrawlerConfig,
    other: Seq<char>,
)
    requires
        call_ensures(CrawlerConfig::allow_domain_with_delay, (config, domain, delay), slowed),
        call_ensures(CrawlerConfig::allow_domain, (config, domain), allowing),
        other != domain@,
    ensures
        slowed@.allowed.contains_key(domain@),
        slowed@.allowed[domain@] == Some(delay),
        slowed@.allowed.contains_key(other) == config@.allowed.contains_key(other),
        slowed@.allowed[other] == config@.allowed[other],
        same_but_allowed(config@, slowed@),
        allowing@.allowed.contains_key(domain@),
        allowing@.allowed[domain@] is None,
        allowing@.allowed.contains_key(other) == config@.allowed.contains_key(other),
        config@.allowed.contains_key(other) ==> allowing@.allowed[other] == config@.allowed[other],
        same_but_allowed(config@, allowing@),
{
}

/// Domains that are allowed without delays are allowed from then on, without any. Every other
/// domain stays as it was.
pub proof fn law_named_domains_are_allowed(
    config: CrawlerConfig,
    domains: &[&str],
    after: CrawlerConfig,
)
    requires
        call_ensures(CrawlerConfig::allow_domains, (config, domains), after),
    ensures
        forall|i: int|
            0 <= i < domains@.len() ==> {
                &&& after@.allowed.contains_key((#[trigger] domains@[i])@)
                &&& after@.allowed[domains@[i]@] is None
            },
        forall|name: Seq<char>|
            (forall|i: int| 0 <= i < domains@.len() ==> (#[trigger] domains@[i])@ != name) ==> {
                &&& #[trigger] after@.allowed.contains_key(name) == config@.allowed.contains_key(name)
                &&& config@.allowed.contains_key(name) ==> after@.allowed[name]
                    == config@.allowed[name]
            },
        same_but_allowed(config@, after@),
{
    let names = name_texts(domains@);
    assert forall|i: int| 0 <= i < domains@.len() implies {
        &&& after@.allowed.contains_key((#[trigger] domains@[i])@)
        &&& after@.allowed[domains@[i]@] is None
    } by {
        assert(names[i] == domains@[i]@);
        assert(names.contains(domains@[i]@));
    }
    assert forall|name: Seq<char>|
        (forall|i: int| 0 <= i < domains@.len() ==> (#[trigger] domains@[i])@ != name) implies {
        &&& #[trigger] after@.allowed.contains_key(name) == config@.allowed.contains_key(name)
        &&& config@.allowed.contains_key(name) ==> after@.allowed[name] == config@.allowed[name]
    } by {
        if names.contains(name) {
            let i = choose|i: int| 0 <= i < names.len() && names[i] == name;
            assert(domains@[i]@ == name);
        }
    }
}

/// Domains that are disallowed are so from then on; every other domain stays as it was, and so does
/// all else that the config says.
pub proof fn law_named_domains_are_disallowed(
    config: CrawlerConfig,
    domain: &str,
    one: CrawlerConfig,
    domains: &[&str],
    several: CrawlerConfig,
)
    requires
        call_ensures(CrawlerConfig::disallow_domain, (config, domain), one),
        call_ensures(CrawlerConfig::disallow_domains, (config, domains), several),
    ensures
        forall|name: Seq<char>| #[trigger]
            one@.disallowed.contains(name) <==> config@.disallowed.contains(name) || name
                == domain@,
        one@ == (ConfigState { disallowed: one@.disallowed, ..config@ }),
        forall|name: Seq<char>| #[trigger]
            several@.disallowed.contains(name) <==> config@.disallowed.contains(name) || (exists|
                i: int,
            |
                0 <= i < domains@.len() && (#[trigger] domains@[i])@ == name),
        several@ == (ConfigState { disallowed: several@.disallowed, ..config@ }),
{
    let names = name_texts(domains@);
    assert forall|name: Seq<char>| #[trigger]
        several@.disallowed.contains(name) <==> config@.disallowed.contains(name) || (exists|
            i: int,
        |
            0 <= i < domains@.len() && (#[trigger] domains@[i])@ == name) by {
        if names.contains(name) {
            let i = choose|i: int| 0 <= i < names.len() && names[i] == name;
            assert(domains@[i]@ == name);
        }
        if exists|i: int| 0 <= i < domains@.len() && (#[trigger] domains@[i])@ == name {
            let i = choose|i: int| 0 <= i < domains@.len() && (#[trigger] domains@[i])@ == name;
            assert(names[i] == name);
        }
    }
}

/// The limits on the depth and on the requests are what they were set to last, and setting them
/// changes nothing else.
pub proof fn law_limits_are_set(
    config: CrawlerConfig,
    limit: usize,
    deep: CrawlerConfig,
    many: CrawlerConfig,
)
    requires
        call_ensures(CrawlerConfig::max_depth, (config, limit), deep),
        call_ensures(CrawlerConfig::max_concurrent_requests, (config, limit), many),
    ensures
        deep@.max_depth == Some(limit),
        deep@.max_requests == config@.max_requests,
        deep@.skip_non_successful_responses == config@.skip_non_successful_responses,
        deep@.respect_robots_txt == config@.respect_robots_txt,
        deep@.client == config@.client,
        same_domains_allowed(config@, deep@),
        many@.max_requests == Some(limit),
        many@.max_depth == config@.max_depth,
        many@.skip_non_successful_responses == config@.skip_non_successful_responses,
        many@.respect_robots_txt == config@.respect_robots_txt,
        many@.client == config@.client,
        same_domains_allowed(config@, many@),
{
}

/// Once the `robots.txt` is to be respected it is, once responses that were not successful are to
/// be scraped they are not skipped, and neither changes anything else.
pub proof fn law_manners_are_set(
    config: CrawlerConfig,
    respectful: CrawlerConfig,
    thorough: CrawlerConfig,
)
    requires
        call_ensures(CrawlerConfig::respect_robots_txt, (config,), respectful),
        call_ensures(CrawlerConfig::scrape_non_success_response, (config,), thorough),
    ensures
        respectful@.respect_robots_txt,
        respectful@.max_depth == config@.max_depth,
        respectful@.max_requests == config@.max_requests,
        respectful@.skip_non_successful_responses == config@.skip_non_successful_responses,
        respectful@.client == config@.client,
        same_domains_allowed(config@, respectful@),
        !thorough@.skip_non_successful_responses,
        thorough@.max_depth == config@.max_depth,
        thorough@.max_requests == config@.max_requests,
        thorough@.respect_robots_txt == config@.respect_robots_txt,
        thorough@.client == config@.client,
        same_domains_allowed(config@, thorough@),
{
}

/// The client that is set is the one that the config holds, shared or not, and nothing else
/// changes.
pub proof fn law_client_is_set(
    config: CrawlerConfig,
    client: ClientWithMiddleware,
    shared: Arc<ClientWithMiddleware>,
    owning: CrawlerConfig,
    sharing: CrawlerConfig,
)
    requires
        *shared == client,
        call_ensures(CrawlerConfig::set_client, (config, client), owning),
        call_ensures(CrawlerConfig::with_shared_client, (config, shared), sharing),
    ensures
        owning@.client == Some(client),
        owning@ == sharing@,
        owning@.max_depth == config@.max_depth,
        owning@.max_requests == config@.max_requests,
        owning@.skip_non_successful_responses == config@.skip_non_successful_responses,
        owning@.respect_robots_txt == config@.respect_robots_txt,
        same_domains_allowed(config@, owning@),
{
}

/// Where nothing was set, no depth is too deep, a hundred requests are executed concurrently,
/// responses that were not successful are skipped, the `robots.txt` is not respected, and every
/// domain may be visited.
pub proof fn law_standard_settings(settings: CrawlerSettings, config: CrawlerConfig)
    requires
        config@ == ConfigState::standard(),
        call_ensures(CrawlerConfig::into_settings, (config,), settings),
    ensures
        settings.max_depth == usize::MAX,
        settings.max_requests == 100,
        settings.skip_non_successful_responses,
        !settings.respect_robots_txt,
        settings.client is None,
        forall|name: Seq<char>| !(#[trigger] settings.allowed_domains@.contains_key(name)),
        forall|name: Seq<char>| !(#[trigger] settings.disallowed_domains@.contains(name)),
{
}

/// What was set is put to use as it is: a limit that was set is the limit, and the rest stays as it
/// was set too.
pub proof fn law_settings_are_what_was_set(settings: CrawlerSettings, config: CrawlerConfig)
    requires
        call_ensures(CrawlerConfig::into_settings, (config,), settings),
    ensures
        config@.max_depth matches Some(limit) ==> settings.max_depth == limit,
        config@.max_depth is None ==> settings.max_depth == usize::MAX,
        config@.max_requests matches Some(limit) ==> settings.max_requests == limit,
        config@.max_requests is None ==> settings.max_requests == 100,
        settings.skip_non_successful_responses == config@.skip_non_successful_responses,
        settings.respect_robots_txt == config@.respect_robots_txt,
        settings.client == config@.client,
        settings.allowed_domains@ == config@.allowed,
        settings.disallowed_domains@ == config@.disallowed,
{
}

/// Whether a limit on the depth is the one that a config sets; without one there is none.
pub open spec fn is_depth_of(config: ConfigState, max_depth: usize) -> bool {
    match config.max_depth {
        Some(limit) => max_depth == limit,
        None => max_depth == usize::MAX,
    }
}

/// Whether a limit on the requests is the one that a config sets, and a hundred where it sets none.
pub open spec fn is_limit_of(config: ConfigState, max_requests: usize) -> bool {
    match config.max_requests {
        Some(limit) => max_requests == limit,
        None => max_requests == 100,
    }
}

/// Whether a domain is treated as a config says, under that name and with that client.
pub open spec fn domain_is_treated<S, F>(
    domain: DomainState<S, F>,
    config: ConfigState,
    name: Seq<char>,
    client: ClientWithMiddleware,
) -> bool {
    &&& domain.host@ == name
    &&& domain.client == client
    &&& domain.respect_robots_txt == config.respect_robots_txt
    &&& domain.skip_non_successful_responses == config.skip_non_successful_responses
    &&& domain.queue.delay == config.allowed[name]
    &&& is_depth_of(config, domain.max_depth)
    &&& forall|limit: usize| #[trigger]
        is_limit_of(config, limit) ==> domain.max_requests == limit as int
            / config.allowed.dom().len() as int
}

/// Whether a list treats every domain as a config says: it allows just the domains that the config
/// allows, or blocks just those that it disallows where it allows none in particular.
pub open spec fn list_is_set<S, F, E>(
    list: ListingState<S, F, E>,
    config: ConfigState,
    client: ClientWithMiddleware,
) -> bool {
    match list {
        ListingState::AllowList(list) => {
            &&& exists|name: Seq<char>| #[trigger] config.allowed.contains_key(name)
            &&& forall|name: Seq<char>| #[trigger]
                list.allowed.contains_key(name) <==> config.allowed.contains_key(name)
            &&& forall|name: Seq<char>| #[trigger]
                list.allowed.contains_key(name) ==> domain_is_treated(
                    list.allowed[name],
                    config,
                    name,
                    client,
                )
        },
        ListingState::BlockList(list) => {
            &&& forall|name: Seq<char>| !(#[trigger] config.allowed.contains_key(name))
            &&& list.blocked == config.disallowed
            &&& list.client == client
            &&& list.respect_robots_txt == config.respect_robots_txt
            &&& list.skip_non_successful_responses == config.skip_non_successful_responses
            &&& list.queue.delay is None
            &&& is_depth_of(config, list.max_depth)
            &&& is_limit_of(config, list.max_requests)
        },
    }
}

proof fn lemma_counts(names: Set<Seq<char>>, name: Seq<char>)
    requires
        names.finite(),
        names.contains(name),
    ensures
        names.len() > 0,
{
    broadcast use vstd::set_lib::group_set_properties;

}

proof fn lemma_new_list_is_set<O, S, F, E>(
    config: ConfigState,
    crawler: CrawlerState<O, S, F, E>,
)
    requires
        config.allowed.dom().finite(),
        crawler.follows(config),
    ensures
        list_is_set(crawler.list, config, crawler.client),
{
    match crawler.list {
        ListingState::AllowList(list) => {
            if forall|name: Seq<char>| !(#[trigger] config.allowed.contains_key(name)) {
                assert(config.allowed =~= Map::<Seq<char>, Option<RequestDelay>>::empty());
            }
            assert forall|name: Seq<char>| #[trigger]
                list.allowed.contains_key(name) implies domain_is_treated(
                list.allowed[name],
                config,
                name,
                crawler.client,
            ) by {
                assert(config.allowed.contains_key(name));
                let domain = list.allowed[name];
                assert(domain.follows(domain_config(config, name, crawler.client)));
                let count = config.allowed.dom().len();
                lemma_counts(config.allowed.dom(), name);
                assert forall|limit: usize| #[trigger]
                    is_limit_of(config, limit) implies domain.max_requests == limit as int
                    / count as int by {
                    assert(limit == config.request_limit());
                    assert(0 <= limit as int / count as int <= limit) by (nonlinear_arith)
                        requires
                            count > 0,
                            limit >= 0,
                    ;
                }
            }
        },
        ListingState::BlockList(_) => {},
    }
}

/// Whether two allow lists hold the same domains, with the same settings.
pub open spec fn domains_set_like<S, F, E>(
    before: AllowState<S, F, E>,
    after: AllowState<S, F, E>,
) -> bool {
    &&& after.allowed.dom() =~= before.allowed.dom()
    &&& forall|name: Seq<char>| #[trigger]
        before.allowed.contains_key(name) ==> after.allowed[name].is_set_like(
            before.allowed[name],
        )
}

proof fn lemma_hear_keeps_settings<S, F, E>(
    list: AllowState<S, F, E>,
    left: nat,
    host: Seq<char>,
    busy: bool,
    signal: Signal<S, F, E>,
    restarted: Timer,
)
    requires
        list.attends(left, host),
        list.allowed[host].expects(signal),
    ensures
        domains_set_like(list, list.hear(left, host, busy, signal, restarted).0),
{
    let visit = list.entering(AllowPhaseView::Visit { left, host, busy: false });
    assert(visit.allowed.contains_key(host));
    assert(list.allowed.contains_key(host));
    assert(list.allowed[host].well_formed());
    law_drained_domain_is_within_depth(list.allowed[host], signal, restarted);
}

proof fn lemma_visit_keeps_settings<S, F, E>(
    list: AllowState<S, F, E>,
    left: nat,
    busy: bool,
    restarted: Timer,
)
    requires
        list.well_formed(),
        list.phase is Idle,
        left <= list.domains.len(),
    ensures
        domains_set_like(list, list.visit(left, busy, restarted).0),
    decreases left,
{
    if left > 0 {
        let last = left - 1;
        let host = list.domains[last];
        let rest = AllowState { domains: swap_removed(list.domains, last), ..list };
        lemma_taken_out(list, rest, last);
        assert(list.allowed.contains_key(list.domains[last]));
        assert(list.allowed[host].well_formed());
        lemma_hear_is_sound(rest, last as nat, host, busy, Signal::Poll, restarted);
        lemma_hear_keeps_settings(rest, last as nat, host, busy, Signal::Poll, restarted);
        let (after, answer) = rest.hear(last as nat, host, busy, Signal::Poll, restarted);
        if let Ok(busy) = answer {
            lemma_visit_keeps_settings(after, last as nat, busy, restarted);
            lemma_like_is_passed_on(rest, after, after.visit(last as nat, busy, restarted).0);
        }
    }
}

/// Whatever an allow list is told, the settings of its domains stay as they are.
pub proof fn law_allow_list_keeps_the_settings<S, F, E>(
    list: AllowState<S, F, E>,
    signal: Signal<S, F, E>,
    restarted: Timer,
)
    requires
        list.well_formed(),
        list.expects(signal),
    ensures
        domains_set_like(list, list.step(signal, restarted).0),
{
    match list.phase {
        AllowPhaseView::Idle => {
            if list.results.len() == 0 {
                lemma_visit_keeps_settings(list, list.domains.len(), false, restarted);
            } else {
                assert(list.step(signal, restarted).0.allowed == list.allowed);
            }
        },
        AllowPhaseView::Visit { left, host, busy } => {
            lemma_visited_attends(list, left, host, busy);
            lemma_hear_is_sound(list, left, host, busy, signal, restarted);
            lemma_hear_keeps_settings(list, left, host, busy, signal, restarted);
            let (after, answer) = list.hear(left, host, busy, signal, restarted);
            if let Ok(busy) = answer {
                lemma_visit_keeps_settings(after, left, busy, restarted);
                lemma_like_is_passed_on(list, after, after.visit(left, busy, restarted).0);
            }
        },
    }
}

proof fn lemma_like_is_passed_on<S, F, E>(
    first: AllowState<S, F, E>,
    second: AllowState<S, F, E>,
    third: AllowState<S, F, E>,
)
    requires
        domains_set_like(first, second),
        domains_set_like(second, third),
    ensures
        domains_set_like(first, third),
{
    assert forall|name: Seq<char>| #[trigger]
        first.allowed.contains_key(name) implies third.allowed[name].is_set_like(
        first.allowed[name],
    ) by {
        assert(second.allowed.contains_key(name));
        assert(second.allowed[name].is_set_like(first.allowed[name]));
    }
}

proof fn lemma_like_is_set<S, F, E>(
    before: AllowState<S, F, E>,
    after: AllowState<S, F, E>,
    config: ConfigState,
    client: ClientWithMiddleware,
)
    requires
        list_is_set(ListingState::AllowList(before), config, client),
        domains_set_like(before, after),
    ensures
        list_is_set(ListingState::AllowList(after), config, client),
{
    assert forall|name: Seq<char>| #[trigger]
        after.allowed.contains_key(name) <==> config.allowed.contains_key(name) by {
        assert(before.allowed.contains_key(name) <==> config.allowed.contains_key(name));
    }
    assert forall|name: Seq<char>| #[trigger]
        after.allowed.contains_key(name) implies domain_is_treated(
        after.allowed[name],
        config,
        name,
        client,
    ) by {
        assert(before.allowed.contains_key(name));
        assert(domain_is_treated(before.allowed[name], config, name, client));
    }
}

/// A list that treats the domains as a config says goes on doing so, whatever it is told.
pub proof fn law_listing_keeps_the_settings<S, F, E>(
    config: ConfigState,
    client: ClientWithMiddleware,
    list: ListingState<S, F, E>,
    signal: Signal<S, F, E>,
    restarted: Timer,
)
    requires
        list.well_formed(),
        list.expects(signal),
        list_is_set(list, config, client),
    ensures
        list_is_set(list.step(signal, restarted).0, config, client),
{
    match list {
        ListingState::AllowList(list) => {
            law_allow_list_keeps_the_settings(list, signal, restarted);
            lemma_like_is_set(list, list.step(signal, restarted).0, config, client);
        },
        ListingState::BlockList(list) => {
            law_block_list_keeps_its_settings(list, signal, restarted);
        },
    }
}

proof fn lemma_drain_keeps_settings<S, F, E>(
    config: ConfigState,
    client: ClientWithMiddleware,
    list: ListingState<S, F, E>,
    signal: Signal<S, F, E>,
    restarted: Timer,
)
    requires
        list.well_formed(),
        list.expects(signal),
        list_is_set(list, config, client),
    ensures
        list_is_set(list.drain(signal, restarted).list, config, client),
    decreases
            2 * list.load() + if signal is Poll {
                0int
            } else {
                1int
            },
{
    lemma_poll_finds_idle(list, signal);
    law_listing_stays_well_formed(list, signal, restarted);
    lemma_listing_uses_up(list, signal, restarted);
    law_listing_keeps_the_settings(config, client, list, signal, restarted);
    let (next, demand) = list.step(signal, restarted);
    if demand matches DemandView::Yield(Progress::Item(_)) {
        lemma_drain_keeps_settings(config, client, next, Signal::Poll, restarted);
    }
}

proof fn lemma_queued_keeps_settings<S, F, E>(
    config: ConfigState,
    client: ClientWithMiddleware,
    list: ListingState<S, F, E>,
    built: Result<PageRequest, reqwest::Error>,
    state: Option<S>,
    depth: usize,
)
    requires
        list_is_set(list, config, client),
    ensures
        list_is_set(list.add_built(built, state, depth).0, config, client),
{
    if let Ok(request) = built {
        let queued = QueuedRequest { request, state, depth };
        if let (ListingState::AllowList(list), Some(host)) = (list, request.host()) {
            law_domain_keeps_its_settings_on_requests(list.allowed[host], queued);
            let after = list.add_request(queued).0;
            assert(domains_set_like(list, after));
            lemma_like_is_set(list, after, config, client);
        }
    }
}

/// Whatever happens to a crawler, it goes on treating every domain as the config says that it was
/// made for: what the config says of the `robots.txt`, of responses that were not successful, of
/// the delay, of the depth and of the limit holds of each domain that the config allows, or of all
/// domains but those that it disallows where it allows none in particular.
pub proof fn law_crawler_treats_domains_as_configured<O, S, F, E>(
    config: ConfigState,
    crawler: CrawlerState<O, S, F, E>,
    happenings: Seq<Happening<O, S, F, E>>,
)
    requires
        config.allowed.dom().finite(),
        crawler.well_formed(),
        crawler.follows(config),
        crawler.allows_all(happenings),
    ensures
        list_is_set(crawler.past_all(happenings).list, config, crawler.client),
        crawler.past_all(happenings).client == crawler.client,
        crawler.past_all(happenings).respect_robots_txt == config.respect_robots_txt,
        crawler.past_all(happenings).skip_non_successful_responses
            == config.skip_non_successful_responses,
        is_depth_of(config, crawler.past_all(happenings).max_depth),
        config.client matches Some(client) ==> crawler.client == client,
    decreases happenings.len(),
{
    if happenings.len() == 0 {
        lemma_new_list_is_set(config, crawler);
    } else {
        law_crawler_treats_domains_as_configured(config, crawler, happenings.drop_last());
        law_crawler_obeys_its_config(config, crawler, happenings.drop_last());
        let between = crawler.past_all(happenings.drop_last());
        match happenings.last() {
            Happening::Told(signal, restarted) => {
                match (between.phase, signal) {
                    (CrawlerPhaseView::List, CrawlerSignal::List(signal)) => {
                        lemma_drain_keeps_settings(
                            config,
                            crawler.client,
                            between.list,
                            signal,
                            restarted,
                        );
                    },
                    _ => {
                        lemma_drain_keeps_settings(
                            config,
                            crawler.client,
                            between.list,
                            Signal::Poll,
                            restarted,
                        );
                    },
                }
            },
            Happening::Queued(built, state) => {
                lemma_queued_keeps_settings(
                    config,
                    crawler.client,
                    between.list,
                    built,
                    state,
                    (between.current_depth + 1) as usize,
                );
            },
            _ => {},
        }
    }
}

/// A crawler that is made from a config treats every domain as the config says.
pub proof fn law_new_crawler_is_configured<O, S, F, E>(
    config: CrawlerConfig,
    crawler: Crawler<O, S, F, E>,
)
    requires
        config@.allowed.dom().finite(),
        call_ensures(Crawler::<O, S, F, E>::new, (config,), crawler),
    ensures
        list_is_set(crawler@.list, config@, crawler@.client),
        crawler@.respect_robots_txt == config@.respect_robots_txt,
        crawler@.skip_non_successful_responses == config@.skip_non_successful_responses,
        is_depth_of(config@, crawler@.max_depth),
        config@.client matches Some(client) ==> crawler@.client == client,
        crawler@.current_depth == 0,
        crawler@.stats.request_count == 0,
        crawler@.stats.response_count == 0,
        crawler@.results.len() == 0,
        crawler@.outputs.len() == 0,
        crawler@.crawls.len() == 0,
        crawler@.phase is Idle,
{
    lemma_new_list_is_set(config@, crawler@);
}

/// A collector that is made from a config has a crawler that treats every domain as the config
/// says, and the scraper that it was made with.
pub proof fn law_new_collector_is_configured<T: Scraper>(
    scraper: T,
    config: CrawlerConfig,
    collector: Collector<T>,
)
    requires
        config@.allowed.dom().finite(),
        call_ensures(Collector::<T>::new, (scraper, config), collector),
    ensures
        collector@.scraper == scraper,
        list_is_set(collector@.crawler.list, config@, collector@.crawler.client),
        collector@.crawler.respect_robots_txt == config@.respect_robots_txt,
        is_depth_of(config@, collector@.crawler.max_depth),
        config@.client matches Some(client) ==> collector@.crawler.client == client,
{
    lemma_new_list_is_set(config@, collector@.crawler);
}

/// Whatever has happened to a crawler before, what its config says decides on the next request:
/// where it sets a depth, none that lies deeper is taken; where it sets none, no depth is too deep.
/// A request within the depth is taken exactly if its host is allowed, or, where none is allowed in
/// particular, is not disallowed.
pub proof fn law_settings_decide_on_requests<O, S, F, E>(
    config: ConfigState,
    crawler: CrawlerState<O, S, F, E>,
    happenings: Seq<Happening<O, S, F, E>>,
    request: QueuedRequest<S>,
)
    requires
        crawler.well_formed(),
        crawler.follows(config),
        crawler.allows_all(happenings),
    ensures
        ({
            let added = crawler.past_all(happenings).list.add_request(request).1;
            let too_deep = config.max_depth matches Some(limit) && request.depth > limit;
            let anywhere = forall|name: Seq<char>| !(#[trigger] config.allowed.contains_key(name));
            &&& too_deep ==> added is Err
            &&& !too_deep ==> (added is Ok <==> match request.request.host() {
                None => false,
                Some(host) => if anywhere {
                    !config.disallowed.contains(host)
                } else {
                    config.allowed.contains_key(host)
                },
            })
            &&& too_deep ==> (request.request.host() matches Some(host) ==> (
            config.allowed.contains_key(host) ==> added == Err::<(), _>(
                CrawlError::ReachedMaxDepth {
                    request: request.request,
                    state: request.state,
                    depth: request.depth,
                },
            )))
        }),
{
    let empty = Map::<Seq<char>, Option<RequestDelay>>::empty();
    if forall|name: Seq<char>| !(#[trigger] config.allowed.contains_key(name)) {
        assert(config.allowed =~= empty);
    }
    if request.depth <= config.depth_limit() {
        law_config_decides_by_host(config, crawler, happenings, request);
    } else {
        law_config_limits_the_depth(config, crawler, happenings, request);
    }
}

/// Whatever has happened to a crawler before, no more requests are in flight than its config
/// allows to execute concurrently, and a hundred where it says nothing of that. Where that is less
/// than one for each allowed domain, there is at most one for each; a limit of 0 without allowed
/// domains leaves room for one.
pub proof fn law_settings_limit_the_requests<O, S, F, E>(
    config: ConfigState,
    crawler: CrawlerState<O, S, F, E>,
    happenings: Seq<Happening<O, S, F, E>>,
    limit: usize,
)
    requires
        crawler.well_formed(),
        crawler.follows(config),
        crawler.allows_all(happenings),
        config.allowed.dom().finite(),
        config.max_requests == Some(limit) || (config.max_requests is None && limit == 100),
    ensures
        ({
            let count = config.allowed.dom().len();
            let flying = crawler.past_all(happenings).flying();
            &&& count <= limit && 1 <= limit ==> flying <= limit
            &&& limit < count ==> flying <= count
            &&& limit == 0 && count == 0 ==> flying <= 1
        }),
{
    law_config_limits_the_requests(config, crawler, happenings);
}

} // verus!
