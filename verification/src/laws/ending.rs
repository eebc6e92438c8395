//! What has nothing left to do says so.
use crate::allow_list::{lemma_taken_out, AllowState};
use crate::allowed_domain::{AllowListConfig, AllowedDomain, DomainState};
use crate::block_list::{BlockList, BlockPhaseView, BlockState, StringHashSet};
use crate::collector::{CollectorDemandView, CollectorProgress, CollectorState, Scraper};
use crate::crawler::{crawled, CrawlerDemandView, CrawlerProgress, CrawlerSignal, CrawlerState};
use crate::domain::ListingState;
use crate::error::{CrawlError, Failure};
use crate::fetch::{swap_removed, DemandView, Progress, RobotsNews, Signal};
use crate::laws::completion::law_drained_domain_is_done;
use crate::laws::invariants::lemma_hear_is_sound;
use crate::time::Timer;
use reqwest_middleware::ClientWithMiddleware;
use vstd::prelude::*;

verus! {

/// A domain that tells somebody to wait has something left to do: requests that wait or are in
/// flight, or a `robots.txt` that is on its way.
pub proof fn law_pending_domain_is_busy<S, F, E>(
    domain: DomainState<S, F>,
    signal: Signal<S, F, E>,
    restarted: Timer,
)
    ensures
        ({
            let (after, demand) = domain.step(signal, restarted);
            demand == DemandView::<S, F, E>::Yield(Progress::Pending) ==> after.queue.queued.len()
                > 0 || after.in_flight.len() > 0 || after.robots_task is Some
        }),
{
}

/// A block list that has nothing left to do says so, and nothing changes in it.
pub proof fn law_drained_block_list_is_done<S, F, E>(list: BlockState<S, F>, restarted: Timer)
    requires
        list.is_drained(),
    ensures
        list.step::<E>(Signal::Poll, restarted) == (
            list,
            DemandView::<S, F, E>::Yield(Progress::Done),
        ),
{
    assert(list.entering(BlockPhaseView::Idle) == list);
}

proof fn lemma_visit_finds_nothing<S, F, E>(
    list: AllowState<S, F, E>,
    left: nat,
    restarted: Timer,
)
    requires
        list.well_formed(),
        list.is_drained(),
        left <= list.domains.len(),
    ensures
        ({
            let (after, demand) = list.visit(left, false, restarted);
            &&& demand == DemandView::<S, F, E>::Yield(Progress::Done)
            &&& after.allowed == list.allowed
            &&& after.results == list.results
            &&& after.phase == list.phase
        }),
    decreases left,
{
    if left > 0 {
        let last = left - 1;
        let host = list.domains[last];
        let rest = AllowState { domains: swap_removed(list.domains, last), ..list };
        lemma_taken_out(list, rest, last);
        assert(list.allowed.contains_key(list.domains[last]));
        let domain = list.allowed[host];
        assert(domain.is_drained());
        law_drained_domain_is_done::<S, F, E>(domain, restarted);
        lemma_hear_is_sound(rest, last as nat, host, false, Signal::Poll, restarted);
        let (after, answer) = rest.hear(last as nat, host, false, Signal::Poll, restarted);
        assert(after.results =~= list.results);
        assert(after.allowed =~= list.allowed);
        assert(answer == Ok::<bool, DemandView<S, F, E>>(false));
        lemma_visit_finds_nothing(after, last as nat, restarted);
    }
}

/// An allow list on which no domain has anything left to do, and which holds no result, says so,
/// and nothing changes in its domains.
pub proof fn law_drained_allow_list_is_done<S, F, E>(list: AllowState<S, F, E>, restarted: Timer)
    requires
        list.well_formed(),
        list.is_drained(),
    ensures
        ({
            let (after, demand) = list.step(Signal::Poll, restarted);
            &&& demand == DemandView::<S, F, E>::Yield(Progress::Done)
            &&& after.allowed == list.allowed
            &&& after.is_drained()
        }),
{
    lemma_visit_finds_nothing(list, list.domains.len(), restarted);
}

/// A crawler without jobs and results, whose list of domains has nothing left to do, says so to
/// whoever wants the next result.
pub proof fn law_drained_crawler_is_done<O, S, F, E>(
    crawler: CrawlerState<O, S, F, E>,
    restarted: Timer,
)
    requires
        crawler.well_formed(),
        crawler.phase is Idle,
        crawler.outputs.len() == 0,
        crawler.crawls.len() == 0,
        crawler.results.len() == 0,
        crawler.list.is_drained(),
    ensures
        ({
            let (after, demand) = crawler.step(CrawlerSignal::Poll, restarted);
            &&& demand == CrawlerDemandView::<O, S, F, E>::Yield(CrawlerProgress::Done)
            &&& after.phase is Idle
            &&& after.stats == crawler.stats
        }),
{
    match crawler.list {
        ListingState::AllowList(list) => {
            law_drained_allow_list_is_done(list, restarted);
        },
        ListingState::BlockList(list) => {
            law_drained_block_list_is_done::<S, F, E>(list, restarted);
        },
    }
    let drained = crawler.list.drain(Signal::Poll, restarted);
    assert(drained.items =~= Seq::empty());
    assert(drained.demand == DemandView::<S, F, E>::Yield(Progress::Done));
    assert((crawler.results + crawled::<O, S, E>(drained.items)).len() == 0);
}

/// A collector whose crawler has nothing left to do is done.
pub proof fn law_drained_collector_is_done<T: Scraper>(
    collector: CollectorState<T>,
    restarted: Timer,
    after: CollectorState<T>,
    demand: CollectorDemandView<T::Output, T::State, T::Task, T::Error>,
)
    requires
        collector.crawler.well_formed(),
        collector.crawler.phase is Idle,
        collector.crawler.outputs.len() == 0,
        collector.crawler.crawls.len() == 0,
        collector.crawler.results.len() == 0,
        collector.crawler.list.is_drained(),
        ({
            let (crawler, asked) = collector.crawler.step(CrawlerSignal::Poll, restarted);
            collector.proceeds(crawler, asked, after, demand)
        }),
    ensures
        demand == CollectorDemandView::<T::Output, T::State, T::Task, T::Error>::Yield(
            CollectorProgress::Done,
        ),
        after.scraper == collector.scraper,
{
    law_drained_crawler_is_done(collector.crawler, restarted);
}

/// A crawler with jobs that are not done, or whose list of domains tells it to wait, never says
/// that it is done.
pub proof fn law_busy_crawler_is_not_done<O, S, F, E>(
    crawler: CrawlerState<O, S, F, E>,
    signal: CrawlerSignal<O, S, F, E>,
    restarted: Timer,
)
    ensures
        ({
            let (after, demand) = crawler.step(signal, restarted);
            after.outputs.len() > 0 || after.crawls.len() > 0 || after.results.len() > 0
                ==> demand != CrawlerDemandView::<O, S, F, E>::Yield(CrawlerProgress::Done)
        }),
{
}

/// A `robots.txt` that could not be fetched is reported with the name of its domain, and nothing
/// else changes in the domain.
pub proof fn law_failed_robots_are_reported<S, F, E>(
    domain: DomainState<S, F>,
    failure: Failure<S, E>,
    restarted: Timer,
)
    requires
        domain.phase is Robots,
    ensures
        ({
            let signal = Signal::Robots(RobotsNews::Ready(Err(failure)));
            let (after, demand) = domain.step::<E>(signal, restarted);
            &&& demand == DemandView::<S, F, E>::Yield(
                Progress::Item(
                    Err(
                        Failure::Crawl(
                            CrawlError::RobotsTxtError { host: domain.host },
                        ),
                    ),
                ),
            )
            &&& after.robots == domain.robots
            &&& after.robots_task == domain.robots_task
            &&& after.buffer == domain.buffer
            &&& after.queue == domain.queue
            &&& after.in_flight == domain.in_flight
            &&& after.phase is Idle
        }),
{
}

/// A `robots.txt` that a block list could not fetch is reported with the name of its host; what is
/// known of the hosts, what waits and what is in flight stays as it is.
pub proof fn law_failed_robots_of_hosts_are_reported<S, F, E>(
    list: BlockState<S, F>,
    left: nat,
    host: String,
    came: bool,
    failure: Failure<S, E>,
    restarted: Timer,
)
    requires
        list.phase == BlockPhaseView::<S>::Robots(left, host) || list.phase == BlockPhaseView::<
            S,
        >::Asked(left, host, came),
    ensures
        ({
            let signal = Signal::Robots(RobotsNews::Ready(Err(failure)));
            let (after, demand) = list.step::<E>(signal, restarted);
            &&& demand == DemandView::<S, F, E>::Yield(
                Progress::Item(Err(Failure::Crawl(CrawlError::RobotsTxtError { host }))),
            )
            &&& after.robots_map == list.robots_map
            &&& after.robots_tasks == list.robots_tasks
            &&& after.queue == list.queue
            &&& after.in_flight == list.in_flight
            &&& after.phase is Idle
        }),
{
}

/// A new domain has nothing to do yet, and is set as it was told to be.
pub proof fn law_new_domain_is_idle<S, F>(
    host: String,
    config: AllowListConfig,
    domain: AllowedDomain<S, F>,
)
    requires
        call_ensures(AllowedDomain::<S, F>::new, (host, config), domain),
    ensures
        domain@.is_drained(),
        domain@.host == host,
        domain@.client == config.client,
        domain@.robots is None,
        domain@.respect_robots_txt == config.respect_robots_txt,
        domain@.skip_non_successful_responses == config.skip_non_successful_responses,
        domain@.max_depth == config.max_depth,
        domain@.max_requests == config.max_requests,
        domain@.queue.delay == config.delay,
        config.delay is Some ==> (domain@.queue.timer matches Some(timer)
            && timer.set_to().total_nanos() == 0 && timer.is_set()),
{
}

/// A new block list has nothing to do yet, and is set as it was told to be.
pub proof fn law_new_block_list_is_idle<S, F>(
    blocked: StringHashSet,
    client: ClientWithMiddleware,
    respects: bool,
    skips: bool,
    max_depth: usize,
    max_requests: usize,
    list: BlockList<S, F>,
)
    requires
        call_ensures(
            BlockList::<S, F>::new,
            (blocked, client, respects, skips, max_depth, max_requests),
            list,
        ),
    ensures
        list@.is_drained(),
        list@.blocked == blocked@,
        list@.client == client,
        list@.respect_robots_txt == respects,
        list@.skip_non_successful_responses == skips,
        list@.max_depth == max_depth,
        list@.max_requests == max_requests,
        list@.queue.delay is None,
        forall|host: Seq<char>| !(#[trigger] list@.robots_map.contains_key(host)),
        forall|host: Seq<char>| !(#[trigger] list@.robots_hosts.contains(host)),
{
}

} // verus!
