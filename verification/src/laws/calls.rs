//! What the calls that change something leave behind, and what they leave alone.
use crate::allow_list::AllowList;
use crate::allowed_domain::{is_below, AllowListConfig, AllowedDomain};
use crate::block_list::BlockList;
use crate::collector::{
    Collector, CollectorDemand, CollectorDemandView, CollectorProgress, Scraper,
};
use crate::crawler::{CrawlResult, Crawler, CrawlerState, Stats};
use crate::error::{CrawlError, DisallowReason, Failure};
use crate::fetch::{disallow, reject, reject_depth};
use crate::number::read_u64;
use crate::requests::{NextRequest, QueuedRequest, RequestDelay, RequestQueue};
use crate::robots::{lowercase, GroupView, RobotsData, RobotsHandler, Rule};
use crate::string_map::StringMap;
use crate::time::Timer;
use crate::web::{builds_page, starts_get, PageRequest};
use reqwest_middleware::ClientWithMiddleware;
use std::collections::VecDeque;
use vstd::prelude::*;

verus! {

/// A request that is put into a queue stands at its end; the others keep their places, and the
/// delay and the timer stay.
pub proof fn law_queue_pushes<T>(queue: &mut RequestQueue<T>, request: QueuedRequest<T>)
    requires
        call_ensures(RequestQueue::<T>::push_back, (queue, request), ()),
    ensures
        final(queue)@.queued == old(queue)@.queued.push(request),
        final(queue)@.delay == old(queue)@.delay,
        final(queue)@.timer == old(queue)@.timer,
{
}

/// Requests that are put into a queue together stand at its end, in their order.
pub proof fn law_queue_extends<T>(
    queue: &mut RequestQueue<T>,
    requests: VecDeque<QueuedRequest<T>>,
)
    requires
        call_ensures(RequestQueue::<T>::extend, (queue, requests), ()),
    ensures
        final(queue)@.queued == old(queue)@.queued + requests@,
        final(queue)@.delay == old(queue)@.delay,
        final(queue)@.timer == old(queue)@.timer,
{
}

/// A delay that is set is the one that is kept from then on, and the one before it is given back. A
/// timer that is running runs on; where there was none, one is started that runs out at once. The
/// requests wait on.
pub proof fn law_queue_delay_is_set<T>(
    queue: &mut RequestQueue<T>,
    delay: RequestDelay,
    before: Option<RequestDelay>,
)
    requires
        call_ensures(RequestQueue::<T>::set_delay, (queue, delay), before),
    ensures
        before == old(queue)@.delay,
        final(queue)@.delay == Some(delay),
        final(queue)@.queued == old(queue)@.queued,
        before is Some ==> final(queue)@.timer == old(queue)@.timer,
        before is None ==> (final(queue)@.timer matches Some(timer)
            && timer.set_to().total_nanos() == 0 && timer.is_set()),
{
}

/// A delay that is removed is given back, and no delay is kept from then on.
pub proof fn law_queue_delay_is_removed<T>(
    queue: &mut RequestQueue<T>,
    before: Option<RequestDelay>,
)
    requires
        call_ensures(RequestQueue::<T>::remove_delay, (queue,), before),
    ensures
        before == old(queue)@.delay,
        final(queue)@.delay is None,
        final(queue)@.timer is None,
        final(queue)@.queued == old(queue)@.queued,
{
}

/// A queue that is asked for the next request gives out the first where there is no delay, and the
/// timer where there is one.
pub proof fn law_queue_is_polled<T>(
    queue: &mut RequestQueue<T>,
    next: NextRequest<T>,
    timer: Timer,
)
    requires
        call_ensures(RequestQueue::<T>::poll_next, (queue,), next),
        old(queue)@.delay is Some ==> old(queue)@.timer == Some(timer),
    ensures
        final(queue)@.delay == old(queue)@.delay,
        match next {
            NextRequest::Empty => old(queue)@.queued.len() == 0,
            NextRequest::Send(request) => {
                &&& old(queue)@.delay is None
                &&& old(queue)@.queued == seq![request] + final(queue)@.queued
            },
            NextRequest::Wait(out) => {
                &&& old(queue)@.delay is Some
                &&& out == timer
                &&& final(queue)@.queued == old(queue)@.queued
                &&& old(queue)@.queued.len() > 0
            },
        },
        old(queue)@.queued.len() == 0 ==> next is Empty && final(queue)@ == old(queue)@,
{
    if let NextRequest::Send(request) = next {
        assert(old(queue)@.queued =~= seq![request] + final(queue)@.queued);
    }
}

/// A queue that takes its timer back gives out the first request just if the timer has run out, or
/// if no delay is kept any more. The timer is then set to the fixed delay, or to a span within the
/// bounds of a random one; if it has not run out it stays as it is.
pub proof fn law_queue_is_resumed<T>(
    queue: &mut RequestQueue<T>,
    timer: Timer,
    elapsed: bool,
    next: Option<QueuedRequest<T>>,
)
    requires
        call_ensures(RequestQueue::<T>::resume, (queue, timer, elapsed), next),
    ensures
        final(queue)@.delay == old(queue)@.delay,
        next is Some <==> old(queue)@.queued.len() > 0 && (elapsed || old(queue)@.delay is None),
        match next {
            Some(request) => old(queue)@.queued == seq![request] + final(queue)@.queued,
            None => final(queue)@.queued == old(queue)@.queued,
        },
        old(queue)@.delay is Some && !elapsed ==> final(queue)@.timer == Some(timer),
        elapsed ==> (old(queue)@.delay matches Some(delay) ==> (final(queue)@.timer matches Some(
            running,
        ) && running.is_set() && match delay {
            RequestDelay::Fixed(span) => running.set_to() == span,
            RequestDelay::Random { min, max } => min.total_nanos()
                <= running.set_to().total_nanos() <= max.total_nanos(),
        })),
{
    if let Some(request) = next {
        assert(old(queue)@.queued =~= seq![request] + final(queue)@.queued);
    }
}

/// Setting the delay of a domain changes the delay only; the one before it is given back.
pub proof fn law_domain_delay_is_set<S, F>(
    domain: &mut AllowedDomain<S, F>,
    delay: RequestDelay,
    before: Option<RequestDelay>,
)
    requires
        call_ensures(AllowedDomain::<S, F>::set_delay, (domain, delay), before),
    ensures
        before == old(domain)@.queue.delay,
        final(domain)@.queue.delay == Some(delay),
        final(domain)@.queue.queued == old(domain)@.queue.queued,
        before is Some ==> final(domain)@.queue.timer == old(domain)@.queue.timer,
        before is None ==> (final(domain)@.queue.timer matches Some(timer)
            && timer.set_to().total_nanos() == 0 && timer.is_set()),
        final(domain)@.in_flight == old(domain)@.in_flight,
        final(domain)@.buffer == old(domain)@.buffer,
        final(domain)@.robots == old(domain)@.robots,
        final(domain)@.robots_task == old(domain)@.robots_task,
        final(domain)@.max_requests == old(domain)@.max_requests,
        final(domain)@.max_depth == old(domain)@.max_depth,
        final(domain)@.respect_robots_txt == old(domain)@.respect_robots_txt,
{
}

/// Removing the delay of a domain changes the delay only; it is given back.
pub proof fn law_domain_delay_is_removed<S, F>(
    domain: &mut AllowedDomain<S, F>,
    before: Option<RequestDelay>,
)
    requires
        call_ensures(AllowedDomain::<S, F>::remove_delay, (domain,), before),
    ensures
        before == old(domain)@.queue.delay,
        final(domain)@.queue.delay is None,
        final(domain)@.queue.queued == old(domain)@.queue.queued,
        final(domain)@.in_flight == old(domain)@.in_flight,
        final(domain)@.buffer == old(domain)@.buffer,
        final(domain)@.robots == old(domain)@.robots,
        final(domain)@.robots_task == old(domain)@.robots_task,
        final(domain)@.max_requests == old(domain)@.max_requests,
        final(domain)@.max_depth == old(domain)@.max_depth,
        final(domain)@.respect_robots_txt == old(domain)@.respect_robots_txt,
{
}

/// A request that lies too deep for a domain is handed back and changes nothing. Any other is
/// taken: it waits to be sent, or, where the `robots.txt` is respected and not there yet, for
/// that.
pub proof fn law_domain_takes_requests<S, F>(
    domain: &mut AllowedDomain<S, F>,
    request: QueuedRequest<S>,
    added: Result<(), CrawlError<S>>,
)
    requires
        call_ensures(AllowedDomain::<S, F>::add_request, (domain, request), added),
    ensures
        request.depth > old(domain)@.max_depth ==> {
            &&& final(domain)@ == old(domain)@
            &&& added == Err::<(), _>(
                CrawlError::ReachedMaxDepth {
                    request: request.request,
                    state: request.state,
                    depth: request.depth,
                },
            )
        },
        request.depth <= old(domain)@.max_depth ==> {
            let waits = old(domain)@.respect_robots_txt && old(domain)@.robots is None;
            &&& added is Ok
            &&& final(domain)@.in_flight == old(domain)@.in_flight
            &&& final(domain)@.robots == old(domain)@.robots
            &&& final(domain)@.phase == old(domain)@.phase
            &&& final(domain)@.queue.delay == old(domain)@.queue.delay
            &&& final(domain)@.queue.timer == old(domain)@.queue.timer
            &&& !waits ==> {
                &&& final(domain)@.queue.queued == old(domain)@.queue.queued.push(request)
                &&& final(domain)@.buffer == old(domain)@.buffer
                &&& final(domain)@.robots_task == old(domain)@.robots_task
            }
            &&& waits ==> {
                &&& final(domain)@.queue.queued == old(domain)@.queue.queued
                &&& final(domain)@.robots_task is Some
                &&& final(domain)@.buffer matches Some(after)
                &&& match old(domain)@.buffer {
                    Some(before) => after == before.push(request),
                    None => after.len() == 1 && after[0] == request,
                }
            }
        },
{
}

/// A block list refuses a request that lies too deep, names no host or goes to a blocked domain,
/// and says which; nothing changes. Any other request waits at the end of its queue.
pub proof fn law_block_list_takes_requests<S, F>(
    list: &mut BlockList<S, F>,
    request: QueuedRequest<S>,
    added: Result<(), CrawlError<S>>,
)
    requires
        call_ensures(BlockList::<S, F>::add_request, (list, request), added),
    ensures
        added is Err ==> final(list)@ == old(list)@,
        added is Ok ==> {
            &&& final(list)@.queue.queued == old(list)@.queue.queued.push(request)
            &&& final(list)@.queue.delay == old(list)@.queue.delay
            &&& final(list)@.queue.timer == old(list)@.queue.timer
            &&& final(list)@.in_flight == old(list)@.in_flight
            &&& final(list)@.robots_tasks == old(list)@.robots_tasks
            &&& final(list)@.robots_map == old(list)@.robots_map
            &&& final(list)@.robots_hosts == old(list)@.robots_hosts
            &&& final(list)@.blocked == old(list)@.blocked
            &&& final(list)@.phase == old(list)@.phase
        },
        if request.depth > old(list)@.max_depth {
            added == Err::<(), _>(
                CrawlError::ReachedMaxDepth {
                    request: request.request,
                    state: request.state,
                    depth: request.depth,
                },
            )
        } else {
            match request.request.host() {
                None => added == Err::<(), _>(
                    CrawlError::InvalidRequest { request: request.request, state: request.state },
                ),
                Some(host) => if old(list)@.blocked.contains(host) {
                    added == Err::<(), _>(
                        CrawlError::DisallowedRequest {
                            reason: DisallowReason::User,
                            request: request.request,
                            state: request.state,
                        },
                    )
                } else {
                    added is Ok
                },
            }
        },
{
}

/// Blocking and allowing a domain decides on that domain only, and changes nothing else.
pub proof fn law_block_list_blocks<S, F>(list: &mut BlockList<S, F>, domain: &str)
    requires
        call_ensures(BlockList::<S, F>::disallow, (list, domain), ()),
    ensures
        forall|name: Seq<char>| #[trigger]
            final(list)@.blocked.contains(name) <==> old(list)@.blocked.contains(name) || name
                == domain@,
        final(list)@.queue == old(list)@.queue,
        final(list)@.in_flight == old(list)@.in_flight,
        final(list)@.robots_tasks == old(list)@.robots_tasks,
        final(list)@.robots_map == old(list)@.robots_map,
        final(list)@.max_depth == old(list)@.max_depth,
        final(list)@.max_requests == old(list)@.max_requests,
        final(list)@.respect_robots_txt == old(list)@.respect_robots_txt,
{
}

/// Allowing a domain that was blocked decides on that domain only, and changes nothing else.
pub proof fn law_block_list_unblocks<S, F>(list: &mut BlockList<S, F>, domain: &str)
    requires
        call_ensures(BlockList::<S, F>::allow, (list, domain), ()),
    ensures
        forall|name: Seq<char>| #[trigger]
            final(list)@.blocked.contains(name) <==> old(list)@.blocked.contains(name) && name
                != domain@,
        final(list)@.queue == old(list)@.queue,
        final(list)@.in_flight == old(list)@.in_flight,
        final(list)@.robots_tasks == old(list)@.robots_tasks,
        final(list)@.robots_map == old(list)@.robots_map,
        final(list)@.max_depth == old(list)@.max_depth,
        final(list)@.max_requests == old(list)@.max_requests,
        final(list)@.respect_robots_txt == old(list)@.respect_robots_txt,
{
}

/// Setting the delay of a block list changes the delay only; the one before it is given back.
pub proof fn law_block_list_delay_is_set<S, F>(
    list: &mut BlockList<S, F>,
    delay: RequestDelay,
    before: Option<RequestDelay>,
)
    requires
        call_ensures(BlockList::<S, F>::set_delay, (list, delay), before),
    ensures
        before == old(list)@.queue.delay,
        final(list)@.queue.delay == Some(delay),
        final(list)@.queue.queued == old(list)@.queue.queued,
        before is Some ==> final(list)@.queue.timer == old(list)@.queue.timer,
        before is None ==> (final(list)@.queue.timer matches Some(timer)
            && timer.set_to().total_nanos() == 0 && timer.is_set()),
        final(list)@.blocked == old(list)@.blocked,
        final(list)@.in_flight == old(list)@.in_flight,
        final(list)@.robots_map == old(list)@.robots_map,
        final(list)@.max_requests == old(list)@.max_requests,
{
}

/// Removing the delay of a block list changes the delay only; it is given back.
pub proof fn law_block_list_delay_is_removed<S, F>(
    list: &mut BlockList<S, F>,
    before: Option<RequestDelay>,
)
    requires
        call_ensures(BlockList::<S, F>::remove_delay, (list,), before),
    ensures
        before == old(list)@.queue.delay,
        final(list)@.queue.delay is None,
        final(list)@.queue.queued == old(list)@.queue.queued,
        final(list)@.blocked == old(list)@.blocked,
        final(list)@.in_flight == old(list)@.in_flight,
        final(list)@.robots_map == old(list)@.robots_map,
        final(list)@.max_requests == old(list)@.max_requests,
{
}

/// A domain that is allowed is on the list from then on, set as it was told to be, with nothing to
/// do yet. The other domains stay as they are.
pub proof fn law_allow_list_allows<S, F, E>(
    list: &mut AllowList<S, F, E>,
    domain: String,
    config: AllowListConfig,
    other: Seq<char>,
)
    requires
        call_ensures(AllowList::<S, F, E>::allow, (list, domain, config), ()),
        other != domain@,
    ensures
        final(list)@.allowed.contains_key(domain@),
        final(list)@.domains.contains(domain@),
        ({
            let state = final(list)@.allowed[domain@];
            &&& state.host@ == domain@
            &&& state.is_drained()
            &&& state.client == config.client
            &&& state.robots is None
            &&& state.respect_robots_txt == config.respect_robots_txt
            &&& state.skip_non_successful_responses == config.skip_non_successful_responses
            &&& state.max_depth == config.max_depth
            &&& state.max_requests == config.max_requests
            &&& state.queue.delay == config.delay
        }),
        final(list)@.allowed.contains_key(other) == old(list)@.allowed.contains_key(other),
        old(list)@.allowed.contains_key(other) ==> final(list)@.allowed[other]
            == old(list)@.allowed[other],
        final(list)@.results == old(list)@.results,
{
    let names = final(list)@.domains;
    assert(names[names.len() - 1] == domain@);
}

/// A domain that is disallowed is no longer on the list, and what was kept for it is handed out.
/// The other domains stay as they are.
pub proof fn law_allow_list_disallows<S, F, E>(
    list: &mut AllowList<S, F, E>,
    domain: &str,
    removed: Option<AllowedDomain<S, F>>,
    other: Seq<char>,
)
    requires
        call_ensures(AllowList::<S, F, E>::disallow, (list, domain), removed),
        other != domain@,
    ensures
        !final(list)@.allowed.contains_key(domain@),
        removed is Some <==> old(list)@.allowed.contains_key(domain@),
        removed matches Some(state) ==> state@ == old(list)@.allowed[domain@],
        final(list)@.allowed.contains_key(other) == old(list)@.allowed.contains_key(other),
        old(list)@.allowed.contains_key(other) ==> final(list)@.allowed[other]
            == old(list)@.allowed[other],
        final(list)@.results == old(list)@.results,
{
}

/// What is kept for a domain can be looked at just if it is on the list.
pub proof fn law_allow_list_shows_domains<S, F, E>(
    list: AllowList<S, F, E>,
    domain: &str,
    found: Option<&AllowedDomain<S, F>>,
)
    requires
        call_ensures(AllowList::<S, F, E>::get_domain, (&list, domain), found),
    ensures
        found is Some <==> list@.allowed.contains_key(domain@),
        found matches Some(state) ==> state@ == list@.allowed[domain@],
{
}

/// An allow list refuses a request that names no host, or one that goes to a domain that is not on
/// it, and says which; nothing changes. Any other request goes to its own domain, and the other
/// domains stay as they are.
pub proof fn law_allow_list_takes_requests<S, F, E>(
    list: &mut AllowList<S, F, E>,
    request: QueuedRequest<S>,
    added: Result<(), CrawlError<S>>,
    other: Seq<char>,
)
    requires
        call_ensures(AllowList::<S, F, E>::add_request, (list, request), added),
    ensures
        match request.request.host() {
            None => {
                &&& final(list)@ == old(list)@
                &&& added == Err::<(), _>(
                    CrawlError::InvalidRequest { request: request.request, state: request.state },
                )
            },
            Some(host) => if old(list)@.allowed.contains_key(host) {
                &&& added is Ok <==> request.depth <= old(list)@.allowed[host].max_depth
                &&& other != host && old(list)@.allowed.contains_key(other)
                    ==> final(list)@.allowed.contains_key(other) && final(list)@.allowed[other]
                    == old(list)@.allowed[other]
                &&& final(list)@.results == old(list)@.results
                &&& final(list)@.domains == old(list)@.domains
                &&& added is Ok ==> final(list)@.allowed[host].waiting()
                    == old(list)@.allowed[host].waiting() + 1
            } else {
                &&& final(list)@ == old(list)@
                &&& added == Err::<(), _>(
                    CrawlError::DisallowedRequest {
                        reason: DisallowReason::User,
                        request: request.request,
                        state: request.state,
                    },
                )
            },
        },
{
}

/// A request that is queued lies one deeper than the response that is being scraped, and carries
/// the state that it was queued with. If it is refused, the refusal is the last result, and
/// nothing else changes; if not, no result turns up.
pub proof fn law_crawler_queues<O, S, F, E>(
    crawler: &mut Crawler<O, S, F, E>,
    request: PageRequest,
    state: Option<S>,
)
    requires
        call_ensures(
            Crawler::<O, S, F, E>::queue_built,
            (crawler, Ok::<PageRequest, reqwest::Error>(request), state),
            (),
        ),
        old(crawler)@.current_depth < usize::MAX,
    ensures
        ({
            let depth = (old(crawler)@.current_depth + 1) as usize;
            let (list, added) = old(crawler)@.list.add_request(
                QueuedRequest { request, state, depth },
            );
            &&& final(crawler)@.list == list
            &&& match added {
                Ok(()) => final(crawler)@.results == old(crawler)@.results,
                Err(error) => final(crawler)@.results == old(crawler)@.results.push(
                    CrawlResult::Crawled(Err(Failure::Crawl(error))),
                ),
            }
        }),
        final(crawler)@.outputs == old(crawler)@.outputs,
        final(crawler)@.crawls == old(crawler)@.crawls,
        final(crawler)@.stats == old(crawler)@.stats,
        final(crawler)@.current_depth == old(crawler)@.current_depth,
        final(crawler)@.phase == old(crawler)@.phase,
{
}

/// A request that could not be put together is reported as the last result, with its state, and one
/// deeper than the response that is being scraped.
pub proof fn law_crawler_reports_failed_requests<O, S, F, E>(
    crawler: &mut Crawler<O, S, F, E>,
    error: reqwest::Error,
    state: Option<S>,
)
    requires
        call_ensures(
            Crawler::<O, S, F, E>::queue_built,
            (crawler, Err::<PageRequest, reqwest::Error>(error), state),
            (),
        ),
        old(crawler)@.current_depth < usize::MAX,
    ensures
        final(crawler)@.results == old(crawler)@.results.push(
            CrawlResult::Crawled(
                Err(
                    Failure::Crawl(
                        CrawlError::FailedToBuildRequest {
                            error,
                            state,
                            depth: (old(crawler)@.current_depth + 1) as usize,
                        },
                    ),
                ),
            ),
        ),
        final(crawler)@.list == old(crawler)@.list,
        final(crawler)@.outputs == old(crawler)@.outputs,
        final(crawler)@.crawls == old(crawler)@.crawls,
        final(crawler)@.stats == old(crawler)@.stats,
{
}

/// Visiting an address queues what comes of a GET request to it, without a state.
pub proof fn law_visits_are_queued<O, S, F, E>(crawler: &mut Crawler<O, S, F, E>, url: &str)
    requires
        call_ensures(Crawler::<O, S, F, E>::visit, (crawler, url), ()),
        old(crawler)@.current_depth < usize::MAX,
    ensures
        exists|
            builder: reqwest_middleware::RequestBuilder,
            built: Result<PageRequest, reqwest::Error>,
        |
            starts_get(old(crawler)@.client, url@, builder)
                && #[trigger] builds_page(builder, built) && is_queued(
                old(crawler)@,
                built,
                None,
                final(crawler)@,
            ),
{
}

/// Visiting an address with a state queues what comes of a GET request to it, with that state.
pub proof fn law_visits_with_a_state_are_queued<O, S, F, E>(
    crawler: &mut Crawler<O, S, F, E>,
    url: &str,
    state: S,
)
    requires
        call_ensures(Crawler::<O, S, F, E>::visit_with_state, (crawler, url, state), ()),
        old(crawler)@.current_depth < usize::MAX,
    ensures
        exists|
            builder: reqwest_middleware::RequestBuilder,
            built: Result<PageRequest, reqwest::Error>,
        |
            starts_get(old(crawler)@.client, url@, builder)
                && #[trigger] builds_page(builder, built) && is_queued(
                old(crawler)@,
                built,
                Some(state),
                final(crawler)@,
            ),
{
}

/// A request without a state is queued as what comes of its builder.
pub proof fn law_requests_are_queued<O, S, F, E>(
    crawler: &mut Crawler<O, S, F, E>,
    builder: reqwest_middleware::RequestBuilder,
)
    requires
        call_ensures(Crawler::<O, S, F, E>::request, (crawler, builder), ()),
        old(crawler)@.current_depth < usize::MAX,
    ensures
        exists|built: Result<PageRequest, reqwest::Error>| #[trigger]
            builds_page(builder, built) && is_queued(
                old(crawler)@,
                built,
                None,
                final(crawler)@,
            ),
{
}

/// A request with a state is queued as what comes of its builder, with that state.
pub proof fn law_requests_with_a_state_are_queued<O, S, F, E>(
    crawler: &mut Crawler<O, S, F, E>,
    builder: reqwest_middleware::RequestBuilder,
    state: S,
)
    requires
        call_ensures(Crawler::<O, S, F, E>::request_with_state, (crawler, builder, state), ()),
        old(crawler)@.current_depth < usize::MAX,
    ensures
        exists|built: Result<PageRequest, reqwest::Error>| #[trigger]
            builds_page(builder, built) && is_queued(
                old(crawler)@,
                built,
                Some(state),
                final(crawler)@,
            ),
{
}

/// Whether what came of a request was put into the list of domains, one deeper than the response
/// that is being scraped, and what the list refused was reported.
pub open spec fn is_queued<O, S, F, E>(
    before: CrawlerState<O, S, F, E>,
    built: Result<PageRequest, reqwest::Error>,
    state: Option<S>,
    after: CrawlerState<O, S, F, E>,
) -> bool {
    let depth = (before.current_depth + 1) as usize;
    let (list, added) = match built {
        Ok(request) => before.list.add_request(QueuedRequest { request, state, depth }),
        Err(error) => (
            before.list,
            Err(CrawlError::FailedToBuildRequest { error, state, depth }),
        ),
    };
    &&& after.list == list
    &&& after.results == match added {
        Ok(()) => before.results,
        Err(error) => before.results.push(CrawlResult::Crawled(Err(Failure::Crawl(error)))),
    }
    &&& after.outputs == before.outputs
    &&& after.crawls == before.crawls
    &&& after.stats == before.stats
    &&& after.current_depth == before.current_depth
    &&& after.phase == before.phase
    &&& after.client == before.client
}

/// A job that ends in a response is started with the client of the crawler and waits behind the
/// others; its response will lie one deeper than the one that is being scraped.
pub proof fn law_crawler_submits_crawls<O, S, F, E, G: FnOnce(&ClientWithMiddleware) -> F>(
    crawler: &mut Crawler<O, S, F, E>,
    fun: G,
)
    requires
        call_ensures(Crawler::<O, S, F, E>::crawl::<G>, (crawler, fun), ()),
        old(crawler)@.current_depth < usize::MAX,
    ensures
        final(crawler)@.crawls.len() == old(crawler)@.crawls.len() + 1,
        final(crawler)@.crawls.drop_last() == old(crawler)@.crawls,
        final(crawler)@.crawls.last().0 == old(crawler)@.current_depth + 1,
        call_ensures(fun, (&old(crawler)@.client,), final(crawler)@.crawls.last().1),
        final(crawler)@.outputs == old(crawler)@.outputs,
        final(crawler)@.results == old(crawler)@.results,
        final(crawler)@.list == old(crawler)@.list,
        final(crawler)@.stats == old(crawler)@.stats,
        final(crawler)@.current_depth == old(crawler)@.current_depth,
{
    assert(final(crawler)@.crawls.drop_last() =~= old(crawler)@.crawls);
}

/// A job that ends in the scraper's output is started with the client of the crawler and waits
/// behind the others.
pub proof fn law_crawler_submits_outputs<O, S, F, E, G: FnOnce(&ClientWithMiddleware) -> F>(
    crawler: &mut Crawler<O, S, F, E>,
    fun: G,
)
    requires
        call_ensures(Crawler::<O, S, F, E>::complete::<G>, (crawler, fun), ()),
    ensures
        final(crawler)@.outputs.len() == old(crawler)@.outputs.len() + 1,
        final(crawler)@.outputs.drop_last() == old(crawler)@.outputs,
        call_ensures(fun, (&old(crawler)@.client,), final(crawler)@.outputs.last()),
        final(crawler)@.crawls == old(crawler)@.crawls,
        final(crawler)@.results == old(crawler)@.results,
        final(crawler)@.list == old(crawler)@.list,
        final(crawler)@.stats == old(crawler)@.stats,
        final(crawler)@.current_depth == old(crawler)@.current_depth,
{
    assert(final(crawler)@.outputs.drop_last() =~= old(crawler)@.outputs);
}

/// What is read off a crawler is what it was made with and what it has counted.
pub proof fn law_crawler_is_read<O, S, F, E>(
    crawler: Crawler<O, S, F, E>,
    max_depth: usize,
    respects: bool,
    skips: bool,
    client: &ClientWithMiddleware,
    stats: &Stats,
    can: bool,
)
    requires
        call_ensures(Crawler::<O, S, F, E>::max_depth, (&crawler,), max_depth),
        call_ensures(Crawler::<O, S, F, E>::respects_robots_txt, (&crawler,), respects),
        call_ensures(Crawler::<O, S, F, E>::skips_non_successful_responses, (&crawler,), skips),
        call_ensures(Crawler::<O, S, F, E>::client, (&crawler,), client),
        call_ensures(Crawler::<O, S, F, E>::stats, (&crawler,), stats),
        call_ensures(Crawler::<O, S, F, E>::can_go_deeper, (&crawler,), can),
    ensures
        max_depth == crawler@.max_depth,
        respects == crawler@.respect_robots_txt,
        skips == crawler@.skip_non_successful_responses,
        *client == crawler@.client,
        stats.request_count == crawler@.stats.request_count,
        stats.response_count == crawler@.stats.response_count,
        can <==> crawler@.current_depth < usize::MAX,
{
}

/// Whatever result a collector receives that is no response, it gives out as that very item, and is
/// itself unchanged; for a response it gives out no end.
pub proof fn law_collector_receives<T: Scraper>(
    collector: &mut Collector<T>,
    result: CrawlResult<T::Output, T::State, T::Error>,
    demand: CollectorDemand<T::Output, T::State, T::Task, T::Error>,
)
    requires
        call_ensures(Collector::<T>::receive, (collector, result), demand),
    ensures
        result matches CrawlResult::Finished(outcome) ==> (demand@
            matches CollectorDemandView::Yield(CollectorProgress::Item(item)) && item == outcome
            && final(collector)@ == old(collector)@),
        result matches CrawlResult::Crawled(Err(failure)) ==> (demand@
            matches CollectorDemandView::Yield(CollectorProgress::Item(Err(item))) && item
            == failure && final(collector)@ == old(collector)@),
        demand@ matches CollectorDemandView::Yield(progress) ==> progress is Item,
{
}

/// What is read off a collector is its scraper, its crawler and what that has counted.
pub proof fn law_collector_is_read<T: Scraper>(
    collector: Collector<T>,
    scraper: &T,
    crawler: &Crawler<T::Output, T::State, T::Task, T::Error>,
    stats: &Stats,
)
    requires
        call_ensures(Collector::<T>::scraper, (&collector,), scraper),
        call_ensures(Collector::<T>::crawler, (&collector,), crawler),
        call_ensures(Collector::<T>::stats, (&collector,), stats),
    ensures
        *scraper == collector@.scraper,
        crawler@ == collector@.crawler,
        *stats == collector@.crawler.stats,
{
}

/// Who changes the scraper of a collector changes nothing else of it.
pub proof fn law_scraper_is_lent<T: Scraper>(collector: &mut Collector<T>, scraper: &mut T)
    requires
        call_ensures(Collector::<T>::scraper_mut, (collector,), scraper),
    ensures
        *old(scraper) == old(collector)@.scraper,
        final(collector)@.scraper == *final(scraper),
        final(collector)@.crawler == old(collector)@.crawler,
{
}

/// Who changes the crawler of a collector changes nothing else of it.
pub proof fn law_crawler_is_lent<T: Scraper>(
    collector: &mut Collector<T>,
    crawler: &mut Crawler<T::Output, T::State, T::Task, T::Error>,
)
    requires
        call_ensures(Collector::<T>::crawler_mut, (collector,), crawler),
    ensures
        old(crawler)@ == old(collector)@.crawler,
        final(collector)@.crawler == final(crawler)@,
        final(collector)@.scraper == old(collector)@.scraper,
{
}

/// Who changes the waiting requests of a queue changes neither its delay nor its timer.
pub proof fn law_waiting_requests_are_lent<T>(
    queue: &mut RequestQueue<T>,
    waiting: &mut VecDeque<QueuedRequest<T>>,
)
    requires
        call_ensures(RequestQueue::<T>::queue_mut, (queue,), waiting),
    ensures
        old(waiting)@ == old(queue)@.queued,
        final(queue)@.queued == final(waiting)@,
        final(queue)@.delay == old(queue)@.delay,
        final(queue)@.timer == old(queue)@.timer,
{
}

/// A line that names an agent makes it one of those that the next rules are for; where rules came
/// before it, their group is finished, and the agent is the only one so far.
pub proof fn law_agents_are_noted(handler: &mut RobotsHandler, line: u32, name: &str)
    requires
        call_ensures(RobotsHandler::handle_user_agent, (handler, line, name), ()),
    ensures
        final(handler)@.group is None,
        final(handler)@.agents matches Some(agents) && forall|agent: Seq<char>| #[trigger]
            agents.contains(agent) <==> agent == name@ || (old(handler)@.group is None
                && (old(handler)@.agents matches Some(before) && before.contains(agent))),
        old(handler)@.group is None ==> final(handler)@.groups == old(handler)@.groups,
        old(handler)@.group matches Some(group) ==> {
            &&& final(handler)@.groups.len() == old(handler)@.groups.len() + 1
            &&& final(handler)@.groups.last().1 == group
            &&& final(handler)@.groups.drop_last() == old(handler)@.groups
        },
{
    if old(handler)@.group is Some {
        assert(final(handler)@.groups.drop_last() =~= old(handler)@.groups);
    }
}

/// A line that allows a pattern adds that rule to the group in progress; without a pattern nothing
/// changes.
pub proof fn law_allowing_lines_are_noted(handler: &mut RobotsHandler, line: u32, pattern: &str)
    requires
        call_ensures(RobotsHandler::handle_allow, (handler, line, pattern), ()),
    ensures
        final(handler)@.agents == old(handler)@.agents,
        final(handler)@.groups == old(handler)@.groups,
        pattern@.len() == 0 ==> final(handler)@ == old(handler)@,
        pattern@.len() > 0 ==> adds_rule(
            old(handler)@.group,
            pattern@,
            true,
            final(handler)@.group,
        ),
{
}

/// A line that disallows a pattern adds that rule to the group in progress; without a pattern
/// nothing changes.
pub proof fn law_denying_lines_are_noted(handler: &mut RobotsHandler, line: u32, pattern: &str)
    requires
        call_ensures(RobotsHandler::handle_disallow, (handler, line, pattern), ()),
    ensures
        final(handler)@.agents == old(handler)@.agents,
        final(handler)@.groups == old(handler)@.groups,
        pattern@.len() == 0 ==> final(handler)@ == old(handler)@,
        pattern@.len() > 0 ==> adds_rule(
            old(handler)@.group,
            pattern@,
            false,
            final(handler)@.group,
        ),
{
}

/// Whether a group has a rule behind those that it had before, and the same pause.
pub open spec fn adds_rule(
    before: Option<GroupView>,
    pattern: Seq<char>,
    allow: bool,
    after: Option<GroupView>,
) -> bool {
    &&& after matches Some(group)
    &&& group.rules.len() > 0
    &&& group.rules.last().pattern == pattern
    &&& group.rules.last().allow == allow
    &&& match before {
        Some(old_group) => {
            &&& group.rules == old_group.rules.push(group.rules.last())
            &&& group.crawl_delay == old_group.crawl_delay
        },
        None => group.rules.len() == 1 && group.crawl_delay is None,
    }
}

/// A line with any other key changes neither the agents nor the rules nor what is finished; only
/// the pause of a group in progress may change.
pub proof fn law_other_lines_are_noted(
    handler: &mut RobotsHandler,
    lower: &str,
    value: &str,
    fraction: Option<u64>,
)
    requires
        call_ensures(RobotsHandler::handle_key, (handler, lower, value, fraction), ()),
    ensures
        final(handler)@.agents == old(handler)@.agents,
        final(handler)@.groups == old(handler)@.groups,
        match (old(handler)@.group, final(handler)@.group) {
            (None, None) => true,
            (Some(before), Some(after)) => {
                &&& after.rules == before.rules
                &&& lower@ != "crawl-delay"@ && lower@ != "crawldelay"@ ==> after.crawl_delay
                    == before.crawl_delay
            },
            _ => false,
        },
{
}

/// A line with a sitemap changes nothing.
pub proof fn law_sitemaps_are_passed_over(handler: &mut RobotsHandler, line: u32, value: &str)
    requires
        call_ensures(RobotsHandler::handle_sitemap, (handler, line, value), ()),
    ensures
        final(handler)@ == old(handler)@,
{
}

/// The start of a `robots.txt` changes nothing.
pub proof fn law_start_is_passed_over(handler: &mut RobotsHandler)
    requires
        call_ensures(RobotsHandler::handle_robots_start, (handler,), ()),
    ensures
        final(handler)@ == old(handler)@,
{
}

/// The end of a `robots.txt` finishes the group in progress: it goes, with its agents, behind the
/// finished ones.
pub proof fn law_end_is_noted(handler: &mut RobotsHandler)
    requires
        call_ensures(RobotsHandler::handle_robots_end, (handler,), ()),
    ensures
        final(handler)@.group is None,
        old(handler)@.group is None ==> final(handler)@ == old(handler)@,
        old(handler)@.group matches Some(group) ==> {
            &&& final(handler)@.groups.len() == old(handler)@.groups.len() + 1
            &&& final(handler)@.groups.drop_last() == old(handler)@.groups
            &&& final(handler)@.groups.last().1 == group
            &&& forall|agent: Seq<char>| #[trigger]
                final(handler)@.groups.last().0.contains(agent) <==> (old(handler)@.agents
                    matches Some(agents) && agents.contains(agent))
        },
{
    if old(handler)@.group is Some {
        assert(final(handler)@.groups.drop_last() =~= old(handler)@.groups);
    }
}

/// A line with any other key is read by its key in lower case: where it asks for a pause, that is
/// the pause of the group in progress from then on, and nothing else changes.
pub proof fn law_keys_are_read_in_lower_case(
    handler: &mut RobotsHandler,
    line: u32,
    key: &str,
    value: &str,
    fraction: Option<u64>,
)
    requires
        call_ensures(
            RobotsHandler::handle_unknown_action,
            (handler, line, key, value, fraction),
            (),
        ),
    ensures
        final(handler)@.agents == old(handler)@.agents,
        final(handler)@.groups == old(handler)@.groups,
        match (old(handler)@.group, final(handler)@.group) {
            (None, None) => true,
            (Some(before), Some(after)) => {
                &&& after.rules == before.rules
                &&& lowercase(key@) != "crawl-delay"@ && lowercase(key@) != "crawldelay"@
                    ==> after.crawl_delay == before.crawl_delay
                &&& lowercase(key@) == "crawl-delay"@ || lowercase(key@) == "crawldelay"@
                    ==> match (read_u64(value@), fraction) {
                    (Some(secs), _) => after.crawl_delay == Some(((secs % 1000) as u64, 0u32)),
                    (None, Some(millis)) => after.crawl_delay == Some(
                        ((millis / 1000) as u64, (millis % 1000 * 1_000_000) as u32),
                    ),
                    (None, None) => after.crawl_delay == before.crawl_delay,
                }
            },
            _ => false,
        },
{
}

/// A rule says what it was made to say.
pub proof fn law_rules_are_as_made(
    pattern: String,
    allowing: Rule,
    denying: Rule,
    answers: (bool, bool, bool, bool),
    patterns: (&String, &String),
)
    requires
        call_ensures(Rule::allow, (pattern,), allowing),
        call_ensures(Rule::disallow, (pattern,), denying),
        call_ensures(Rule::is_allow, (&allowing,), answers.0),
        call_ensures(Rule::is_disallow, (&allowing,), answers.1),
        call_ensures(Rule::is_allow, (&denying,), answers.2),
        call_ensures(Rule::is_disallow, (&denying,), answers.3),
        call_ensures(Rule::pattern, (&allowing,), patterns.0),
        call_ensures(Rule::pattern, (&denying,), patterns.1),
    ensures
        answers.0 && !answers.1 && !answers.2 && answers.3,
        patterns.0@ == pattern@ && patterns.1@ == pattern@,
{
}

/// Data can be asked just if one of its flags decides, or if the groups that are listed for an agent
/// are there.
pub proof fn law_data_can_be_asked(data: RobotsData, can: bool)
    requires
        call_ensures(RobotsData::is_well_formed, (&data,), can),
    ensures
        data.disallow_all || data.allow_all ==> can,
        !data.disallow_all && !data.allow_all ==> (can <==> forall|agent: Seq<char>, k: int|
            data.group_agents@.contains_key(agent) && 0 <= k < data.group_agents@[agent]@.len()
                ==> #[trigger] data.group_agents@[agent]@[k] < data.groups@.len()),
        can ==> forall|request: PageRequest| #[trigger]
            call_requires(RobotsData::is_not_disallowed, (&data, &request)),
{
    let lists = data.group_agents@;
    let said = data@.group_agents;
    if !data.disallow_all && !data.allow_all {
        if can {
            assert forall|agent: Seq<char>, k: int|
                lists.contains_key(agent) && 0 <= k < lists[agent]@.len() implies #[trigger] lists[agent]@[k]
                < data.groups@.len() by {
                assert(said.contains_key(agent));
                assert(said[agent][k] == lists[agent]@[k]);
            }
        }
        if forall|agent: Seq<char>, k: int|
            lists.contains_key(agent) && 0 <= k < lists[agent]@.len()
                ==> #[trigger] lists[agent]@[k] < data.groups@.len() {
            assert forall|agent: Seq<char>, k: int|
                said.contains_key(agent) && 0 <= k < said[agent].len() implies #[trigger] said[agent][k]
                < data@.groups.len() by {
                assert(said[agent][k] == lists[agent]@[k]);
            }
        }
    }
}

/// There is room for one more request in flight just if none is, or if fewer are than the limit.
pub proof fn law_room_is_below_the_limit(in_flight: usize, max_requests: usize, room: bool)
    requires
        call_ensures(is_below, (in_flight, max_requests), room),
    ensures
        room <==> in_flight == 0 || in_flight < max_requests,
{
}

/// A refusal is of the kind that says why, and hands the request and its state back.
pub proof fn law_refusals_are_made<S>(
    request: QueuedRequest<S>,
    reason: DisallowReason,
    disallowed: CrawlError<S>,
    invalid: CrawlError<S>,
    too_deep: CrawlError<S>,
)
    requires
        call_ensures(disallow::<S>, (request, reason), disallowed),
        call_ensures(reject::<S>, (request,), invalid),
        call_ensures(reject_depth::<S>, (request,), too_deep),
    ensures
        disallowed == (CrawlError::DisallowedRequest {
            reason,
            request: request.request,
            state: request.state,
        }),
        invalid == (CrawlError::InvalidRequest { request: request.request, state: request.state }),
        too_deep == (CrawlError::ReachedMaxDepth {
            request: request.request,
            state: request.state,
            depth: request.depth,
        }),
{
}

/// A map gives back for each key the value that was put in last; the others keep theirs.
pub proof fn law_map_holds_what_was_put_in<V>(
    map: &mut StringMap<V>,
    key: String,
    value: V,
    other: Seq<char>,
)
    requires
        call_ensures(StringMap::<V>::insert, (map, key, value), ()),
        other != key@,
    ensures
        final(map)@.contains_key(key@),
        final(map)@[key@] == value,
        final(map)@.contains_key(other) == old(map)@.contains_key(other),
        old(map)@.contains_key(other) ==> final(map)@[other] == old(map)@[other],
{
}

/// A key that is taken out of a map is not in it any more, and its value is handed out; the others
/// keep theirs.
pub proof fn law_map_hands_out_what_was_removed<V>(
    map: &mut StringMap<V>,
    key: &str,
    value: Option<V>,
    other: Seq<char>,
)
    requires
        call_ensures(StringMap::<V>::remove, (map, key), value),
        other != key@,
    ensures
        !final(map)@.contains_key(key@),
        value is Some <==> old(map)@.contains_key(key@),
        value matches Some(removed) ==> removed == old(map)@[key@],
        final(map)@.contains_key(other) == old(map)@.contains_key(other),
        old(map)@.contains_key(other) ==> final(map)@[other] == old(map)@[other],
{
}

} // verus!
