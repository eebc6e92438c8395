//! The limits that a config sets: on the depth, and on the number of requests in flight.
use crate::allow_list::{lemma_taken_out, AllowPhaseView, AllowState};
use crate::allowed_domain::{concurrency, lemma_step_uses_up, DomainState};
use crate::block_list::{BlockPhaseView, BlockState};
use crate::config::ConfigState;
use crate::crawler::{
    crawled, domain_config, injected_response, unread, CrawlNews, CrawlResult, CrawlerPhaseView,
    CrawlerSignal, CrawlerState, OutputNews,
};
use crate::domain::{lemma_listing_uses_up, ListingState};
use crate::error::Failure;
use crate::fetch::{swap_removed, DemandView, Progress, RobotsNews, Signal};
use crate::laws::conservation::{given_out, job_results};
use crate::laws::invariants::{
    law_block_list_stays_well_formed, law_domain_stays_well_formed, law_listing_stays_well_formed,
    lemma_hear_is_sound, lemma_poll_finds_idle, lemma_visited_attends,
};
use crate::requests::{NextRequest, QueuedRequest};
use crate::response::Response;
use crate::time::Timer;
use vstd::prelude::*;

verus! {

impl<S, F> DomainState<S, F> {
    /// Whether the settings are the same.
    pub open spec fn is_set_like(self, other: Self) -> bool {
        &&& self.host == other.host
        &&& self.client == other.client
        &&& self.skip_non_successful_responses == other.skip_non_successful_responses
        &&& self.respect_robots_txt == other.respect_robots_txt
        &&& self.max_depth == other.max_depth
        &&& self.max_requests == other.max_requests
        &&& self.queue.delay == other.queue.delay
    }
}

/// Whatever a domain is told, no more requests are in flight than its limit allows. A limit of 0
/// leaves room for one.
pub proof fn law_domain_limits_the_requests<S, F, E>(
    domain: DomainState<S, F>,
    signal: Signal<S, F, E>,
    restarted: Timer,
)
    requires
        domain.well_formed(),
        domain.expects(signal),
    ensures
        ({
            let (after, _) = domain.step(signal, restarted);
            &&& domain.max_requests >= 1 ==> after.flying() <= domain.max_requests
            &&& domain.max_requests == 0 ==> after.flying() <= 1
        }),
{
    law_domain_stays_well_formed(domain, signal, restarted);
    law_domain_keeps_its_settings(domain, signal, restarted);
}

/// Whatever a domain is told, its settings stay as they are.
pub proof fn law_domain_keeps_its_settings<S, F, E>(
    domain: DomainState<S, F>,
    signal: Signal<S, F, E>,
    restarted: Timer,
)
    ensures
        domain.step(signal, restarted).0.is_set_like(domain),
{
}

/// A domain takes in a request without changing its settings.
pub proof fn law_domain_keeps_its_settings_on_requests<S, F>(
    domain: DomainState<S, F>,
    request: QueuedRequest<S>,
)
    ensures
        domain.add_request(request).0.is_set_like(domain),
{
}

/// Whether a result is no response from deeper than allowed.
pub open spec fn is_within<S, E>(
    result: Result<Response<S>, Failure<S, E>>,
    max_depth: usize,
) -> bool {
    result matches Ok(response) ==> response.depth <= max_depth
}

/// Whether none of these results is a response from deeper than allowed.
pub open spec fn all_within<S, E>(
    results: Seq<Result<Response<S>, Failure<S, E>>>,
    max_depth: usize,
) -> bool {
    forall|i: int| 0 <= i < results.len() ==> is_within(#[trigger] results[i], max_depth)
}

/// A domain gives out no response from deeper than allowed.
pub proof fn law_domain_responses_are_within_depth<S, F, E>(
    domain: DomainState<S, F>,
    signal: Signal<S, F, E>,
    restarted: Timer,
)
    requires
        domain.well_formed(),
        domain.expects(signal),
    ensures
        domain.step(signal, restarted).1 matches DemandView::Yield(Progress::Item(result))
            ==> is_within(result, domain.max_depth),
{
}

/// A domain gives out no response from deeper than allowed, also when every result at hand is taken
/// from it, and its settings stay as they are.
pub proof fn law_drained_domain_is_within_depth<S, F, E>(
    domain: DomainState<S, F>,
    signal: Signal<S, F, E>,
    restarted: Timer,
)
    requires
        domain.well_formed(),
        domain.expects(signal),
    ensures
        all_within(domain.drain(signal, restarted).items, domain.max_depth),
        domain.drain(signal, restarted).domain.is_set_like(domain),
    decreases
            2 * domain.waiting() + if signal is Poll {
                0int
            } else {
                1int
            },
{
    law_domain_stays_well_formed(domain, signal, restarted);
    law_domain_keeps_its_settings(domain, signal, restarted);
    law_domain_responses_are_within_depth(domain, signal, restarted);
    lemma_step_uses_up(domain, signal, restarted);
    let (next, demand) = domain.step(signal, restarted);
    if let DemandView::Yield(Progress::Item(item)) = demand {
        law_drained_domain_is_within_depth::<S, F, E>(next, Signal::Poll, restarted);
        let rest = next.drain::<E>(Signal::Poll, restarted).items;
        let items = seq![item] + rest;
        assert forall|i: int| 0 <= i < items.len() implies is_within(
            #[trigger] items[i],
            domain.max_depth,
        ) by {
            if i > 0 {
                assert(items[i] == rest[i - 1]);
            }
        }
    }
}

impl<S, F> BlockState<S, F> {
    /// Whether the settings are the same.
    pub open spec fn is_set_like(self, other: Self) -> bool {
        &&& self.client == other.client
        &&& self.blocked == other.blocked
        &&& self.skip_non_successful_responses == other.skip_non_successful_responses
        &&& self.respect_robots_txt == other.respect_robots_txt
        &&& self.max_depth == other.max_depth
        &&& self.max_requests == other.max_requests
        &&& self.queue.delay == other.queue.delay
    }
}

proof fn lemma_pull_keeps_settings<S, F, E>(list: BlockState<S, F>, left: nat)
    ensures
        list.pull::<E>(left).0.is_set_like(list),
        list.pull::<E>(left).1 matches DemandView::Yield(Progress::Item(result)) ==> result is Err,
    decreases left, 0nat,
{
    if left > 0 && list.has_room() {
        let (queue, next) = list.queue.poll_next();
        let rest = BlockState { queue, ..list };
        match next {
            NextRequest::Empty => {
                lemma_pull_keeps_settings::<S, F, E>(rest, (left - 1) as nat);
            },
            NextRequest::Wait(_) => {},
            NextRequest::Send(request) => {
                lemma_dispatch_keeps_settings::<S, F, E>(rest, request, (left - 1) as nat);
            },
        }
    }
}

proof fn lemma_dispatch_keeps_settings<S, F, E>(
    list: BlockState<S, F>,
    request: QueuedRequest<S>,
    left: nat,
)
    ensures
        list.dispatch::<E>(request, left).0.is_set_like(list),
        list.dispatch::<E>(request, left).1 matches DemandView::Yield(Progress::Item(result))
            ==> result is Err,
    decreases left, 1nat,
{
    let (rest, refused) = list.take_up(request);
    if refused is None {
        lemma_pull_keeps_settings::<S, F, E>(rest, left);
    }
}

/// Whatever a block list is told, its settings and the blocked domains stay as they are, and it
/// gives out no response from deeper than allowed.
pub proof fn law_block_list_keeps_its_settings<S, F, E>(
    list: BlockState<S, F>,
    signal: Signal<S, F, E>,
    restarted: Timer,
)
    requires
        list.well_formed(),
        list.expects(signal),
    ensures
        list.step(signal, restarted).0.is_set_like(list),
        list.step(signal, restarted).1 matches DemandView::Yield(Progress::Item(result))
            ==> is_within(result, list.max_depth),
{
    match (list.phase, signal) {
        (BlockPhaseView::Robots(_, host), Signal::Robots(news))
        | (BlockPhaseView::Asked(_, host, _), Signal::Robots(news)) => {
            let rest = match news {
                RobotsNews::Pending(task) => list.awaiting(host, task),
                RobotsNews::Ready(Ok(data)) => list.knowing(host, data@),
                RobotsNews::Ready(Err(_)) => list,
            };
            lemma_pull_keeps_settings::<S, F, E>(rest, rest.queue.queued.len());
        },
        (BlockPhaseView::Timer(left), Signal::Timer(timer, elapsed)) => {
            let (queue, next) = list.queue.resume(timer, elapsed, restarted);
            let rest = BlockState { queue, ..list };
            match next {
                None => {
                    lemma_pull_keeps_settings::<S, F, E>(rest, left);
                },
                Some(request) => {
                    lemma_dispatch_keeps_settings::<S, F, E>(rest, request, left);
                },
            }
        },
        (BlockPhaseView::Advance(_, _), Signal::Fetch(_)) => {},
        _ => {
            lemma_pull_keeps_settings::<S, F, E>(list, list.queue.queued.len());
        },
    }
}

/// Whatever a block list is told, no more requests are in flight than its limit allows. A limit of 0
/// leaves room for one.
pub proof fn law_block_list_limits_the_requests<S, F, E>(
    list: BlockState<S, F>,
    signal: Signal<S, F, E>,
    restarted: Timer,
)
    requires
        list.well_formed(),
        list.expects(signal),
    ensures
        ({
            let (after, _) = list.step(signal, restarted);
            &&& list.max_requests >= 1 ==> after.flying() <= list.max_requests
            &&& list.max_requests == 0 ==> after.flying() <= 1
        }),
{
    law_block_list_stays_well_formed(list, signal, restarted);
    law_block_list_keeps_its_settings(list, signal, restarted);
}

/// The limit on concurrent requests is shared out among the allowed domains: all shares together
/// are no more than the limit. Where there are more domains than the limit, each may still have one
/// request in flight.
pub proof fn law_limit_is_shared_out(
    config: ConfigState,
    name: Seq<char>,
    client: reqwest_middleware::ClientWithMiddleware,
)
    requires
        config.allowed.contains_key(name),
        config.allowed.dom().len() > 0,
    ensures
        ({
            let share = domain_config(config, name, client).max_requests;
            let count = config.allowed.dom().len();
            &&& share * count <= config.request_limit()
            &&& share == 0 <==> config.request_limit() < count
            &&& concurrency(share) * count <= if config.request_limit() < count {
                count as int
            } else {
                config.request_limit() as int
            }
        }),
{
    let limit = config.request_limit() as nat;
    let count = config.allowed.dom().len();
    let share = limit / count;
    assert(share * count <= limit && share <= limit && (share == 0 <==> limit < count))
        by (nonlinear_arith)
        requires
            count > 0,
            share == limit / count,
    ;
    assert(domain_config(config, name, client).max_requests == share);
    assert(concurrency(share as usize) * count == if share == 0 {
        count
    } else {
        share * count
    }) by (nonlinear_arith)
        requires
            concurrency(share as usize) == if share == 0 {
                1
            } else {
                share
            },
    ;
}

/// The number of requests in flight in the domains of these names.
pub open spec fn flying_in<S, F>(
    allowed: Map<Seq<char>, DomainState<S, F>>,
    hosts: Set<Seq<char>>,
) -> nat
    decreases hosts.len(),
        when hosts.finite()
{
    if hosts.len() == 0 {
        0
    } else {
        let host = hosts.choose();
        flying_in(allowed, hosts.remove(host)) + allowed[host].flying()
    }
}

impl<S, F, E> AllowState<S, F, E> {
    /// Whether every domain has this share of the limit on concurrent requests.
    pub open spec fn shares(self, share: usize) -> bool {
        forall|host: Seq<char>| #[trigger]
            self.allowed.contains_key(host) ==> self.allowed[host].max_requests == share
    }
}

proof fn lemma_flying_is_limited<S, F, E>(
    list: AllowState<S, F, E>,
    share: usize,
    hosts: Set<Seq<char>>,
)
    requires
        list.well_formed(),
        list.shares(share),
        hosts.finite(),
        hosts.subset_of(list.allowed.dom()),
    ensures
        flying_in(list.allowed, hosts) <= concurrency(share) * hosts.len(),
    decreases hosts.len(),
{
    broadcast use vstd::set_lib::group_set_properties;

    if hosts.len() > 0 {
        let host = hosts.choose();
        assert(list.allowed.contains_key(host));
        assert(list.allowed[host].well_formed());
        lemma_flying_is_limited(list, share, hosts.remove(host));
        let (limit, others) = (concurrency(share), hosts.remove(host).len());
        assert(limit * (others + 1) == limit * others + limit) by (nonlinear_arith);
    }
}

/// In an allow list whose domains share the limit of a config, no more requests are in flight than
/// the limit allows, all domains taken together. Where there are more domains than that, each may
/// still have one.
pub proof fn law_allow_list_limits_the_requests<S, F, E>(
    config: ConfigState,
    client: reqwest_middleware::ClientWithMiddleware,
    name: Seq<char>,
    list: AllowState<S, F, E>,
)
    requires
        list.well_formed(),
        config.allowed.contains_key(name),
        config.allowed.dom().finite(),
        list.allowed.dom() == config.allowed.dom(),
        list.shares(domain_config(config, name, client).max_requests),
    ensures
        flying_in(list.allowed, list.allowed.dom()) <= if config.request_limit()
            < config.allowed.dom().len() {
            config.allowed.dom().len() as int
        } else {
            config.request_limit() as int
        },
{
    broadcast use vstd::set_lib::group_set_properties;

    assert(config.allowed.dom().contains(name));
    assert(config.allowed.dom().len() > 0);
    law_limit_is_shared_out(config, name, client);
    let share = domain_config(config, name, client).max_requests;
    lemma_flying_is_limited(list, share, list.allowed.dom());
}

impl<S, F, E> AllowState<S, F, E> {
    /// Whether every domain keeps this depth, and no result is a response from deeper.
    pub open spec fn keeps_depth(self, max_depth: usize) -> bool {
        &&& all_within(self.results, max_depth)
        &&& forall|host: Seq<char>| #[trigger]
            self.allowed.contains_key(host) ==> self.allowed[host].max_depth == max_depth
    }
}

proof fn lemma_hear_keeps_depth<S, F, E>(
    list: AllowState<S, F, E>,
    left: nat,
    host: Seq<char>,
    busy: bool,
    signal: Signal<S, F, E>,
    restarted: Timer,
    max_depth: usize,
)
    requires
        list.attends(left, host),
        list.allowed[host].expects(signal),
        list.keeps_depth(max_depth),
    ensures
        list.hear(left, host, busy, signal, restarted).0.keeps_depth(max_depth),
        forall|share: usize| #[trigger]
            list.shares(share) ==> list.hear(left, host, busy, signal, restarted).0.shares(share),
{
    let visit = list.entering(AllowPhaseView::Visit { left, host, busy: false });
    assert(visit.allowed.contains_key(host));
    assert(list.allowed.contains_key(host));
    assert(list.allowed[host].well_formed());
    law_drained_domain_is_within_depth(list.allowed[host], signal, restarted);
    let drained = list.allowed[host].drain(signal, restarted);
    let (after, _) = list.hear(left, host, busy, signal, restarted);
    assert forall|i: int| 0 <= i < after.results.len() implies is_within(
        #[trigger] after.results[i],
        max_depth,
    ) by {
        if i < list.results.len() {
            assert(after.results[i] == list.results[i]);
        } else {
            assert(after.results[i] == drained.items[i - list.results.len()]);
        }
    }
    assert forall|other: Seq<char>| #[trigger]
        after.allowed.contains_key(other) implies after.allowed[other].max_depth == max_depth by {
        assert(list.allowed.contains_key(other));
    }
    assert forall|share: usize| #[trigger] list.shares(share) implies after.shares(share) by {
        assert forall|other: Seq<char>| #[trigger]
            after.allowed.contains_key(other) implies after.allowed[other].max_requests
            == share by {
            assert(list.allowed.contains_key(other));
        }
    }
}

proof fn lemma_visit_keeps_depth<S, F, E>(
    list: AllowState<S, F, E>,
    left: nat,
    busy: bool,
    restarted: Timer,
    max_depth: usize,
)
    requires
        list.well_formed(),
        list.phase is Idle,
        left <= list.domains.len(),
        list.keeps_depth(max_depth),
    ensures
        ({
            let (after, demand) = list.visit(left, busy, restarted);
            &&& after.keeps_depth(max_depth)
            &&& demand matches DemandView::Yield(Progress::Item(result)) ==> is_within(
                result,
                max_depth,
            )
            &&& forall|share: usize| #[trigger] list.shares(share) ==> after.shares(share)
        }),
    decreases left,
{
    if left > 0 {
        let last = left - 1;
        let host = list.domains[last];
        let rest = AllowState { domains: swap_removed(list.domains, last), ..list };
        lemma_taken_out(list, rest, last);
        assert(list.allowed.contains_key(list.domains[last]));
        assert(list.allowed[host].well_formed());
        lemma_hear_is_sound(rest, last as nat, host, busy, Signal::Poll, restarted);
        lemma_hear_keeps_depth(rest, last as nat, host, busy, Signal::Poll, restarted, max_depth);
        let (after, answer) = rest.hear(last as nat, host, busy, Signal::Poll, restarted);
        if let Ok(busy) = answer {
            lemma_visit_keeps_depth(after, last as nat, busy, restarted, max_depth);
        }
        assert forall|share: usize| #[trigger] list.shares(share) implies list.visit(
            left,
            busy,
            restarted,
        ).0.shares(share) by {
            assert(rest.shares(share));
            assert(after.shares(share));
        }
    } else if list.results.len() > 0 {
        lemma_deliver_keeps_depth(list, max_depth);
    }
}

proof fn lemma_deliver_keeps_depth<S, F, E>(list: AllowState<S, F, E>, max_depth: usize)
    requires
        list.results.len() > 0,
        list.keeps_depth(max_depth),
    ensures
        list.deliver().0.keeps_depth(max_depth),
        is_within(list.results[0], max_depth),
{
    let after = list.deliver().0;
    assert forall|i: int| 0 <= i < after.results.len() implies is_within(
        #[trigger] after.results[i],
        max_depth,
    ) by {
        assert(after.results[i] == list.results[i + 1]);
    }
}

/// An allow list whose domains keep a depth gives out no response from deeper, whatever it is told,
/// and its domains go on sharing the limit on concurrent requests.
pub proof fn law_allow_list_keeps_the_depth<S, F, E>(
    list: AllowState<S, F, E>,
    signal: Signal<S, F, E>,
    restarted: Timer,
    max_depth: usize,
)
    requires
        list.well_formed(),
        list.expects(signal),
        list.keeps_depth(max_depth),
    ensures
        list.step(signal, restarted).0.keeps_depth(max_depth),
        list.step(signal, restarted).1 matches DemandView::Yield(Progress::Item(result))
            ==> is_within(result, max_depth),
        forall|share: usize| #[trigger]
            list.shares(share) ==> list.step(signal, restarted).0.shares(share),
{
    match list.phase {
        AllowPhaseView::Idle => {
            if list.results.len() > 0 {
                lemma_deliver_keeps_depth(list, max_depth);
            } else {
                lemma_visit_keeps_depth(list, list.domains.len(), false, restarted, max_depth);
            }
        },
        AllowPhaseView::Visit { left, host, busy } => {
            lemma_visited_attends(list, left, host, busy);
            lemma_hear_is_sound(list, left, host, busy, signal, restarted);
            lemma_hear_keeps_depth(list, left, host, busy, signal, restarted, max_depth);
            let (after, answer) = list.hear(left, host, busy, signal, restarted);
            if let Ok(busy) = answer {
                lemma_visit_keeps_depth(after, left, busy, restarted, max_depth);
            }
        },
    }
}

impl<S, F, E> ListingState<S, F, E> {
    /// Whether the list keeps this depth, and holds no response from deeper.
    pub open spec fn keeps_depth(self, max_depth: usize) -> bool {
        match self {
            ListingState::AllowList(list) => list.keeps_depth(max_depth),
            ListingState::BlockList(list) => list.max_depth == max_depth,
        }
    }
}

/// A list that keeps a depth goes on keeping it, and gives out no response from deeper, whatever it
/// is told.
pub proof fn law_listing_keeps_the_depth<S, F, E>(
    list: ListingState<S, F, E>,
    signal: Signal<S, F, E>,
    restarted: Timer,
    max_depth: usize,
)
    requires
        list.well_formed(),
        list.expects(signal),
        list.keeps_depth(max_depth),
    ensures
        list.step(signal, restarted).0.keeps_depth(max_depth),
        list.step(signal, restarted).1 matches DemandView::Yield(Progress::Item(result))
            ==> is_within(result, max_depth),
{
    match list {
        ListingState::AllowList(list) => {
            law_allow_list_keeps_the_depth(list, signal, restarted, max_depth);
        },
        ListingState::BlockList(list) => {
            law_block_list_keeps_its_settings(list, signal, restarted);
        },
    }
}

/// A list that keeps a depth goes on keeping it when a request is put in, and takes none that lies
/// deeper.
pub proof fn law_listing_keeps_the_depth_on_requests<S, F, E>(
    list: ListingState<S, F, E>,
    request: QueuedRequest<S>,
    max_depth: usize,
)
    requires
        list.keeps_depth(max_depth),
    ensures
        list.add_request(request).0.keeps_depth(max_depth),
        request.depth > max_depth ==> list.add_request(request).1 is Err,
{
    if let (ListingState::AllowList(allow), Some(host)) = (list, request.request.host()) {
        if allow.allowed.contains_key(host) {
            let (after, _) = allow.add_request(request);
            assert forall|other: Seq<char>| #[trigger]
                after.allowed.contains_key(other) implies after.allowed[other].max_depth
                == max_depth by {
                assert(allow.allowed.contains_key(other));
            }
        }
    }
}

/// A crawler that follows a config has a list that keeps the depth of the config.
pub proof fn law_new_crawler_keeps_the_depth<O, S, F, E>(
    config: ConfigState,
    crawler: CrawlerState<O, S, F, E>,
)
    requires
        crawler.follows(config),
    ensures
        crawler.list.keeps_depth(config.depth_limit()),
{
    if let ListingState::AllowList(list) = crawler.list {
        assert forall|name: Seq<char>| #[trigger]
            list.allowed.contains_key(name) implies list.allowed[name].max_depth
            == config.depth_limit() by {
            assert(config.allowed.contains_key(name));
            assert(list.allowed[name].follows(domain_config(config, name, crawler.client)));
        }
    }
}

/// A list that keeps a depth gives out no response from deeper, also when every result at hand is
/// taken from it.
pub proof fn law_drained_listing_keeps_the_depth<S, F, E>(
    list: ListingState<S, F, E>,
    signal: Signal<S, F, E>,
    restarted: Timer,
    max_depth: usize,
)
    requires
        list.well_formed(),
        list.expects(signal),
        list.keeps_depth(max_depth),
    ensures
        list.drain(signal, restarted).list.keeps_depth(max_depth),
        all_within(list.drain(signal, restarted).items, max_depth),
    decreases
            2 * list.load() + if signal is Poll {
                0int
            } else {
                1int
            },
{
    lemma_poll_finds_idle(list, signal);
    law_listing_stays_well_formed(list, signal, restarted);
    law_listing_keeps_the_depth(list, signal, restarted, max_depth);
    lemma_listing_uses_up(list, signal, restarted);
    let (next, demand) = list.step(signal, restarted);
    if let DemandView::Yield(Progress::Item(item)) = demand {
        law_drained_listing_keeps_the_depth(next, Signal::Poll, restarted, max_depth);
        let rest = next.drain(Signal::Poll, restarted).items;
        let items = seq![item] + rest;
        assert forall|i: int| 0 <= i < items.len() implies is_within(
            #[trigger] items[i],
            max_depth,
        ) by {
            if i > 0 {
                assert(items[i] == rest[i - 1]);
            }
        }
    }
}

/// Whether no result is a response from deeper than allowed, but for those that a submitted job
/// brought.
pub open spec fn pages_within<O, S, E>(
    results: Seq<CrawlResult<O, S, E>>,
    jobs: Seq<CrawlResult<O, S, E>>,
    max_depth: usize,
) -> bool {
    forall|i: int|
        0 <= i < results.len() ==> ((#[trigger] results[i]) matches CrawlResult::Crawled(
            Ok(response),
        ) ==> response.depth <= max_depth || jobs.contains(results[i]))
}

proof fn lemma_pages_append<O, S, E>(
    results: Seq<CrawlResult<O, S, E>>,
    items: Seq<Result<Response<S>, Failure<S, E>>>,
    jobs: Seq<CrawlResult<O, S, E>>,
    max_depth: usize,
)
    requires
        pages_within(results, jobs, max_depth),
        all_within(items, max_depth),
    ensures
        pages_within(results + crawled::<O, S, E>(items), jobs, max_depth),
{
    let all = results + crawled::<O, S, E>(items);
    assert forall|i: int| 0 <= i < all.len() implies ((
    #[trigger] all[i]) matches CrawlResult::Crawled(Ok(response)) ==> response.depth <= max_depth
        || jobs.contains(all[i])) by {
        if i < results.len() {
            assert(all[i] == results[i]);
        } else {
            assert(is_within(items[i - results.len()], max_depth));
            assert(all[i] == CrawlResult::<O, S, E>::Crawled(items[i - results.len()]));
        }
    }
}

proof fn lemma_pages_from_list<O, S, F, E>(
    crawler: CrawlerState<O, S, F, E>,
    signal: Signal<S, F, E>,
    restarted: Timer,
    jobs: Seq<CrawlResult<O, S, E>>,
    max_depth: usize,
)
    requires
        crawler.list.well_formed(),
        crawler.list.expects(signal),
        crawler.list.keeps_depth(max_depth),
        pages_within(crawler.results, jobs, max_depth),
    ensures
        ({
            let (after, demand) = crawler.ask_list(signal, restarted);
            &&& after.list.keeps_depth(max_depth)
            &&& pages_within(given_out(demand) + after.results, jobs, max_depth)
        }),
{
    law_drained_listing_keeps_the_depth(crawler.list, signal, restarted, max_depth);
    let items = crawler.list.drain(signal, restarted).items;
    lemma_pages_append(crawler.results, items, jobs, max_depth);
    let (after, demand) = crawler.ask_list(signal, restarted);
    assert(given_out(demand) + after.results =~= crawler.results + crawled::<O, S, E>(items));
}

/// A crawler whose list keeps a depth, and whose results are responses from within it but for those
/// that submitted jobs brought, stays so, whatever it is told; and what it gives out is so too.
pub proof fn law_crawler_keeps_the_depth<O, S, F, E>(
    crawler: CrawlerState<O, S, F, E>,
    signal: CrawlerSignal<O, S, F, E>,
    restarted: Timer,
    jobs: Seq<CrawlResult<O, S, E>>,
    max_depth: usize,
)
    requires
        crawler.well_formed(),
        crawler.expects(signal),
        crawler.list.keeps_depth(max_depth),
        pages_within(crawler.results, jobs, max_depth),
    ensures
        ({
            let (after, demand) = crawler.step(signal, restarted);
            &&& after.list.keeps_depth(max_depth)
            &&& pages_within(
                given_out(demand) + after.results,
                jobs + job_results(crawler.phase, signal),
                max_depth,
            )
        }),
{
    let news = job_results(crawler.phase, signal);
    let all_jobs = jobs + news;
    let gained = CrawlerState { results: crawler.results + news, ..crawler };
    assert forall|i: int| 0 <= i < gained.results.len() implies ((
    #[trigger] gained.results[i]) matches CrawlResult::Crawled(Ok(response)) ==> response.depth
        <= max_depth || all_jobs.contains(gained.results[i])) by {
        if i < crawler.results.len() {
            assert(gained.results[i] == crawler.results[i]);
            if jobs.contains(crawler.results[i]) {
                let j = choose|j: int| 0 <= j < jobs.len() && jobs[j] == crawler.results[i];
                assert(all_jobs[j] == crawler.results[i]);
            }
        } else {
            let j = i - crawler.results.len();
            assert(all_jobs[jobs.len() + j] == gained.results[i]);
        }
    }
    let (after, demand) = crawler.step(signal, restarted);
    match (crawler.phase, signal) {
        (CrawlerPhaseView::Output(left), CrawlerSignal::Output(news)) => {
            let rest = match news {
                OutputNews::Pending(task) => CrawlerState {
                    outputs: gained.outputs.push(task),
                    ..gained
                },
                _ => gained,
            };
            lemma_pages_from_list(rest, Signal::Poll, restarted, all_jobs, max_depth);
            assert(gained.results =~= match news {
                OutputNews::Ready(Ok(Some(output))) => crawler.results.push(
                    CrawlResult::Finished(Ok(output)),
                ),
                OutputNews::Ready(Err(error)) => crawler.results.push(
                    CrawlResult::Finished(Err(Failure::Outside(error))),
                ),
                _ => crawler.results,
            });
            assert(given_out(demand) + after.results =~= gained.results || (after, demand)
                == rest.ask_list(Signal::Poll, restarted));
        },
        (CrawlerPhaseView::Crawl(left, depth), CrawlerSignal::Crawl(news)) => {
            let rest = match news {
                CrawlNews::Pending(task) => CrawlerState {
                    crawls: gained.crawls.push((depth, task)),
                    ..gained
                },
                _ => gained,
            };
            lemma_pages_from_list(rest, Signal::Poll, restarted, all_jobs, max_depth);
            assert(gained.results =~= match news {
                CrawlNews::Ready(Ok((reply, state))) => crawler.results.push(
                    CrawlResult::Crawled(Ok(injected_response(depth, reply, state))),
                ),
                CrawlNews::Ready(Err(error)) => crawler.results.push(
                    CrawlResult::Crawled(Err(Failure::Outside(error))),
                ),
                CrawlNews::Unread(url, cause, state) => crawler.results.push(
                    CrawlResult::Crawled(Err(Failure::Crawl(unread(url, cause, state)))),
                ),
                _ => crawler.results,
            });
            assert(given_out(demand) + after.results =~= gained.results || (after, demand)
                == rest.ask_list(Signal::Poll, restarted));
        },
        (CrawlerPhaseView::List, CrawlerSignal::List(signal)) => {
            assert(gained.results =~= crawler.results);
            lemma_pages_from_list(gained, signal, restarted, all_jobs, max_depth);
        },
        _ => {
            assert(gained.results =~= crawler.results);
            lemma_pages_from_list(gained, Signal::Poll, restarted, all_jobs, max_depth);
            assert(given_out(demand) + after.results =~= gained.results || (after, demand)
                == gained.ask_list(Signal::Poll, restarted));
        },
    }
}

} // verus!
