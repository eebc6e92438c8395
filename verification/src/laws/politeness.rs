//! The `robots.txt` is respected, and delays are kept.
use crate::allow_list::{lemma_taken_out, AllowPhaseView, AllowState};
use crate::allowed_domain::{
    lemma_prefix_is_short, lemma_step_uses_up, lets_pass, passing_prefix, queued_within,
    DomainState, PhaseView,
};
use crate::error::{CrawlError, Failure};
use crate::block_list::{BlockPhaseView, BlockState};
use crate::fetch::{
    fetched, in_flight, swap_removed, ticket_of, DemandView, FetchNews, FetchTask, Fetched,
    InFlight, Progress, RobotsNews, RobotsTaskView, Signal,
};
use crate::laws::invariants::{
    law_domain_stays_well_formed, lemma_hear_is_sound, lemma_visited_attends,
};
use crate::laws::limits::law_domain_keeps_its_settings;
use crate::requests::{NextRequest, QueuedRequest, RequestDelay};
use crate::robots::{robots_of, RobotsView};
use crate::robots_txt::robots_directives;
use crate::time::Timer;
use crate::web::robots_txt_url;
use vstd::multiset::Multiset;
use vstd::prelude::*;
use vstd::seq_lib::*;

verus! {

/// Data that allows everything permits every request, whatever its address and its agent.
pub proof fn law_allow_all_permits_everything(
    url: Seq<char>,
    headers: reqwest::header::HeaderMap,
)
    ensures
        RobotsView::allowing().permits(url, headers),
{
}

/// Data that disallows everything permits no request, whatever its address and its agent.
pub proof fn law_disallow_all_permits_nothing(
    url: Seq<char>,
    headers: reqwest::header::HeaderMap,
)
    ensures
        !RobotsView::disallowing().permits(url, headers),
{
}

/// A `robots.txt` without any directive permits every request.
pub proof fn law_empty_robots_permits_everything(
    text: Seq<char>,
    fractions: Seq<Option<u64>>,
    url: Seq<char>,
    headers: reqwest::header::HeaderMap,
)
    requires
        robots_directives(text).len() == 0,
    ensures
        robots_of(text, fractions).permits(url, headers),
{
}

/// Whether a request that a domain wants sent is one that the `robots.txt` does not disallow, as far
/// as one is known.
pub open spec fn sends_what_may_go<S, F, E>(
    after: DomainState<S, F>,
    demand: DemandView<S, F, E>,
) -> bool {
    demand matches DemandView::PollFetch(FetchTask::Send(client, inner)) ==> {
        &&& client == after.client
        &&& exists|request: QueuedRequest<S>| #[trigger]
            lets_pass(after.robots, request) && request.request.inner() == inner && after.phase
                == PhaseView::First(ticket_of(request))
    }
}

proof fn lemma_dispatch_sends<S, F, E>(domain: DomainState<S, F>, request: QueuedRequest<S>)
    ensures
        ({
            let (after, demand) = domain.dispatch::<E>(request);
            sends_what_may_go(after, demand)
        }),
{
    let (after, demand) = domain.dispatch::<E>(request);
    if lets_pass(domain.robots, request) {
        assert(lets_pass(after.robots, request));
    }
}

proof fn lemma_pull_sends<S, F, E>(domain: DomainState<S, F>)
    requires
        domain.entering(PhaseView::Idle).well_formed(),
    ensures
        ({
            let (after, demand) = domain.pull::<E>();
            &&& sends_what_may_go(after, demand)
            &&& domain.queue.delay is Some ==> !sends_page(demand)
        }),
{
    let (queue, next) = domain.queue.poll_next();
    if let NextRequest::Send(request) = next {
        lemma_dispatch_sends::<S, F, E>(DomainState { queue, ..domain }, request);
    }
}

proof fn lemma_flush_sends<S, F, E>(domain: DomainState<S, F>)
    requires
        domain.entering(PhaseView::Idle).well_formed(),
    ensures
        ({
            let (after, demand) = domain.flush::<E>();
            &&& sends_what_may_go(after, demand)
            &&& domain.queue.delay is Some ==> !sends_page(demand)
        }),
{
    match domain.buffer {
        None => {
            lemma_pull_sends::<S, F, E>(domain);
        },
        Some(buffer) => {
            lemma_prefix_is_short(domain.robots, buffer);
            if passing_prefix(domain.robots, buffer) == buffer.len() {
                let rest = DomainState {
                    queue: domain.queue.append(buffer),
                    buffer: None,
                    ..domain
                };
                assert(rest.entering(PhaseView::Idle).well_formed());
                lemma_pull_sends::<S, F, E>(rest);
            }
        },
    }
}

/// A domain has no request sent that the `robots.txt` disallows, as far as one is known. With a
/// delay it has a request sent only when the timer has run out.
pub proof fn law_domain_sends_what_may_go<S, F, E>(
    domain: DomainState<S, F>,
    signal: Signal<S, F, E>,
    restarted: Timer,
)
    requires
        domain.well_formed(),
        domain.expects(signal),
    ensures
        ({
            let (after, demand) = domain.step(signal, restarted);
            &&& sends_what_may_go(after, demand)
            &&& domain.queue.delay is Some && sends_page(demand) ==> is_elapsed(signal)
        }),
{
    match (domain.phase, signal) {
        (PhaseView::Robots, Signal::Robots(news)) => {
            if let RobotsNews::Ready(Ok(data)) = news {
                lemma_flush_sends::<S, F, E>(DomainState { robots: Some(data@), ..domain });
            }
        },
        (PhaseView::Timer, Signal::Timer(timer, elapsed)) => {
            let (queue, next) = domain.queue.resume(timer, elapsed, restarted);
            if let Some(request) = next {
                lemma_dispatch_sends::<S, F, E>(DomainState { queue, ..domain }, request);
            }
        },
        (PhaseView::First(ticket), Signal::Fetch(news)) => {
            if let Fetched::Waiting(flight) = fetched::<S, F, E>(
                ticket,
                news,
                domain.skip_non_successful_responses,
            ) {
                let joined = DomainState { in_flight: domain.in_flight.push(flight), ..domain };
                lemma_pull_sends::<S, F, E>(joined);
            }
        },
        (PhaseView::Advance(_, _), Signal::Fetch(_)) => {},
        _ => {
            lemma_flush_sends::<S, F, E>(domain);
        },
    }
}

/// Whether a demand has the request for a page sent.
pub open spec fn sends_page<S, F, E>(demand: DemandView<S, F, E>) -> bool {
    demand matches DemandView::PollFetch(FetchTask::Send(_, _))
}

/// Whether a signal says that a timer has run out.
pub open spec fn is_elapsed<S, F, E>(signal: Signal<S, F, E>) -> bool {
    signal matches Signal::Timer(_, elapsed) && elapsed
}

proof fn lemma_drain_sends<S, F, E>(
    domain: DomainState<S, F>,
    signal: Signal<S, F, E>,
    restarted: Timer,
)
    requires
        domain.well_formed(),
        domain.expects(signal),
    ensures
        ({
            let drained = domain.drain(signal, restarted);
            &&& sends_what_may_go(drained.domain, drained.demand)
            &&& drained.domain.queue.delay == domain.queue.delay
            &&& domain.queue.delay is Some && sends_page(drained.demand) ==> is_elapsed(signal)
        }),
    decreases
            2 * domain.waiting() + if signal is Poll {
                0int
            } else {
                1int
            },
{
    law_domain_stays_well_formed(domain, signal, restarted);
    law_domain_sends_what_may_go(domain, signal, restarted);
    law_domain_keeps_its_settings(domain, signal, restarted);
    lemma_step_uses_up(domain, signal, restarted);
    let (next, demand) = domain.step(signal, restarted);
    if demand matches DemandView::Yield(Progress::Item(_)) {
        lemma_drain_sends::<S, F, E>(next, Signal::Poll, restarted);
    }
}

/// Whether a request that an allow list wants sent is one that the domain that is being looked after
/// lets pass, and whether its delay is kept.
pub open spec fn list_sends_what_may_go<S, F, E>(
    after: AllowState<S, F, E>,
    demand: DemandView<S, F, E>,
    elapsed: bool,
) -> bool {
    sends_page(demand) ==> {
        &&& after.phase matches AllowPhaseView::Visit { host, .. }
        &&& sends_what_may_go(after.allowed[host], demand)
        &&& after.allowed[host].queue.delay is Some ==> elapsed
    }
}

proof fn lemma_visit_sends<S, F, E>(
    list: AllowState<S, F, E>,
    left: nat,
    busy: bool,
    restarted: Timer,
)
    requires
        list.well_formed(),
        list.phase is Idle,
        left <= list.domains.len(),
    ensures
        ({
            let (after, demand) = list.visit(left, busy, restarted);
            list_sends_what_may_go(after, demand, false)
        }),
    decreases left,
{
    if left > 0 {
        let last = left - 1;
        let host = list.domains[last];
        let rest = AllowState { domains: swap_removed(list.domains, last), ..list };
        lemma_taken_out(list, rest, last);
        assert(list.allowed.contains_key(list.domains[last]));
        assert(list.allowed[host].well_formed());
        lemma_hear_is_sound(rest, last as nat, host, busy, Signal::Poll, restarted);
        lemma_drain_sends::<S, F, E>(rest.allowed[host], Signal::Poll, restarted);
        let (after, answer) = rest.hear(last as nat, host, busy, Signal::Poll, restarted);
        if let Ok(busy) = answer {
            lemma_visit_sends(after, last as nat, busy, restarted);
        }
    }
}

/// An allow list has no request sent that the `robots.txt` of its domain disallows, as far as one
/// is known. Where a domain has a delay, the list has a request sent to it only when its timer has
/// run out.
pub proof fn law_allow_list_sends_what_may_go<S, F, E>(
    list: AllowState<S, F, E>,
    signal: Signal<S, F, E>,
    restarted: Timer,
)
    requires
        list.well_formed(),
        list.expects(signal),
    ensures
        ({
            let (after, demand) = list.step(signal, restarted);
            list_sends_what_may_go(after, demand, is_elapsed(signal))
        }),
{
    match list.phase {
        AllowPhaseView::Idle => {
            if list.results.len() == 0 {
                lemma_visit_sends(list, list.domains.len(), false, restarted);
            }
        },
        AllowPhaseView::Visit { left, host, busy } => {
            lemma_visited_attends(list, left, host, busy);
            assert(list.allowed.contains_key(host));
            assert(list.allowed[host].well_formed());
            lemma_hear_is_sound(list, left, host, busy, signal, restarted);
            lemma_drain_sends(list.allowed[host], signal, restarted);
            let (after, answer) = list.hear(left, host, busy, signal, restarted);
            if let Ok(busy) = answer {
                lemma_visit_sends(after, left, busy, restarted);
            }
        },
    }
}

/// When the timer of a domain has run out, the first waiting request leaves the queue, and the
/// timer starts anew with a delay that is due. When it has not, nothing leaves.
pub proof fn law_domain_keeps_the_delay<S, F, E>(
    domain: DomainState<S, F>,
    timer: Timer,
    elapsed: bool,
    restarted: Timer,
    delay: RequestDelay,
)
    requires
        domain.well_formed(),
        domain.phase is Timer,
        domain.queue.delay == Some(delay),
        domain.queue.queued.len() > 0,
        domain.may_restart(Signal::<S, F, E>::Timer(timer, elapsed), restarted),
    ensures
        ({
            let (after, _) = domain.step(Signal::<S, F, E>::Timer(timer, elapsed), restarted);
            if elapsed {
                &&& after.queue.queued == domain.queue.queued.drop_first()
                &&& after.queue.timer == Some(restarted)
                &&& delay.admits(restarted.set_to())
                &&& restarted.is_set()
            } else {
                &&& after.queue.queued == domain.queue.queued
                &&& after.queue.timer == Some(timer)
            }
        }),
{
}

impl<S, F> DomainState<S, F> {
    /// The domain when some requests are put in, one after the other, and what is said to each.
    pub open spec fn add_requests(self, requests: Seq<QueuedRequest<S>>) -> (
        Self,
        Seq<Result<(), CrawlError<S>>>,
    )
        decreases requests.len(),
    {
        if requests.len() == 0 {
            (self, Seq::empty())
        } else {
            let (domain, added) = self.add_requests(requests.drop_last());
            let (domain, last) = domain.add_request(requests.last());
            (domain, added.push(last))
        }
    }
}

/// While the `robots.txt` is to be respected and not there, all requests within the depth are taken
/// and held back in the order in which they were put in. None gets into the queue. The `robots.txt`
/// is asked for once, at the address that goes with the first of them.
pub proof fn law_requests_wait_for_the_robots<S, F>(
    domain: DomainState<S, F>,
    requests: Seq<QueuedRequest<S>>,
)
    requires
        domain.respect_robots_txt,
        domain.robots is None,
        domain.robots_task is None,
        requests.len() > 0,
        queued_within(requests, domain.max_depth),
    ensures
        ({
            let (after, added) = domain.add_requests(requests);
            &&& added == Seq::new(requests.len(), |i: int| Ok::<(), CrawlError<S>>(()))
            &&& after == DomainState {
                robots_task: Some(
                    RobotsTaskView::Fetch(
                        domain.client,
                        robots_txt_url(requests[0].request.url()),
                    ),
                ),
                buffer: Some(domain.buffered() + requests),
                ..domain
            }
        }),
    decreases requests.len(),
{
    let others = requests.drop_last();
    let (after, added) = domain.add_requests(requests);
    if others.len() > 0 {
        law_requests_wait_for_the_robots(domain, others);
    } else {
        assert(domain.add_requests(others) == (domain, Seq::<Result<(), CrawlError<S>>>::empty()));
        assert(requests.last() == requests[0]);
    }
    assert((domain.buffered() + others).push(requests.last()) =~= domain.buffered() + requests);
    assert(domain.buffered().push(requests.last()) =~= domain.buffered() + seq![requests.last()]);
    if others.len() == 0 {
        assert(requests =~= seq![requests.last()]);
    }
    assert(added =~= Seq::new(requests.len(), |i: int| Ok::<(), CrawlError<S>>(())));
}

/// A `robots.txt` that failed is reported with the name of its domain. The requests that were held
/// back for it are not lost: whoever wants the next result has them all queued, in their order.
pub proof fn law_failed_robots_releases_the_requests<S, F, E>(
    domain: DomainState<S, F>,
    failure: Failure<S, E>,
    restarted: Timer,
)
    requires
        domain.well_formed(),
        domain.phase is Robots,
        domain.robots is None,
        domain.robots_task is None,
    ensures
        ({
            let signal = Signal::<S, F, E>::Robots(RobotsNews::Ready(Err(failure)));
            let (after, demand) = domain.step(signal, restarted);
            let released = DomainState {
                queue: domain.queue.append(domain.buffered()),
                buffer: None,
                ..after
            };
            &&& after == domain.entering(PhaseView::Idle)
            &&& demand == DemandView::<S, F, E>::Yield(
                Progress::Item(
                    Err(Failure::Crawl(CrawlError::RobotsTxtError { host: domain.host })),
                ),
            )
            &&& after.step(Signal::<S, F, E>::Poll, restarted) == released.pull::<E>()
        }),
{
    let signal = Signal::<S, F, E>::Robots(RobotsNews::Ready(Err(failure)));
    let (after, _) = domain.step(signal, restarted);
    match domain.buffer {
        Some(buffer) => {
            lemma_prefix_is_short(after.robots, buffer);
            lemma_all_pass_unknown(buffer);
        },
        None => {
            assert(domain.queue.append(domain.buffered()) =~= domain.queue);
            assert(after == DomainState {
                queue: domain.queue.append(domain.buffered()),
                buffer: None,
                ..after
            });
        },
    }
}

proof fn lemma_all_pass_unknown<S>(requests: Seq<QueuedRequest<S>>)
    ensures
        passing_prefix(None, requests) == requests.len(),
    decreases requests.len(),
{
    if requests.len() > 0 {
        lemma_all_pass_unknown(requests.drop_first());
    }
}

/// While the `robots.txt` of a domain is on its way, whoever wants the next result is told to wait,
/// and nothing else happens in the domain.
pub proof fn law_robots_come_first<S, F, E>(
    domain: DomainState<S, F>,
    task: RobotsTaskView<F>,
    running: F,
    restarted: Timer,
)
    requires
        domain.phase is Idle,
        domain.robots_task == Some(task),
    ensures
        ({
            let (asking, demand) = domain.step(Signal::<S, F, E>::Poll, restarted);
            let (after, answer) = asking.step(
                Signal::<S, F, E>::Robots(RobotsNews::Pending(running)),
                restarted,
            );
            &&& demand == DemandView::<S, F, E>::PollRobots(task)
            &&& answer == DemandView::<S, F, E>::Yield(Progress::Pending)
            &&& after == DomainState {
                robots_task: Some(RobotsTaskView::Running(running)),
                ..domain
            }
        }),
{
    let (asking, _) = domain.step(Signal::<S, F, E>::Poll, restarted);
    let (after, _) = asking.step(
        Signal::<S, F, E>::Robots(RobotsNews::Pending(running)),
        restarted,
    );
    assert(after =~= DomainState {
        robots_task: Some(RobotsTaskView::Running(running)),
        ..domain
    });
}

/// Whether a block list may start a request by the `robots.txt` of its host.
pub open spec fn cleared<S, F>(list: BlockState<S, F>, request: QueuedRequest<S>) -> bool {
    list.respect_robots_txt ==> {
        &&& request.request.host() matches Some(host)
        &&& list.robots_map.contains_key(host)
        &&& list.robots_map[host].permits(request.request.url(), request.request.headers())
    }
}

/// Whether a block list may start all of these requests by the `robots.txt` of their hosts.
pub open spec fn all_cleared<S, F>(list: BlockState<S, F>, requests: Seq<QueuedRequest<S>>) -> bool {
    forall|i: int| 0 <= i < requests.len() ==> cleared(list, #[trigger] requests[i])
}

/// These requests as a block list starts them.
pub open spec fn launches<S, F>(
    list: BlockState<S, F>,
    requests: Seq<QueuedRequest<S>>,
) -> Multiset<InFlight<S, F>> {
    requests.map_values(
        |request: QueuedRequest<S>| in_flight::<S, F>(request, list.client),
    ).to_multiset()
}

/// The requests in flight, the one that is handed out to be looked after included.
pub open spec fn flights<S, F, E>(
    list: BlockState<S, F>,
    demand: DemandView<S, F, E>,
) -> Multiset<InFlight<S, F>> {
    match (list.phase, demand) {
        (BlockPhaseView::Advance(_, ticket), DemandView::PollFetch(task)) => {
            list.in_flight.to_multiset().insert(InFlight { ticket, task })
        },
        _ => list.in_flight.to_multiset(),
    }
}

/// Whether the requests in flight are those of `list`, and these ones, each of which may go by the
/// `robots.txt` of its host.
pub open spec fn starts<S, F, E>(
    list: BlockState<S, F>,
    started: Seq<QueuedRequest<S>>,
    after: BlockState<S, F>,
    demand: DemandView<S, F, E>,
) -> bool {
    &&& all_cleared(after, started)
    &&& flights(after, demand) == list.in_flight.to_multiset().add(launches(list, started))
    &&& after.robots_map == list.robots_map
    &&& after.respect_robots_txt == list.respect_robots_txt
    &&& after.client == list.client
}

proof fn lemma_launches_push<S, F>(
    list: BlockState<S, F>,
    requests: Seq<QueuedRequest<S>>,
    request: QueuedRequest<S>,
)
    ensures
        launches(list, seq![request] + requests) == launches(list, requests).insert(
            in_flight::<S, F>(request, list.client),
        ),
{
    broadcast use group_to_multiset_ensures;

    let launch = |request: QueuedRequest<S>| in_flight::<S, F>(request, list.client);
    let first = seq![request];
    assert((first + requests).map_values(launch) =~= first.map_values(launch)
        + requests.map_values(launch));
    lemma_multiset_commutative(first.map_values(launch), requests.map_values(launch));
    assert(first.map_values(launch) =~= Seq::empty().push(launch(request)));
    assert(Seq::<InFlight<S, F>>::empty().to_multiset() =~= Multiset::empty());
    assert(first.map_values(launch).to_multiset() =~= Multiset::empty().insert(launch(request)));
    assert(launches(list, seq![request] + requests) =~= launches(list, requests).insert(
        launch(request),
    ));
}

proof fn lemma_launches_none<S, F>(list: BlockState<S, F>)
    ensures
        launches(list, Seq::empty()) == Multiset::<InFlight<S, F>>::empty(),
{
    broadcast use group_to_multiset_ensures;

    let launch = |request: QueuedRequest<S>| in_flight::<S, F>(request, list.client);
    assert(Seq::<QueuedRequest<S>>::empty().map_values(launch) =~= Seq::empty());
    assert(Seq::<InFlight<S, F>>::empty().to_multiset() =~= Multiset::empty());
}

proof fn lemma_advance_starts_nothing<S, F, E>(list: BlockState<S, F>, left: nat)
    requires
        left <= list.in_flight.len(),
    ensures
        ({
            let (after, demand) = list.advance::<E>(left);
            starts(list, Seq::empty(), after, demand)
        }),
{
    broadcast use group_to_multiset_ensures;

    lemma_launches_none(list);
    let (after, demand) = list.advance::<E>(left);
    if left > 0 {
        let flying = list.in_flight;
        let i = left - 1;
        let changed = flying.update(i, flying.last());
        assert(swap_removed(flying, i) =~= changed.remove(changed.len() - 1));
        assert(flying.to_multiset().contains(flying[i]));
        assert(changed.to_multiset().contains(changed[changed.len() - 1]));
        assert(flights(after, demand) =~= flying.to_multiset());
    }
    assert(flights(after, demand) =~= list.in_flight.to_multiset().add(
        launches(list, Seq::empty()),
    ));
}

proof fn lemma_asking_starts_nothing<S, F, E>(list: BlockState<S, F>)
    ensures
        forall|found: nat, came: bool|
            {
                let (after, demand) = #[trigger] list.hand_out::<E>(found, came);
                starts(list, Seq::empty(), after, demand)
            },
{
    lemma_launches_none(list);
    assert(list.in_flight.to_multiset().add(launches(list, Seq::empty()))
        =~= list.in_flight.to_multiset());
}

proof fn lemma_pull_starts<S, F, E>(list: BlockState<S, F>, left: nat) -> (started: Seq<
    QueuedRequest<S>,
>)
    ensures
        ({
            let (after, demand) = list.pull::<E>(left);
            &&& starts(list, started, after, demand)
            &&& list.queue.delay is Some ==> started.len() == 0
        }),
    decreases left, 0nat,
{
    if left == 0 || !list.has_room() {
        lemma_advance_starts_nothing::<S, F, E>(list, list.in_flight.len());
        lemma_asking_starts_nothing::<S, F, E>(list);
        Seq::empty()
    } else {
        let (queue, next) = list.queue.poll_next();
        let rest = BlockState { queue, ..list };
        match next {
            NextRequest::Empty => lemma_pull_starts::<S, F, E>(rest, (left - 1) as nat),
            NextRequest::Wait(_) => {
                lemma_launches_none(list);
                assert(list.in_flight.to_multiset().add(launches(list, Seq::empty()))
                    =~= list.in_flight.to_multiset());
                Seq::empty()
            },
            NextRequest::Send(request) => lemma_dispatch_starts::<S, F, E>(
                rest,
                request,
                (left - 1) as nat,
            ),
        }
    }
}

proof fn lemma_dispatch_starts<S, F, E>(
    list: BlockState<S, F>,
    request: QueuedRequest<S>,
    left: nat,
) -> (started: Seq<QueuedRequest<S>>)
    ensures
        ({
            let (after, demand) = list.dispatch::<E>(request, left);
            &&& starts(list, started, after, demand)
            &&& list.queue.delay is Some ==> started.len() <= 1
        }),
    decreases left, 1nat,
{
    broadcast use group_to_multiset_ensures;

    let (rest, refused) = list.take_up(request);
    lemma_launches_none(list);
    assert(list.in_flight.to_multiset().add(launches(list, Seq::empty()))
        =~= list.in_flight.to_multiset());
    match refused {
        None => {
            let others = lemma_pull_starts::<S, F, E>(rest, left);
            if rest.in_flight.len() > list.in_flight.len() {
                let (after, demand) = list.dispatch::<E>(request, left);
                let started = seq![request] + others;
                lemma_launches_push(list, others, request);
                assert(launches(rest, others) == launches(list, others));
                assert(cleared(after, request));
                assert forall|i: int| 0 <= i < started.len() implies cleared(
                    after,
                    #[trigger] started[i],
                ) by {
                    if i > 0 {
                        assert(started[i] == others[i - 1]);
                    }
                }
                assert(rest.in_flight.to_multiset().add(launches(rest, others))
                    =~= list.in_flight.to_multiset().add(launches(list, started)));
                started
            } else {
                assert(launches(rest, others) == launches(list, others));
                others
            }
        },
        Some(_) => Seq::empty(),
    }
}

/// A block list starts no request that the `robots.txt` of its host disallows, and none while that
/// is not there, if it is to be respected. With a delay it starts a request only when the timer has
/// run out, and then only one.
pub proof fn law_block_list_starts_what_may_go<S, F, E>(
    list: BlockState<S, F>,
    signal: Signal<S, F, E>,
    restarted: Timer,
)
    requires
        list.well_formed(),
        list.expects(signal),
        signal !is Fetch,
    ensures
        ({
            let (after, demand) = list.step(signal, restarted);
            exists|started: Seq<QueuedRequest<S>>|
                {
                    &&& #[trigger] all_cleared(after, started)
                    &&& flights(after, demand) == list.in_flight.to_multiset().add(
                        launches(list, started),
                    )
                    &&& list.queue.delay is Some ==> started.len() <= if is_elapsed(signal) {
                        1nat
                    } else {
                        0nat
                    }
                }
        }),
{
    let (after, demand) = list.step(signal, restarted);
    let none = Seq::<QueuedRequest<S>>::empty();
    lemma_launches_none(list);
    assert(list.in_flight.to_multiset().add(launches(list, none)) =~= list.in_flight.to_multiset());
    assert(all_cleared(after, none));
    match (list.phase, signal) {
        (BlockPhaseView::Robots(_, host), Signal::Robots(news))
        | (BlockPhaseView::Asked(_, host, _), Signal::Robots(news)) => {
            let rest = match news {
                RobotsNews::Pending(task) => list.awaiting(host, task),
                RobotsNews::Ready(Ok(data)) => list.knowing(host, data@),
                RobotsNews::Ready(Err(_)) => list,
            };
            let started = lemma_pull_starts::<S, F, E>(rest, rest.queue.queued.len());
            assert(launches(rest, started) == launches(list, started));
            lemma_advance_starts_nothing::<S, F, E>(rest, rest.in_flight.len());
            lemma_asking_starts_nothing::<S, F, E>(rest);
            assert(launches(rest, none) == launches(list, none));
        },
        (BlockPhaseView::Timer(left), Signal::Timer(timer, elapsed)) => {
            let (queue, next) = list.queue.resume(timer, elapsed, restarted);
            let rest = BlockState { queue, ..list };
            match next {
                None => {
                    let started = lemma_pull_starts::<S, F, E>(rest, left);
                    assert(launches(rest, started) == launches(list, started));
                },
                Some(request) => {
                    let started = lemma_dispatch_starts::<S, F, E>(rest, request, left);
                    assert(launches(rest, started) == launches(list, started));
                },
            }
        },
        _ => {
            let started = lemma_pull_starts::<S, F, E>(list, list.queue.queued.len());
        },
    }
}

/// News of a request starts no other: the block list looks after those that are in flight.
pub proof fn law_block_list_starts_nothing_on_news<S, F, E>(
    list: BlockState<S, F>,
    news: FetchNews<F>,
    restarted: Timer,
)
    requires
        list.well_formed(),
        list.expects(Signal::<S, F, E>::Fetch(news)),
    ensures
        ({
            let (after, demand) = list.step(Signal::<S, F, E>::Fetch(news), restarted);
            &&& after.queue == list.queue
            &&& after.flying() <= list.flying()
        }),
{
}

} // verus!
