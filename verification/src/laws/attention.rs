//! Nothing is left lying: what waits is sent, and what is on its way is looked after.
use crate::allow_list::{AllowPhaseView, AllowState};
use crate::allowed_domain::{DomainState, PhaseView};
use crate::block_list::{last_unsent, BlockPhaseView, BlockState};
use crate::crawler::{
    CrawlNews, CrawlResult, CrawlerDemandView, CrawlerPhaseView, CrawlerProgress, CrawlerSignal,
    CrawlerState, OutputNews,
};
use crate::fetch::{
    swap_removed, DemandView, FetchNews, FetchTask, InFlight, Progress, RobotsNews,
    RobotsTaskView, Signal, Ticket,
};
use crate::requests::{NextRequest, QueuedRequest, RequestDelay};
use crate::robots::RobotsData;
use crate::time::Timer;
use vstd::prelude::*;

verus! {

/// Whether a request may go by the `robots.txt` of a domain, as far as that is known.
pub open spec fn may_go<S, F>(domain: DomainState<S, F>, request: QueuedRequest<S>) -> bool {
    domain.robots matches Some(data) ==> data.permits(
        request.request.url(),
        request.request.headers(),
    )
}

/// Whether a request has just been sent by a client, with what is kept of it out.
pub open spec fn has_sent<S, F, E>(
    after: DomainState<S, F>,
    demand: DemandView<S, F, E>,
    request: QueuedRequest<S>,
) -> bool {
    &&& demand == DemandView::<S, F, E>::PollFetch(
        FetchTask::Send(after.client, request.request.inner()),
    )
    &&& after.phase == PhaseView::First(
        Ticket {
            request_url: request.request.target(),
            state: request.state,
            depth: request.depth,
        },
    )
}

/// A domain that has room and keeps no delay has the first waiting request sent as soon as the
/// next result is wanted, if it may go; the others keep their places. With a delay it has the
/// timer looked after first, and the requests wait.
pub proof fn law_domain_sends_the_first<S, F, E>(
    domain: DomainState<S, F>,
    restarted: Timer,
    timer: Timer,
)
    requires
        domain.phase is Idle,
        domain.robots_task is None,
        domain.buffer is None,
        domain.in_flight.len() == 0 || domain.in_flight.len() < domain.max_requests,
        domain.queue.queued.len() > 0,
        domain.queue.delay is Some ==> domain.queue.timer == Some(timer),
    ensures
        ({
            let (after, demand) = domain.step::<E>(Signal::Poll, restarted);
            let first = domain.queue.queued[0];
            &&& after.in_flight == domain.in_flight
            &&& domain.queue.delay is None ==> after.queue.queued
                == domain.queue.queued.drop_first()
            &&& domain.queue.delay is None && may_go(domain, first) ==> has_sent(
                after,
                demand,
                first,
            )
            &&& domain.queue.delay is Some ==> {
                &&& demand == DemandView::<S, F, E>::PollTimer(timer)
                &&& after.phase is Timer
                &&& after.queue.queued == domain.queue.queued
            }
        }),
{
}

/// When the timer of a domain has run out, the first waiting request is sent, if it may go, and the
/// timer runs on anew. When it has not, all requests wait on behind the same timer.
pub proof fn law_domain_sends_by_the_timer<S, F, E>(
    domain: DomainState<S, F>,
    timer: Timer,
    restarted: Timer,
)
    requires
        domain.phase is Timer,
        domain.queue.delay is Some,
        domain.queue.queued.len() > 0,
    ensures
        ({
            let (after, demand) = domain.step::<E>(Signal::Timer(timer, true), restarted);
            let first = domain.queue.queued[0];
            &&& after.queue.queued == domain.queue.queued.drop_first()
            &&& after.queue.timer == Some(restarted)
            &&& may_go(domain, first) ==> has_sent(after, demand, first)
        }),
        ({
            let (after, demand) = domain.step::<E>(Signal::Timer(timer, false), restarted);
            &&& after.queue.queued == domain.queue.queued
            &&& after.queue.timer == Some(timer)
            &&& domain.in_flight.len() == 0 ==> demand == DemandView::<S, F, E>::Yield(
                Progress::Pending,
            )
            &&& domain.in_flight.len() > 0 ==> demand == DemandView::<S, F, E>::PollFetch(
                domain.in_flight.last().task,
            )
        }),
{
}

/// The timer of a domain starts anew with a delay that is due: the delay itself where it is fixed,
/// and otherwise one within its bounds.
pub proof fn law_timer_is_set_to_the_delay<S, F, E>(
    domain: DomainState<S, F>,
    timer: Timer,
    restarted: Timer,
)
    requires
        domain.may_restart::<E>(Signal::Timer(timer, true), restarted),
    ensures
        restarts_duly(domain.queue.delay, restarted),
{
}

/// The timer of a block list starts anew with a delay that is due.
pub proof fn law_block_timer_is_set_to_the_delay<S, F, E>(
    list: BlockState<S, F>,
    timer: Timer,
    restarted: Timer,
)
    requires
        list.may_restart::<E>(Signal::Timer(timer, true), restarted),
    ensures
        restarts_duly(list.queue.delay, restarted),
{
}

/// Whether a timer was set to a delay that is due.
pub open spec fn restarts_duly(
    delay: Option<RequestDelay>,
    restarted: Timer,
) -> bool {
    match delay {
        None => true,
        Some(RequestDelay::Fixed(span)) => {
            &&& restarted.set_to() == span
            &&& restarted.is_set()
        },
        Some(RequestDelay::Random { min, max }) => {
            &&& min.total_nanos() <= restarted.set_to().total_nanos() <= max.total_nanos()
            &&& restarted.is_set()
        },
    }
}

/// A domain without anything waiting, or without room for more, looks after its requests in
/// flight, the last one first. One that is not done stays in flight, as it is under way, and the
/// one before it is next, until all have been looked after; then there is nothing yet.
pub proof fn law_domain_looks_after_every_request<S, F, E>(
    domain: DomainState<S, F>,
    left: nat,
    ticket: Ticket<S>,
    task: F,
    restarted: Timer,
)
    requires
        left <= domain.in_flight.len(),
    ensures
        domain.phase is Idle && domain.robots_task is None && domain.buffer is None && (
        domain.queue.queued.len() == 0 || domain.in_flight.len() >= domain.max_requests)
            && domain.in_flight.len() > 0 ==> ({
            let (after, demand) = domain.step::<E>(Signal::Poll, restarted);
            let last = domain.in_flight.last();
            &&& demand == DemandView::<S, F, E>::PollFetch(last.task)
            &&& after.phase == PhaseView::Advance((domain.in_flight.len() - 1) as nat, last.ticket)
            &&& after.in_flight == domain.in_flight.drop_last()
        }),
        domain.phase == PhaseView::Advance(left, ticket) ==> ({
            let (after, demand) = domain.step::<E>(Signal::Fetch(FetchNews::Pending(task)), restarted);
            let kept = domain.in_flight.push(InFlight { ticket, task: FetchTask::Running(task) });
            if left > 0 {
                &&& demand == DemandView::<S, F, E>::PollFetch(domain.in_flight[left - 1].task)
                &&& after.phase == PhaseView::Advance(
                    (left - 1) as nat,
                    domain.in_flight[left - 1].ticket,
                )
                &&& after.in_flight == kept.update(left - 1, kept.last()).drop_last()
            } else {
                &&& demand == DemandView::<S, F, E>::Yield(Progress::Pending)
                &&& after.phase is Idle
                &&& after.in_flight == kept
            }
        }),
        domain.phase == PhaseView::First(ticket) ==> ({
            let (after, demand) = domain.step::<E>(Signal::Fetch(FetchNews::Pending(task)), restarted);
            let flight = InFlight { ticket, task: FetchTask::Running(task) };
            ||| after.in_flight.contains(flight)
            ||| (demand == DemandView::<S, F, E>::PollFetch(flight.task) && after.phase
                == PhaseView::Advance(domain.in_flight.len(), ticket))
        }),
{
    if domain.in_flight.len() > 0 {
        let last = domain.in_flight.len() - 1;
        assert(swap_removed(domain.in_flight, last) =~= domain.in_flight.drop_last());
    }
    let flight = InFlight { ticket, task: FetchTask::Running(task) };
    let kept = domain.in_flight.push(flight);
    if left > 0 {
        assert(swap_removed(kept, left - 1) =~= kept.update(left - 1, kept.last()).drop_last());
    }
    assert(kept[domain.in_flight.len() as int] == flight);
    assert(kept.contains(flight));
}

/// Whether a request in flight stays so, or is being looked after.
pub open spec fn keeps_flight<S, F, E>(
    after: BlockState<S, F>,
    demand: DemandView<S, F, E>,
    flight: InFlight<S, F>,
) -> bool {
    ||| after.in_flight.contains(flight)
    ||| (demand == DemandView::<S, F, E>::PollFetch(flight.task) && (after.phase
        matches BlockPhaseView::Advance(_, ticket) && ticket == flight.ticket))
}

proof fn lemma_advance_keeps_flight<S, F, E>(
    list: BlockState<S, F>,
    left: nat,
    flight: InFlight<S, F>,
)
    requires
        left <= list.in_flight.len(),
        list.in_flight.contains(flight),
    ensures
        ({
            let (after, demand) = list.advance::<E>(left);
            keeps_flight(after, demand, flight)
        }),
{
    if left > 0 {
        let (after, demand) = list.advance::<E>(left);
        let i = choose|i: int| 0 <= i < list.in_flight.len() && list.in_flight[i] == flight;
        let last = list.in_flight.len() - 1;
        if i != left - 1 {
            if i == last {
                assert(after.in_flight[left - 1] == flight);
            } else {
                assert(after.in_flight[i] == flight);
            }
        }
    }
}

proof fn lemma_pull_keeps_flight<S, F, E>(
    list: BlockState<S, F>,
    left: nat,
    flight: InFlight<S, F>,
)
    requires
        list.in_flight.contains(flight),
    ensures
        ({
            let (after, demand) = list.pull::<E>(left);
            keeps_flight(after, demand, flight)
        }),
    decreases left,
{
    if left == 0 || !list.has_room() {
        lemma_advance_keeps_flight::<S, F, E>(list, list.in_flight.len(), flight);
    } else {
        let (queue, next) = list.queue.poll_next();
        let rest = BlockState { queue, ..list };
        match next {
            NextRequest::Empty => {
                lemma_pull_keeps_flight::<S, F, E>(rest, (left - 1) as nat, flight);
            },
            NextRequest::Wait(_) => {},
            NextRequest::Send(request) => {
                let count = (left - 1) as nat;
                assert(list.pull::<E>(left) == rest.dispatch::<E>(request, count));
                let (taken, refused) = rest.take_up(request);
                let i = choose|i: int| 0 <= i < list.in_flight.len() && list.in_flight[i] == flight;
                assert(taken.in_flight[i] == flight);
                if refused is None {
                    lemma_pull_keeps_flight::<S, F, E>(taken, (left - 1) as nat, flight);
                }
            },
        }
    }
}

/// Whether a request may go by what a block list knows: the `robots.txt` of its host is not
/// respected, or it is there and permits the request.
pub open spec fn may_be_sent<S, F>(list: BlockState<S, F>, request: QueuedRequest<S>) -> bool {
    list.respect_robots_txt ==> (request.request.host_name() matches Some(host)
        && list.robots_map.contains_key(host@) && list.robots_map[host@].permits(
        request.request.url(),
        request.request.headers(),
    ))
}

/// A request that is sent by a client, with what is kept of it.
pub open spec fn sent_by<S, F>(
    request: QueuedRequest<S>,
    client: reqwest_middleware::ClientWithMiddleware,
) -> InFlight<S, F> {
    InFlight {
        ticket: Ticket {
            request_url: request.request.target(),
            state: request.state,
            depth: request.depth,
        },
        task: FetchTask::Send(client, request.request.inner()),
    }
}

/// A block list that has room and keeps no delay starts the first waiting request as soon as the
/// next result is wanted, if it may go. With a delay it has the timer looked after first, and the
/// requests wait.
pub proof fn law_block_list_starts_the_first<S, F, E>(
    list: BlockState<S, F>,
    restarted: Timer,
    timer: Timer,
)
    requires
        list.phase is Idle,
        list.robots_tasks.len() == 0,
        list.in_flight.len() == 0 || list.in_flight.len() < list.max_requests,
        list.queue.queued.len() > 0,
        list.queue.delay is Some ==> list.queue.timer == Some(timer),
    ensures
        ({
            let (after, demand) = list.step::<E>(Signal::Poll, restarted);
            let first = list.queue.queued[0];
            &&& list.queue.delay is None && may_be_sent(list, first) ==> keeps_flight(
                after,
                demand,
                sent_by(first, list.client),
            )
            &&& list.queue.delay is Some ==> {
                &&& demand == DemandView::<S, F, E>::PollTimer(timer)
                &&& after.phase is Timer
                &&& after.queue.queued == list.queue.queued
                &&& after.in_flight == list.in_flight
            }
        }),
{
    let left = list.queue.queued.len();
    let first = list.queue.queued[0];
    let (queue, next) = list.queue.poll_next();
    let rest = BlockState { queue, ..list };
    if list.queue.delay is None && may_be_sent(list, first) {
        let (taken, _) = rest.take_up(first);
        let flight = sent_by::<S, F>(first, list.client);
        assert(taken.in_flight[list.in_flight.len() as int] == flight);
        lemma_pull_keeps_flight::<S, F, E>(taken, (left - 1) as nat, flight);
        assert(list.pull::<E>(left) == rest.dispatch::<E>(first, (left - 1) as nat));
    }
}

/// When the timer of a block list has run out, the first waiting request is started, if it may go.
/// When it has not, none is lost, and the timer is kept.
pub proof fn law_block_list_starts_by_the_timer<S, F, E>(
    list: BlockState<S, F>,
    left: nat,
    timer: Timer,
    restarted: Timer,
)
    requires
        list.phase == BlockPhaseView::<S>::Timer(left),
        list.queue.delay is Some,
        list.queue.queued.len() > 0,
    ensures
        may_be_sent(list, list.queue.queued[0]) ==> ({
            let (after, demand) = list.step::<E>(Signal::Timer(timer, true), restarted);
            keeps_flight(after, demand, sent_by(list.queue.queued[0], list.client))
        }),
        left == 0 ==> ({
            let (after, demand) = list.step::<E>(Signal::Timer(timer, false), restarted);
            &&& after.queue.queued == list.queue.queued
            &&& after.queue.timer == Some(timer)
        }),
{
    let first = list.queue.queued[0];
    let (queue, _) = list.queue.resume(timer, true, restarted);
    let rest = BlockState { queue, ..list };
    if may_be_sent(list, first) {
        let (taken, _) = rest.take_up(first);
        let flight = sent_by::<S, F>(first, list.client);
        assert(taken.in_flight[list.in_flight.len() as int] == flight);
        lemma_pull_keeps_flight::<S, F, E>(taken, left, flight);
    }
}

/// A block list without anything waiting, or without room for more, looks after its requests in
/// flight, the last one first. One that is not done stays in flight, as it is under way, and the
/// one before it is next, until all have been looked after; then there is nothing yet.
pub proof fn law_block_list_looks_after_every_request<S, F, E>(
    list: BlockState<S, F>,
    left: nat,
    ticket: Ticket<S>,
    task: F,
    restarted: Timer,
)
    requires
        left <= list.in_flight.len(),
    ensures
        list.phase is Idle && list.robots_tasks.len() == 0 && (list.queue.queued.len() == 0
            || list.in_flight.len() >= list.max_requests) && list.in_flight.len() > 0 ==> ({
            let (after, demand) = list.step::<E>(Signal::Poll, restarted);
            let last = list.in_flight.last();
            &&& demand == DemandView::<S, F, E>::PollFetch(last.task)
            &&& after.phase == BlockPhaseView::Advance(
                (list.in_flight.len() - 1) as nat,
                last.ticket,
            )
            &&& after.in_flight == list.in_flight.drop_last()
        }),
        list.phase == BlockPhaseView::Advance(left, ticket) ==> ({
            let (after, demand) = list.step::<E>(Signal::Fetch(FetchNews::Pending(task)), restarted);
            let kept = list.in_flight.push(InFlight { ticket, task: FetchTask::Running(task) });
            if left > 0 {
                &&& demand == DemandView::<S, F, E>::PollFetch(list.in_flight[left - 1].task)
                &&& after.phase == BlockPhaseView::Advance(
                    (left - 1) as nat,
                    list.in_flight[left - 1].ticket,
                )
                &&& after.in_flight == kept.update(left - 1, kept.last()).drop_last()
            } else {
                &&& demand == DemandView::<S, F, E>::Yield(Progress::Pending)
                &&& after.phase is Idle
                &&& after.in_flight == kept
            }
        }),
{
    if list.in_flight.len() > 0 {
        let last = list.in_flight.len() - 1;
        assert(swap_removed(list.in_flight, last) =~= list.in_flight.drop_last());
    }
    let kept = list.in_flight.push(InFlight { ticket, task: FetchTask::Running(task) });
    if left > 0 {
        assert(swap_removed(kept, left - 1) =~= kept.update(left - 1, kept.last()).drop_last());
    }
}

/// A block list looks after every request for a `robots.txt` first, the last one first. One that is
/// not done stays under way for its host, and the one before it is next.
pub proof fn law_block_list_looks_after_every_robots<S, F, E>(
    list: BlockState<S, F>,
    left: nat,
    host: String,
    task: F,
    restarted: Timer,
)
    requires
        0 < left <= list.robots_tasks.len(),
    ensures
        list.phase is Idle ==> ({
            let (after, demand) = list.step::<E>(Signal::Poll, restarted);
            let (host, task) = list.robots_tasks.last();
            &&& demand == DemandView::<S, F, E>::PollRobots(task)
            &&& after.phase == BlockPhaseView::<S>::Robots(
                (list.robots_tasks.len() - 1) as nat,
                host,
            )
            &&& after.robots_tasks == list.robots_tasks.drop_last()
        }),
        list.phase == BlockPhaseView::<S>::Robots(left, host) ==> ({
            let news = Signal::Robots(RobotsNews::Pending(task));
            let (after, demand) = list.step::<E>(news, restarted);
            let (next, asked) = list.robots_tasks[left - 1];
            let kept = list.robots_tasks.push((host, RobotsTaskView::Running(task)));
            &&& demand == DemandView::<S, F, E>::PollRobots(asked)
            &&& after.phase == BlockPhaseView::<S>::Robots((left - 1) as nat, next)
            &&& after.robots_tasks == kept.update(left - 1, kept.last()).drop_last()
        }),
{
    let last = list.robots_tasks.len() - 1;
    assert(swap_removed(list.robots_tasks, last) =~= list.robots_tasks.drop_last());
    let kept = list.robots_tasks.push((host, RobotsTaskView::Running(task)));
    assert(swap_removed(kept, left - 1) =~= kept.update(left - 1, kept.last()).drop_last());
}

/// A domain sends as many requests as it has room for: while one that was just sent is not done,
/// the next waiting one is sent too, if it may go; with a delay it has the timer looked after.
pub proof fn law_domain_fills_its_room<S, F, E>(
    domain: DomainState<S, F>,
    ticket: Ticket<S>,
    task: F,
    timer: Timer,
    restarted: Timer,
)
    requires
        domain.phase == PhaseView::First(ticket),
        domain.in_flight.len() + 1 < domain.max_requests,
        domain.queue.queued.len() > 0,
        domain.queue.delay is Some ==> domain.queue.timer == Some(timer),
    ensures
        ({
            let (after, demand) = domain.step::<E>(Signal::Fetch(FetchNews::Pending(task)), restarted);
            let first = domain.queue.queued[0];
            &&& after.in_flight == domain.in_flight.push(
                InFlight { ticket, task: FetchTask::Running(task) },
            )
            &&& domain.queue.delay is None && may_go(domain, first) ==> has_sent(
                after,
                demand,
                first,
            )
            &&& domain.queue.delay is Some ==> demand == DemandView::<S, F, E>::PollTimer(timer)
        }),
{
}

proof fn lemma_pull_fills<S, F, E>(list: BlockState<S, F>, left: nat)
    requires
        !list.respect_robots_txt,
        list.queue.delay is None,
        list.queue.queued.len() <= left,
    ensures
        ({
            let (after, demand) = list.pull::<E>(left);
            let wanted = list.in_flight.len() + list.queue.queued.len();
            let limit: nat = if list.max_requests == 0 {
                1
            } else {
                list.max_requests as nat
            };
            &&& list.in_flight.len() <= limit ==> after.flying() == if wanted <= limit {
                wanted
            } else {
                limit
            }
            &&& after.flying() + after.queue.queued.len() == wanted
        }),
    decreases left,
{
    if left > 0 && list.has_room() {
        let (queue, next) = list.queue.poll_next();
        let rest = BlockState { queue, ..list };
        match next {
            NextRequest::Empty => {
                lemma_pull_fills::<S, F, E>(rest, (left - 1) as nat);
            },
            NextRequest::Wait(_) => {},
            NextRequest::Send(request) => {
                let count = (left - 1) as nat;
                assert(list.pull::<E>(left) == rest.dispatch::<E>(request, count));
                let (taken, _) = rest.take_up(request);
                lemma_pull_fills::<S, F, E>(taken, count);
            },
        }
    }
}

/// A block list that keeps no delay and no `robots.txt` starts as many waiting requests as it has
/// room for, as soon as the next result is wanted: all of them, or as many as its limit allows.
/// The others wait on.
pub proof fn law_block_list_fills_its_room<S, F, E>(list: BlockState<S, F>, restarted: Timer)
    requires
        list.phase is Idle,
        list.robots_tasks.len() == 0,
        !list.respect_robots_txt,
        list.queue.delay is None,
        list.in_flight.len() <= list.max_requests || list.in_flight.len() <= 1,
    ensures
        ({
            let (after, demand) = list.step::<E>(Signal::Poll, restarted);
            let wanted = list.in_flight.len() + list.queue.queued.len();
            let limit: nat = if list.max_requests == 0 {
                1
            } else {
                list.max_requests as nat
            };
            &&& after.flying() == if wanted <= limit {
                wanted
            } else {
                limit
            }
            &&& after.flying() + after.queue.queued.len() == wanted
        }),
{
    lemma_pull_fills::<S, F, E>(list, list.queue.queued.len());
}

proof fn lemma_all_sent_finds_none<F>(tasks: Seq<(String, RobotsTaskView<F>)>, left: nat)
    requires
        left <= tasks.len(),
        forall|i: int| 0 <= i < tasks.len() ==> (#[trigger] tasks[i]).1 is Running,
    ensures
        last_unsent(tasks, left) == 0,
    decreases left,
{
    if left > 0 {
        assert(tasks[left - 1].1 is Running);
        lemma_all_sent_finds_none(tasks, (left - 1) as nat);
    }
}

proof fn lemma_pull_starts_the_first<S, F, E>(list: BlockState<S, F>)
    requires
        list.in_flight.len() == 0 || list.in_flight.len() < list.max_requests,
        list.queue.delay is None,
        list.queue.queued.len() > 0,
        may_be_sent(list, list.queue.queued[0]),
    ensures
        ({
            let (after, demand) = list.pull::<E>(list.queue.queued.len());
            keeps_flight(after, demand, sent_by(list.queue.queued[0], list.client))
        }),
{
    let left = list.queue.queued.len();
    let first = list.queue.queued[0];
    let (queue, _) = list.queue.poll_next();
    let rest = BlockState { queue, ..list };
    let (taken, _) = rest.take_up(first);
    let flight = sent_by::<S, F>(first, list.client);
    assert(taken.in_flight[list.in_flight.len() as int] == flight);
    lemma_pull_keeps_flight::<S, F, E>(taken, (left - 1) as nat, flight);
    assert(list.pull::<E>(left) == rest.dispatch::<E>(first, (left - 1) as nat));
}

/// Once the `robots.txt` that a block list has waited for has come, the first waiting request is
/// started, if it may go by what is known then; the list need not be asked once more.
pub proof fn law_block_list_goes_on_once_known<S, F, E>(
    list: BlockState<S, F>,
    left: nat,
    host: String,
    came: bool,
    data: RobotsData,
    restarted: Timer,
)
    requires
        list.phase == BlockPhaseView::<S>::Robots(0, host) || list.phase == BlockPhaseView::<
            S,
        >::Asked(left, host, came),
        left <= list.robots_tasks.len(),
        forall|i: int|
            0 <= i < list.robots_tasks.len() ==> (#[trigger] list.robots_tasks[i]).1 is Running,
        list.in_flight.len() == 0 || list.in_flight.len() < list.max_requests,
        list.queue.delay is None,
        list.queue.queued.len() > 0,
        may_be_sent(
            BlockState { robots_map: list.robots_map.insert(host@, data@), ..list },
            list.queue.queued[0],
        ),
    ensures
        ({
            let signal = Signal::Robots(RobotsNews::Ready(Ok(data)));
            let (after, demand) = list.step::<E>(signal, restarted);
            keeps_flight(after, demand, sent_by(list.queue.queued[0], list.client))
        }),
{
    let known = list.knowing(host, data@);
    lemma_all_sent_finds_none(list.robots_tasks, left);
    lemma_pull_starts_the_first::<S, F, E>(known);
}

/// Where a `robots.txt` has come while others are still on their way, the waiting requests are
/// looked at once more before the list says that there is nothing yet.
pub proof fn law_block_list_looks_once_more<S, F, E>(
    list: BlockState<S, F>,
    left: nat,
    host: String,
    task: F,
    restarted: Timer,
)
    requires
        list.phase == BlockPhaseView::<S>::Asked(left, host, true),
        left <= list.robots_tasks.len(),
        forall|i: int|
            0 <= i < list.robots_tasks.len() ==> (#[trigger] list.robots_tasks[i]).1 is Running,
        list.in_flight.len() == 0 || list.in_flight.len() < list.max_requests,
        list.queue.delay is None,
        list.queue.queued.len() > 0,
        may_be_sent(list, list.queue.queued[0]),
    ensures
        ({
            let signal = Signal::Robots(RobotsNews::Pending(task));
            let (after, demand) = list.step::<E>(signal, restarted);
            keeps_flight(after, demand, sent_by(list.queue.queued[0], list.client))
        }),
{
    let kept = list.awaiting(host, task);
    assert forall|i: int| 0 <= i < kept.robots_tasks.len() implies (
    #[trigger] kept.robots_tasks[i]).1 is Running by {
        if i < list.robots_tasks.len() {
            assert(kept.robots_tasks[i] == list.robots_tasks[i]);
        }
    }
    lemma_all_sent_finds_none(kept.robots_tasks, left);
    lemma_pull_starts_the_first::<S, F, E>(kept);
}

/// A block list has every request for a `robots.txt` sent before it looks after the requests in
/// flight: while one that was just sent is not done, the one before it that was not sent yet is
/// next.
pub proof fn law_block_list_sends_every_robots<S, F, E>(
    list: BlockState<S, F>,
    left: nat,
    host: String,
    came: bool,
    task: F,
    restarted: Timer,
)
    requires
        list.phase == BlockPhaseView::<S>::Asked(left, host, came),
        0 < left <= list.robots_tasks.len(),
        list.robots_tasks[left - 1].1 is Fetch,
    ensures
        ({
            let signal = Signal::Robots(RobotsNews::Pending(task));
            let (after, demand) = list.step::<E>(signal, restarted);
            let (next, asked) = list.robots_tasks[left - 1];
            let kept = list.robots_tasks.push((host, RobotsTaskView::Running(task)));
            &&& demand == DemandView::<S, F, E>::PollRobots(asked)
            &&& after.phase == BlockPhaseView::<S>::Asked((left - 1) as nat, next, came)
            &&& after.robots_tasks == kept.update(left - 1, kept.last()).drop_last()
        }),
{
    let kept = list.robots_tasks.push((host, RobotsTaskView::Running(task)));
    assert(swap_removed(kept, left - 1) =~= kept.update(left - 1, kept.last()).drop_last());
}

/// A crawler without results at hand looks after every job that ends in the scraper's output, the
/// last one first, and then after every job that ends in a response. One that is not done is kept,
/// with the depth of its response, and the one before it is next.
pub proof fn law_crawler_looks_after_every_job<O, S, F, E>(
    crawler: CrawlerState<O, S, F, E>,
    left: nat,
    depth: usize,
    task: F,
    restarted: Timer,
)
    ensures
        crawler.phase is Idle && crawler.results.len() == 0 && crawler.outputs.len() > 0 ==> ({
            let (after, demand) = crawler.step(CrawlerSignal::Poll, restarted);
            &&& demand == CrawlerDemandView::<O, S, F, E>::PollOutput(crawler.outputs.last())
            &&& after.phase == CrawlerPhaseView::Output((crawler.outputs.len() - 1) as nat)
            &&& after.outputs == crawler.outputs.drop_last()
            &&& after.crawls == crawler.crawls
        }),
        crawler.phase is Idle && crawler.results.len() == 0 && crawler.outputs.len() == 0
            && crawler.crawls.len() > 0 ==> ({
            let (after, demand) = crawler.step(CrawlerSignal::Poll, restarted);
            let (depth, task) = crawler.crawls.last();
            &&& demand == CrawlerDemandView::<O, S, F, E>::PollCrawl(task)
            &&& after.phase == CrawlerPhaseView::Crawl((crawler.crawls.len() - 1) as nat, depth)
            &&& after.crawls == crawler.crawls.drop_last()
        }),
        crawler.phase == CrawlerPhaseView::Output(left) && 0 < left <= crawler.outputs.len() ==> ({
            let news = CrawlerSignal::Output(OutputNews::Pending(task));
            let (after, demand) = crawler.step(news, restarted);
            let kept = crawler.outputs.push(task);
            &&& demand == CrawlerDemandView::<O, S, F, E>::PollOutput(crawler.outputs[left - 1])
            &&& after.phase == CrawlerPhaseView::Output((left - 1) as nat)
            &&& after.outputs == kept.update(left - 1, task).drop_last()
            &&& after.crawls == crawler.crawls
        }),
        crawler.phase == CrawlerPhaseView::Output(0) && crawler.crawls.len() > 0 ==> ({
            let news = CrawlerSignal::Output(OutputNews::Pending(task));
            let (after, demand) = crawler.step(news, restarted);
            let (depth, next) = crawler.crawls.last();
            &&& demand == CrawlerDemandView::<O, S, F, E>::PollCrawl(next)
            &&& after.phase == CrawlerPhaseView::Crawl((crawler.crawls.len() - 1) as nat, depth)
            &&& after.outputs == crawler.outputs.push(task)
            &&& after.crawls == crawler.crawls.drop_last()
        }),
        crawler.phase == CrawlerPhaseView::Crawl(left, depth) && 0 < left <= crawler.crawls.len()
            ==> ({
            let news = CrawlerSignal::Crawl(CrawlNews::Pending(task));
            let (after, demand) = crawler.step(news, restarted);
            let (other, next) = crawler.crawls[left - 1];
            let kept = crawler.crawls.push((depth, task));
            &&& demand == CrawlerDemandView::<O, S, F, E>::PollCrawl(next)
            &&& after.phase == CrawlerPhaseView::Crawl((left - 1) as nat, other)
            &&& after.crawls == kept.update(left - 1, (depth, task)).drop_last()
            &&& after.outputs == crawler.outputs
        }),
        crawler.phase == CrawlerPhaseView::Crawl(0, depth) ==> ({
            let news = CrawlerSignal::Crawl(CrawlNews::Pending(task));
            let (after, demand) = crawler.step(news, restarted);
            &&& after.crawls == crawler.crawls.push((depth, task))
            &&& after.outputs == crawler.outputs
            &&& demand != CrawlerDemandView::<O, S, F, E>::Yield(CrawlerProgress::Done)
        }),
{
    if crawler.outputs.len() > 0 {
        let last = crawler.outputs.len() - 1;
        assert(swap_removed(crawler.outputs, last) =~= crawler.outputs.drop_last());
    }
    if crawler.crawls.len() > 0 {
        let last = crawler.crawls.len() - 1;
        assert(swap_removed(crawler.crawls, last) =~= crawler.crawls.drop_last());
    }
    if 0 < left <= crawler.outputs.len() {
        let kept = crawler.outputs.push(task);
        assert(swap_removed(kept, left - 1) =~= kept.update(left - 1, task).drop_last());
    }
    if 0 < left <= crawler.crawls.len() {
        let kept = crawler.crawls.push((depth, task));
        assert(swap_removed(kept, left - 1) =~= kept.update(left - 1, (depth, task)).drop_last());
    }
}

/// A crawler gives out the results that are at hand first, the oldest one first, and nothing else
/// happens meanwhile.
pub proof fn law_results_come_first<O, S, F, E>(
    crawler: CrawlerState<O, S, F, E>,
    restarted: Timer,
)
    requires
        crawler.phase is Idle,
        crawler.results.len() > 0,
    ensures
        ({
            let (after, demand) = crawler.step(CrawlerSignal::Poll, restarted);
            &&& demand == CrawlerDemandView::<O, S, F, E>::Yield(
                CrawlerProgress::Item(crawler.results[0]),
            )
            &&& after.results == crawler.results.drop_first()
            &&& after.outputs == crawler.outputs
            &&& after.crawls == crawler.crawls
            &&& after.list == crawler.list
            &&& after.stats == crawler.stats
            &&& after.current_depth == crawler.current_depth
            &&& after.phase is Idle
        }),
{
}

/// An allow list gives out the results that are at hand first, the oldest one first, and nothing
/// else happens meanwhile.
pub proof fn law_list_results_come_first<S, F, E>(list: AllowState<S, F, E>, restarted: Timer)
    requires
        list.phase is Idle,
        list.results.len() > 0,
    ensures
        ({
            let (after, demand) = list.step(Signal::Poll, restarted);
            &&& demand == DemandView::<S, F, E>::Yield(Progress::Item(list.results[0]))
            &&& after.results == list.results.drop_first()
            &&& after.allowed == list.allowed
            &&& after.domains == list.domains
            &&& after.phase is Idle
        }),
{
}

/// An allow list without results at hand looks after its domains, the last one first: what that
/// one wants done, the list wants done. Once it has no more to give for now, the domain before it
/// is next, whether or not the others are done.
pub proof fn law_allow_list_looks_after_every_domain<S, F, E>(
    list: AllowState<S, F, E>,
    left: nat,
    host: Seq<char>,
    busy: bool,
    signal: Signal<S, F, E>,
    restarted: Timer,
)
    requires
        0 < left <= list.domains.len(),
    ensures
        list.phase is Idle && list.results.len() == 0 ==> ({
            let (after, demand) = list.step(Signal::Poll, restarted);
            let last = list.domains.last();
            let asked = list.allowed[last].drain::<E>(Signal::Poll, restarted);
            !(asked.demand is Yield) ==> {
                &&& demand == asked.demand
                &&& after.phase matches AllowPhaseView::Visit { host: visited, .. }
                &&& visited == last
                &&& after.allowed[last] == asked.domain
                &&& after.results == asked.items
            }
        }),
        list.phase == (AllowPhaseView::Visit { left, host, busy }) && !list.domains.contains(host)
            ==> ({
            let (after, demand) = list.step(signal, restarted);
            let told = list.allowed[host].drain(signal, restarted);
            let next = list.domains[left - 1];
            let asked = list.allowed[next].drain::<E>(Signal::Poll, restarted);
            &&& !(told.demand is Yield) ==> {
                &&& demand == told.demand
                &&& after.phase matches AllowPhaseView::Visit { host: visited, .. }
                &&& visited == host
                &&& after.allowed[host] == told.domain
                &&& after.results == list.results + told.items
            }
            &&& told.demand is Yield && !(asked.demand is Yield) ==> {
                &&& demand == asked.demand
                &&& after.phase matches AllowPhaseView::Visit { host: visited, .. }
                &&& visited == next
                &&& after.allowed[host] == told.domain
                &&& after.allowed[next] == asked.domain
                &&& after.results == list.results + told.items + asked.items
            }
        }),
{
    let next = list.domains[left - 1];
    assert(list.domains.contains(next));
    if list.results.len() == 0 {
        let items = list.allowed[list.domains.last()].drain::<E>(Signal::Poll, restarted).items;
        assert(list.results + items =~= items);
    }
    let told = list.allowed[host].drain(signal, restarted);
    let heard = list.hear(left, host, busy, signal, restarted).0;
    if told.demand is Yield {
        assert(heard.domains[left - 1] == next);
    }
}

/// A crawler without results and jobs looks after its list of domains: what that wants done, the
/// crawler wants done, and results that are at hand there become results of the crawler.
pub proof fn law_crawler_looks_after_its_list<O, S, F, E>(
    crawler: CrawlerState<O, S, F, E>,
    restarted: Timer,
)
    requires
        crawler.phase is Idle,
        crawler.results.len() == 0,
        crawler.outputs.len() == 0,
        crawler.crawls.len() == 0,
    ensures
        ({
            let (after, demand) = crawler.step(CrawlerSignal::Poll, restarted);
            let asked = crawler.list.drain(Signal::Poll, restarted);
            &&& after.list == asked.list
            &&& !(asked.demand is Yield) ==> {
                &&& demand == CrawlerDemandView::<O, S, F, E>::List(asked.demand)
                &&& after.phase is List
                &&& after.results.len() == asked.items.len()
            }
            &&& asked.demand is Yield && asked.items.len() > 0 ==> demand == CrawlerDemandView::<
                O,
                S,
                F,
                E,
            >::Yield(CrawlerProgress::Item(CrawlResult::Crawled(asked.items[0])))
            &&& asked.demand == DemandView::<S, F, E>::Yield(Progress::Pending)
                && asked.items.len() == 0 ==> demand == CrawlerDemandView::<O, S, F, E>::Yield(
                CrawlerProgress::Pending,
            )
        }),
{
}

} // verus!
