//! How a block list comes by the `robots.txt` of each host, and what it does by it.
use crate::block_list::{
    last_unsent, lemma_last_unsent, sent_from, BlockPhaseView, BlockState,
};
use crate::error::{CrawlError, DisallowReason, Failure};
use crate::fetch::{
    swap_removed, DemandView, Progress, RobotsNews, RobotsTaskView, Signal,
};
use crate::requests::{NextRequest, QueuedRequest};
use crate::robots::RobotsView;
use crate::time::Timer;
use crate::web::robots_txt_url;
use reqwest_middleware::ClientWithMiddleware;
use vstd::prelude::*;

verus! {

/// Whether what is given out, if it is a refusal, is one that is due: the `robots.txt` of the host
/// is respected, there, and does not permit the request, or the request names no host.
pub open spec fn refuses_duly<S, F, E>(
    robots: Map<Seq<char>, RobotsView>,
    respects: bool,
    demand: DemandView<S, F, E>,
) -> bool {
    demand matches DemandView::Yield(Progress::Item(Err(Failure::Crawl(error)))) ==> match error {
        CrawlError::DisallowedRequest { reason, request, state } => {
            &&& respects
            &&& reason == DisallowReason::RobotsTxt
            &&& request.host_name() matches Some(host)
            &&& robots.contains_key(host@)
            &&& !robots[host@].permits(request.url(), request.headers())
        },
        CrawlError::InvalidRequest { request, state } => request.host_name() is None,
        CrawlError::ReachedMaxDepth { .. } => false,
        CrawlError::FailedToBuildRequest { .. } => false,
        _ => true,
    }
}

/// Whether a request for the `robots.txt` of a host is due: it was there before, or a request to
/// that host was waiting, and it asks for the `robots.txt` that goes with it.
pub open spec fn is_due<S, F>(
    entry: (String, RobotsTaskView<F>),
    tasks: Seq<(String, RobotsTaskView<F>)>,
    waiting: Seq<QueuedRequest<S>>,
    client: ClientWithMiddleware,
) -> bool {
    ||| tasks.contains(entry)
    ||| exists|i: int|
        {
            &&& 0 <= i < waiting.len()
            &&& (#[trigger] waiting[i]).request.host_name() == Some(entry.0)
            &&& entry.1 == RobotsTaskView::<F>::Fetch(
                client,
                robots_txt_url(waiting[i].request.url()),
            )
        }
}

/// Whether all requests for a `robots.txt` are due.
pub open spec fn all_due<S, F>(
    list: BlockState<S, F>,
    tasks: Seq<(String, RobotsTaskView<F>)>,
    waiting: Seq<QueuedRequest<S>>,
) -> bool {
    forall|i: int|
        0 <= i < list.robots_tasks.len() ==> is_due(
            #[trigger] list.robots_tasks[i],
            tasks,
            waiting,
            list.client,
        )
}

/// Whether every waiting request was waiting before.
pub open spec fn all_waited<S, F>(list: BlockState<S, F>, waiting: Seq<QueuedRequest<S>>) -> bool {
    forall|i: int|
        0 <= i < list.queue.queued.len() ==> waiting.contains(#[trigger] list.queue.queued[i])
}

/// Whether a list has had a request for a `robots.txt` handed out only if it is due, and holds only
/// such.
pub open spec fn asks_duly<S, F, E>(
    after: BlockState<S, F>,
    demand: DemandView<S, F, E>,
    tasks: Seq<(String, RobotsTaskView<F>)>,
    waiting: Seq<QueuedRequest<S>>,
) -> bool {
    &&& all_due(after, tasks, waiting)
    &&& all_waited(after, waiting)
    &&& demand matches DemandView::PollRobots(task) ==> match after.phase {
        BlockPhaseView::Robots(_, host) => is_due((host, task), tasks, waiting, after.client),
        BlockPhaseView::Asked(_, host, _) => is_due((host, task), tasks, waiting, after.client),
        _ => false,
    }
}

/// Whether a host is known or waited for at least as it was before: what is known stays known, and
/// nothing is learnt.
pub open spec fn knows_the_same<S, F>(list: BlockState<S, F>, after: BlockState<S, F>) -> bool {
    &&& after.robots_map == list.robots_map
    &&& after.respect_robots_txt == list.respect_robots_txt
    &&& after.client == list.client
}

proof fn lemma_swapped_due<S, F>(
    list: BlockState<S, F>,
    after: BlockState<S, F>,
    place: int,
    tasks: Seq<(String, RobotsTaskView<F>)>,
    waiting: Seq<QueuedRequest<S>>,
)
    requires
        0 <= place < list.robots_tasks.len(),
        all_due(list, tasks, waiting),
        after.client == list.client,
        after.robots_tasks == swap_removed(list.robots_tasks, place),
    ensures
        all_due(after, tasks, waiting),
        is_due(list.robots_tasks[place], tasks, waiting, list.client),
{
    assert forall|i: int| 0 <= i < after.robots_tasks.len() implies is_due(
        #[trigger] after.robots_tasks[i],
        tasks,
        waiting,
        after.client,
    ) by {
        if i == place {
            assert(after.robots_tasks[i] == list.robots_tasks[list.robots_tasks.len() - 1]);
        } else {
            assert(after.robots_tasks[i] == list.robots_tasks[i]);
        }
    }
}

proof fn lemma_ask_is_due<S, F, E>(
    list: BlockState<S, F>,
    tasks: Seq<(String, RobotsTaskView<F>)>,
    waiting: Seq<QueuedRequest<S>>,
    left: nat,
)
    requires
        left <= list.robots_tasks.len(),
        sent_from(list.robots_tasks, left),
        all_due(list, tasks, waiting),
        all_waited(list, waiting),
    ensures
        ({
            let (after, demand) = list.ask::<E>(left);
            &&& asks_duly(after, demand, tasks, waiting)
            &&& knows_the_same(list, after)
            &&& refuses_duly(list.robots_map, list.respect_robots_txt, demand)
        }),
{
    let found = last_unsent(list.robots_tasks, left);
    lemma_last_unsent(list.robots_tasks, left);
    if found > 0 {
        let after = list.hand_out::<E>(found, false).0;
        lemma_swapped_due(list, after, found - 1, tasks, waiting);
        let again = list.hand_out::<E>(found, true).0;
        lemma_swapped_due(list, again, found - 1, tasks, waiting);
    }
}

proof fn lemma_ask_again_is_due<S, F, E>(
    list: BlockState<S, F>,
    tasks: Seq<(String, RobotsTaskView<F>)>,
    waiting: Seq<QueuedRequest<S>>,
    left: nat,
)
    requires
        left <= list.robots_tasks.len(),
        sent_from(list.robots_tasks, left),
        all_due(list, tasks, waiting),
        all_waited(list, waiting),
    ensures
        ({
            let (after, demand) = list.ask_again::<E>(left);
            &&& asks_duly(after, demand, tasks, waiting)
            &&& knows_the_same(list, after)
            &&& refuses_duly(list.robots_map, list.respect_robots_txt, demand)
        }),
{
    let found = last_unsent(list.robots_tasks, left);
    lemma_last_unsent(list.robots_tasks, left);
    if found > 0 {
        let after = list.hand_out::<E>(found, true).0;
        lemma_swapped_due(list, after, found - 1, tasks, waiting);
    } else {
        lemma_pull_is_due::<S, F, E>(list, tasks, waiting, list.queue.queued.len());
    }
}

proof fn lemma_pull_is_due<S, F, E>(
    list: BlockState<S, F>,
    tasks: Seq<(String, RobotsTaskView<F>)>,
    waiting: Seq<QueuedRequest<S>>,
    left: nat,
)
    requires
        all_due(list, tasks, waiting),
        all_waited(list, waiting),
    ensures
        ({
            let (after, demand) = list.pull::<E>(left);
            &&& asks_duly(after, demand, tasks, waiting)
            &&& knows_the_same(list, after)
            &&& refuses_duly(list.robots_map, list.respect_robots_txt, demand)
        }),
    decreases left, 0nat,
{
    if left == 0 || !list.has_room() {
        lemma_ask_is_due::<S, F, E>(list, tasks, waiting, list.robots_tasks.len());
    } else {
        let (queue, next) = list.queue.poll_next();
        let rest = BlockState { queue, ..list };
        match next {
            NextRequest::Empty => {
                lemma_pull_is_due::<S, F, E>(rest, tasks, waiting, (left - 1) as nat);
            },
            NextRequest::Wait(_) => {},
            NextRequest::Send(request) => {
                assert(list.queue.queued[0] == request);
                assert(waiting.contains(request));
                assert forall|i: int| 0 <= i < rest.queue.queued.len() implies waiting.contains(
                    #[trigger] rest.queue.queued[i],
                ) by {
                    assert(rest.queue.queued[i] == list.queue.queued[i + 1]);
                }
                lemma_dispatch_is_due::<S, F, E>(rest, tasks, waiting, request, (left - 1) as nat);
            },
        }
    }
}

proof fn lemma_dispatch_is_due<S, F, E>(
    list: BlockState<S, F>,
    tasks: Seq<(String, RobotsTaskView<F>)>,
    waiting: Seq<QueuedRequest<S>>,
    request: QueuedRequest<S>,
    left: nat,
)
    requires
        all_due(list, tasks, waiting),
        all_waited(list, waiting),
        waiting.contains(request),
    ensures
        ({
            let (after, demand) = list.dispatch::<E>(request, left);
            &&& asks_duly(after, demand, tasks, waiting)
            &&& knows_the_same(list, after)
            &&& refuses_duly(list.robots_map, list.respect_robots_txt, demand)
        }),
    decreases left, 1nat,
{
    let (rest, refused) = list.take_up(request);
    assert forall|i: int| 0 <= i < rest.robots_tasks.len() implies is_due(
        #[trigger] rest.robots_tasks[i],
        tasks,
        waiting,
        rest.client,
    ) by {
        if i < list.robots_tasks.len() {
            assert(rest.robots_tasks[i] == list.robots_tasks[i]);
        } else {
            let place = choose|place: int| 0 <= place < waiting.len() && waiting[place] == request;
            assert(waiting[place].request.host_name() == Some(rest.robots_tasks[i].0));
        }
    }
    assert forall|i: int| 0 <= i < rest.queue.queued.len() implies waiting.contains(
        #[trigger] rest.queue.queued[i],
    ) by {
        if i < list.queue.queued.len() {
            assert(rest.queue.queued[i] == list.queue.queued[i]);
        } else {
            assert(rest.queue.queued[i] == request);
        }
    }
    if refused is None {
        lemma_pull_is_due::<S, F, E>(rest, tasks, waiting, left);
    }
}

/// What is known once a signal has been heard: the `robots.txt` that has come, beside what was
/// known.
pub open spec fn known_after<S, F, E>(
    list: BlockState<S, F>,
    signal: Signal<S, F, E>,
) -> Map<Seq<char>, RobotsView> {
    match (list.phase, signal) {
        (
            BlockPhaseView::Robots(_, host),
            Signal::Robots(RobotsNews::Ready(Ok(data))),
        ) => list.robots_map.insert(host@, data@),
        (
            BlockPhaseView::Asked(_, host, _),
            Signal::Robots(RobotsNews::Ready(Ok(data))),
        ) => list.robots_map.insert(host@, data@),
        _ => list.robots_map,
    }
}

/// The requests for a `robots.txt` that there are once a signal has been heard: one that was out
/// and is not done goes on.
pub open spec fn asked_before<S, F, E>(
    list: BlockState<S, F>,
    signal: Signal<S, F, E>,
) -> Seq<(String, RobotsTaskView<F>)> {
    match (list.phase, signal) {
        (
            BlockPhaseView::Robots(_, host),
            Signal::Robots(RobotsNews::Pending(task)),
        ) => list.robots_tasks.push((host, RobotsTaskView::Running(task))),
        (
            BlockPhaseView::Asked(_, host, _),
            Signal::Robots(RobotsNews::Pending(task)),
        ) => list.robots_tasks.push((host, RobotsTaskView::Running(task))),
        _ => list.robots_tasks,
    }
}

/// A block list asks for the `robots.txt` of a host only if a request to it is waiting, and then
/// for the one that goes with that request. It learns of a host just the `robots.txt` that has
/// come for it, and forgets none. It refuses a waiting request only if the `robots.txt` of its
/// host is respected, there, and does not permit it, or if the request names no host.
pub proof fn law_block_list_asks_and_refuses_duly<S, F, E>(
    list: BlockState<S, F>,
    signal: Signal<S, F, E>,
    restarted: Timer,
)
    requires
        list.well_formed(),
        list.expects(signal),
    ensures
        ({
            let (after, demand) = list.step(signal, restarted);
            &&& asks_duly(after, demand, asked_before(list, signal), list.queue.queued)
            &&& after.robots_map == known_after(list, signal)
            &&& refuses_duly(after.robots_map, list.respect_robots_txt, demand)
        }),
{
    let (tasks, waiting) = (asked_before(list, signal), list.queue.queued);
    let known = BlockState {
        robots_tasks: tasks,
        robots_map: known_after(list, signal),
        ..list
    };
    assert forall|i: int| 0 <= i < known.robots_tasks.len() implies is_due(
        #[trigger] known.robots_tasks[i],
        tasks,
        waiting,
        list.client,
    ) by {
        assert(tasks.contains(known.robots_tasks[i]));
    }
    lemma_waiting_waited(list);
    match (list.phase, signal) {
        (BlockPhaseView::Robots(left, host), Signal::Robots(news)) => {
            let rest = match news {
                RobotsNews::Pending(task) => list.awaiting(host, task),
                RobotsNews::Ready(Ok(data)) => list.knowing(host, data@),
                RobotsNews::Ready(Err(_)) => list,
            };
            assert(all_due(rest, tasks, waiting));
            lemma_visit_is_due::<S, F, E>(rest, tasks, waiting, left);
        },
        (BlockPhaseView::Asked(left, host, _), Signal::Robots(news)) => {
            let rest = match news {
                RobotsNews::Pending(task) => list.awaiting(host, task),
                RobotsNews::Ready(Ok(data)) => list.knowing(host, data@),
                RobotsNews::Ready(Err(_)) => list,
            };
            assert(all_due(rest, tasks, waiting));
            lemma_ask_is_due::<S, F, E>(rest, tasks, waiting, left);
            lemma_ask_again_is_due::<S, F, E>(rest, tasks, waiting, left);
        },
        (BlockPhaseView::Timer(left), Signal::Timer(timer, elapsed)) => {
            let (queue, next) = list.queue.resume(timer, elapsed, restarted);
            let rest = BlockState { queue, ..list };
            assert(all_due(rest, tasks, waiting));
            match next {
                None => {
                    lemma_pull_is_due::<S, F, E>(rest, tasks, waiting, left);
                },
                Some(request) => {
                    assert(list.queue.queued[0] == request);
                    assert forall|i: int|
                        0 <= i < rest.queue.queued.len() implies waiting.contains(
                        #[trigger] rest.queue.queued[i],
                    ) by {
                        assert(rest.queue.queued[i] == list.queue.queued[i + 1]);
                    }
                    lemma_dispatch_is_due::<S, F, E>(rest, tasks, waiting, request, left);
                },
            }
        },
        (BlockPhaseView::Advance(_, _), Signal::Fetch(_)) => {
            assert(all_due(list, tasks, waiting));
        },
        _ => {
            assert(all_due(list, tasks, waiting));
            lemma_visit_is_due::<S, F, E>(list, tasks, waiting, list.robots_tasks.len());
        },
    }
}

proof fn lemma_waiting_waited<S, F>(list: BlockState<S, F>)
    ensures
        all_waited(list, list.queue.queued),
{
}

proof fn lemma_visit_is_due<S, F, E>(
    list: BlockState<S, F>,
    tasks: Seq<(String, RobotsTaskView<F>)>,
    waiting: Seq<QueuedRequest<S>>,
    left: nat,
)
    requires
        left <= list.robots_tasks.len(),
        all_due(list, tasks, waiting),
        all_waited(list, waiting),
    ensures
        ({
            let (after, demand) = list.visit_robots::<E>(left);
            &&& asks_duly(after, demand, tasks, waiting)
            &&& knows_the_same(list, after)
            &&& refuses_duly(list.robots_map, list.respect_robots_txt, demand)
        }),
{
    if left == 0 {
        lemma_pull_is_due::<S, F, E>(list, tasks, waiting, list.queue.queued.len());
    } else {
        let after = list.visit_robots::<E>(left).0;
        lemma_swapped_due(list, after, left - 1, tasks, waiting);
    }
}

proof fn lemma_unsent_is_found<F>(
    tasks: Seq<(String, RobotsTaskView<F>)>,
    left: nat,
    place: int,
)
    requires
        0 <= place < left <= tasks.len(),
        tasks[place].1 is Fetch,
    ensures
        last_unsent(tasks, left) > 0,
    decreases left,
{
    if !(tasks[left - 1].1 is Fetch) {
        lemma_unsent_is_found(tasks, (left - 1) as nat, place);
    }
}

proof fn lemma_pull_asks<S, F, E>(list: BlockState<S, F>, left: nat, place: int)
    requires
        list.queue.delay is None,
        0 <= place < list.robots_tasks.len(),
        list.robots_tasks[place].1 is Fetch,
    ensures
        match list.pull::<E>(left).1 {
            DemandView::PollRobots(RobotsTaskView::Fetch(_, _)) => true,
            DemandView::Yield(Progress::Item(_)) => true,
            _ => false,
        },
    decreases left, 0nat,
{
    if left == 0 || !list.has_room() {
        let tasks = list.robots_tasks;
        lemma_unsent_is_found(tasks, tasks.len(), place);
        lemma_last_unsent(tasks, tasks.len());
    } else {
        let (queue, next) = list.queue.poll_next();
        let rest = BlockState { queue, ..list };
        match next {
            NextRequest::Empty => {
                lemma_pull_asks::<S, F, E>(rest, (left - 1) as nat, place);
            },
            NextRequest::Wait(_) => {},
            NextRequest::Send(request) => {
                let count = (left - 1) as nat;
                assert(list.pull::<E>(left) == rest.dispatch::<E>(request, count));
                let (taken, refused) = rest.take_up(request);
                if refused is None {
                    assert(taken.robots_tasks[place] == list.robots_tasks[place]);
                    lemma_pull_asks::<S, F, E>(taken, (left - 1) as nat, place);
                }
            },
        }
    }
}

/// Where the `robots.txt` is respected and nothing is known of the host of the first waiting
/// request, whoever wants the next result has a `robots.txt` asked for, unless there is a result at
/// hand; the one of that host is waited for from then on.
pub proof fn law_block_list_asks_for_unknown_hosts<S, F, E>(
    list: BlockState<S, F>,
    restarted: Timer,
    host: String,
)
    requires
        list.phase is Idle,
        list.robots_tasks.len() == 0,
        list.respect_robots_txt,
        list.queue.delay is None,
        list.in_flight.len() == 0 || list.in_flight.len() < list.max_requests,
        list.queue.queued.len() > 0,
        list.queue.queued[0].request.host_name() == Some(host),
        !list.robots_map.contains_key(host@),
    ensures
        match list.step::<E>(Signal::Poll, restarted).1 {
            DemandView::PollRobots(RobotsTaskView::Fetch(_, _)) => true,
            DemandView::Yield(Progress::Item(_)) => true,
            _ => false,
        },
        list.step::<E>(Signal::Poll, restarted).0.robots_hosts.contains(host@),
{
    let left = list.queue.queued.len();
    let (queue, next) = list.queue.poll_next();
    let rest = BlockState { queue, ..list };
    let request = list.queue.queued[0];
    assert(next == NextRequest::Send(request));
    let (taken, _) = rest.take_up(request);
    assert(taken.robots_tasks[0].1 is Fetch);
    lemma_waiting_waited(taken);
    lemma_pull_waits_duly::<S, F, E>(taken, taken.queue.queued, (left - 1) as nat);
    assert(taken.robots_hosts.contains(host@));
    lemma_pull_asks::<S, F, E>(taken, (left - 1) as nat, 0);
    assert(list.pull::<E>(left) == rest.dispatch::<E>(request, (left - 1) as nat));
}

/// Whether the hosts whose `robots.txt` is waited for are those that were, and at most hosts of
/// waiting requests beside them of which nothing is known.
pub open spec fn waits_duly<S, F>(
    list: BlockState<S, F>,
    after: BlockState<S, F>,
    waiting: Seq<QueuedRequest<S>>,
) -> bool {
    &&& forall|host: Seq<char>| #[trigger]
        list.robots_hosts.contains(host) ==> after.robots_hosts.contains(host)
    &&& forall|host: Seq<char>| #[trigger]
        after.robots_hosts.contains(host) && !list.robots_hosts.contains(host) ==> {
            &&& !list.robots_map.contains_key(host)
            &&& exists|i: int|
                0 <= i < waiting.len() && (#[trigger] waiting[i]).request.host() == Some(host)
        }
}

proof fn lemma_pull_waits_duly<S, F, E>(
    list: BlockState<S, F>,
    waiting: Seq<QueuedRequest<S>>,
    left: nat,
)
    requires
        all_waited(list, waiting),
    ensures
        waits_duly(list, list.pull::<E>(left).0, waiting),
    decreases left, 0nat,
{
    if left > 0 && list.has_room() {
        let (queue, next) = list.queue.poll_next();
        let rest = BlockState { queue, ..list };
        match next {
            NextRequest::Empty => {
                lemma_pull_waits_duly::<S, F, E>(rest, waiting, (left - 1) as nat);
            },
            NextRequest::Wait(_) => {},
            NextRequest::Send(request) => {
                assert(list.queue.queued[0] == request);
                assert(waiting.contains(request));
                assert forall|i: int| 0 <= i < rest.queue.queued.len() implies waiting.contains(
                    #[trigger] rest.queue.queued[i],
                ) by {
                    assert(rest.queue.queued[i] == list.queue.queued[i + 1]);
                }
                lemma_dispatch_waits_duly::<S, F, E>(rest, waiting, request, (left - 1) as nat);
            },
        }
    }
}

proof fn lemma_dispatch_waits_duly<S, F, E>(
    list: BlockState<S, F>,
    waiting: Seq<QueuedRequest<S>>,
    request: QueuedRequest<S>,
    left: nat,
)
    requires
        all_waited(list, waiting),
        waiting.contains(request),
    ensures
        waits_duly(list, list.dispatch::<E>(request, left).0, waiting),
    decreases left, 1nat,
{
    let (rest, refused) = list.take_up(request);
    let place = choose|place: int| 0 <= place < waiting.len() && waiting[place] == request;
    assert(waiting[place] == request);
    assert forall|i: int| 0 <= i < rest.queue.queued.len() implies waiting.contains(
        #[trigger] rest.queue.queued[i],
    ) by {
        if i < list.queue.queued.len() {
            assert(rest.queue.queued[i] == list.queue.queued[i]);
        } else {
            assert(rest.queue.queued[i] == request);
        }
    }
    assert(waits_duly(list, rest, waiting)) by {
        assert forall|host: Seq<char>| #[trigger]
            rest.robots_hosts.contains(host) && !list.robots_hosts.contains(host) implies {
            &&& !list.robots_map.contains_key(host)
            &&& exists|i: int|
                0 <= i < waiting.len() && (#[trigger] waiting[i]).request.host() == Some(host)
        } by {
            assert(waiting[place].request.host() == Some(host));
        }
    }
    if refused is None {
        lemma_pull_waits_duly::<S, F, E>(rest, waiting, left);
    }
}

/// Once the `robots.txt` of a host has come or failed, it is not waited for any more; the others
/// are waited for as before. While nobody is told anything of a `robots.txt`, none is waited for
/// less, and at most those of waiting requests more.
pub proof fn law_block_list_tracks_the_hosts<S, F, E>(
    list: BlockState<S, F>,
    signal: Signal<S, F, E>,
    restarted: Timer,
    heard: String,
)
    requires
        list.well_formed(),
        list.expects(signal),
        list.phase matches BlockPhaseView::Robots(_, host) ==> host == heard,
        list.phase matches BlockPhaseView::Asked(_, host, _) ==> host == heard,
    ensures
        ({
            let after = list.step(signal, restarted).0;
            let answered = signal matches Signal::Robots(news) && news is Ready;
            let before = if answered {
                BlockState {
                    robots_hosts: list.robots_hosts.remove(heard@),
                    robots_map: known_after(list, signal),
                    ..list
                }
            } else {
                list
            };
            &&& waits_duly(before, after, list.queue.queued)
            &&& answered ==> !after.robots_hosts.contains(heard@)
        }),
{
    let waiting = list.queue.queued;
    lemma_waiting_waited(list);
    match (list.phase, signal) {
        (BlockPhaseView::Robots(_, host), Signal::Robots(news))
        | (BlockPhaseView::Asked(_, host, _), Signal::Robots(news)) => {
            let rest = match news {
                RobotsNews::Pending(task) => list.awaiting(host, task),
                RobotsNews::Ready(Ok(data)) => list.knowing(host, data@),
                RobotsNews::Ready(Err(_)) => list,
            };
            lemma_pull_waits_duly::<S, F, E>(rest, waiting, waiting.len());
        },
        (BlockPhaseView::Timer(left), Signal::Timer(timer, elapsed)) => {
            let (queue, next) = list.queue.resume(timer, elapsed, restarted);
            let rest = BlockState { queue, ..list };
            match next {
                None => {
                    lemma_pull_waits_duly::<S, F, E>(rest, waiting, left);
                },
                Some(request) => {
                    assert(list.queue.queued[0] == request);
                    assert forall|i: int|
                        0 <= i < rest.queue.queued.len() implies waiting.contains(
                        #[trigger] rest.queue.queued[i],
                    ) by {
                        assert(rest.queue.queued[i] == list.queue.queued[i + 1]);
                    }
                    lemma_dispatch_waits_duly::<S, F, E>(rest, waiting, request, left);
                },
            }
        },
        (BlockPhaseView::Advance(_, _), Signal::Fetch(_)) => {},
        _ => {
            lemma_pull_waits_duly::<S, F, E>(list, waiting, waiting.len());
        },
    }
}

} // verus!
