//! What the states of a domain and of a list keep, whatever happens.
use crate::allow_list::{
    lemma_attended, lemma_results_aside, lemma_taken_out, AllowPhaseView, AllowState,
};
use crate::allowed_domain::{
    lemma_prefix_is_short, lemma_step_uses_up, passing_prefix, queued_within, DomainState,
    PhaseView,
};
use crate::block_list::{
    last_unsent, lemma_last_unsent, running_from, sent_from, BlockPhaseView, BlockState,
};
use crate::crawler::{
    injected_response, unread, CrawlNews, CrawlResult, CrawlerPhaseView, CrawlerSignal,
    CrawlerState, OutputNews,
};
use crate::domain::{lemma_listing_uses_up, ListingState};
use crate::error::Failure;
use crate::fetch::{
    fetched, swap_removed, DemandView, FetchNews, Fetched, Progress, RobotsNews, Signal, Ticket,
};
use crate::requests::{NextRequest, QueuedRequest};
use crate::time::Timer;
use vstd::prelude::*;

verus! {

/// Whether the state is one that a domain can be in, and is idle exactly if it gives something out.
pub open spec fn domain_is_sound<S, F, E>(
    outcome: (DomainState<S, F>, DemandView<S, F, E>),
) -> bool {
    &&& outcome.0.well_formed()
    &&& outcome.0.phase is Idle <==> outcome.1 is Yield
}

proof fn lemma_advance_is_sound<S, F, E>(domain: DomainState<S, F>, left: nat)
    requires
        domain.entering(PhaseView::Idle).well_formed(),
        domain.is_flushed(),
        left <= domain.in_flight.len(),
    ensures
        domain_is_sound(domain.advance::<E>(left)),
{
}

proof fn lemma_dispatch_is_sound<S, F, E>(domain: DomainState<S, F>, request: QueuedRequest<S>)
    requires
        domain.entering(PhaseView::Idle).well_formed(),
        domain.is_flushed(),
        domain.has_room(),
        request.depth <= domain.max_depth,
    ensures
        domain_is_sound(domain.dispatch::<E>(request)),
{
}

proof fn lemma_pull_is_sound<S, F, E>(domain: DomainState<S, F>)
    requires
        domain.entering(PhaseView::Idle).well_formed(),
        domain.is_flushed(),
    ensures
        domain_is_sound(domain.pull::<E>()),
{
    lemma_advance_is_sound::<S, F, E>(domain, domain.in_flight.len());
    let (queue, next) = domain.queue.poll_next();
    let rest = DomainState { queue, ..domain };
    match next {
        NextRequest::Empty => {
            lemma_advance_is_sound::<S, F, E>(rest, rest.in_flight.len());
        },
        NextRequest::Wait(_) => {},
        NextRequest::Send(request) => {
            if domain.has_room() {
                lemma_dispatch_is_sound::<S, F, E>(rest, request);
            }
        },
    }
}

proof fn lemma_flush_is_sound<S, F, E>(domain: DomainState<S, F>)
    requires
        domain.entering(PhaseView::Idle).well_formed(),
    ensures
        domain_is_sound(domain.flush::<E>()),
{
    match domain.buffer {
        None => {
            lemma_pull_is_sound::<S, F, E>(domain);
        },
        Some(buffer) => {
            lemma_prefix_is_short(domain.robots, buffer);
            let queued = domain.queue.queued;
            assert(queued_within(queued + buffer, domain.max_depth));
            if passing_prefix(domain.robots, buffer) == buffer.len() {
                let rest = DomainState {
                    queue: domain.queue.append(buffer),
                    buffer: None,
                    ..domain
                };
                lemma_pull_is_sound::<S, F, E>(rest);
            }
        },
    }
}

proof fn lemma_news_is_sound<S, F, E>(
    domain: DomainState<S, F>,
    ticket: Ticket<S>,
    news: FetchNews<F>,
    left: nat,
)
    requires
        domain.entering(PhaseView::Idle).well_formed(),
        domain.is_flushed(),
        domain.has_room(),
        ticket.depth <= domain.max_depth,
        left <= domain.in_flight.len(),
    ensures
        domain_is_sound(domain.hear_first::<E>(ticket, news)),
        domain_is_sound(domain.hear_next::<E>(left, ticket, news)),
{
    if let Fetched::Waiting(flight) = fetched::<S, F, E>(ticket, news, domain.skip_non_successful_responses) {
        let joined = DomainState { in_flight: domain.in_flight.push(flight), ..domain };
        lemma_advance_is_sound::<S, F, E>(joined, joined.in_flight.len());
        lemma_advance_is_sound::<S, F, E>(joined, left);
        lemma_pull_is_sound::<S, F, E>(joined);
    }
}

/// A domain stays in a state that it can be in, whatever it is told; in particular no request that
/// it holds ever lies deeper than allowed. It waits to be asked for the next result exactly if it
/// has just given something out.
pub proof fn law_domain_stays_well_formed<S, F, E>(
    domain: DomainState<S, F>,
    signal: Signal<S, F, E>,
    restarted: Timer,
)
    requires
        domain.well_formed(),
        domain.expects(signal),
    ensures
        domain.step(signal, restarted).0.well_formed(),
        domain.step(signal, restarted).0.phase is Idle <==> domain.step(signal, restarted).1
            is Yield,
{
    match (domain.phase, signal) {
        (PhaseView::Robots, Signal::Robots(news)) => {
            if let RobotsNews::Ready(Ok(data)) = news {
                lemma_flush_is_sound::<S, F, E>(DomainState { robots: Some(data@), ..domain });
            }
        },
        (PhaseView::Timer, Signal::Timer(timer, elapsed)) => {
            let (queue, next) = domain.queue.resume(timer, elapsed, restarted);
            let rest = DomainState { queue, ..domain };
            match next {
                None => {
                    lemma_advance_is_sound::<S, F, E>(rest, rest.in_flight.len());
                },
                Some(request) => {
                    lemma_dispatch_is_sound::<S, F, E>(rest, request);
                },
            }
        },
        (PhaseView::First(ticket), Signal::Fetch(news)) => {
            lemma_news_is_sound::<S, F, E>(domain, ticket, news, 0);
        },
        (PhaseView::Advance(left, ticket), Signal::Fetch(news)) => {
            lemma_news_is_sound::<S, F, E>(domain, ticket, news, left);
        },
        _ => {
            lemma_flush_is_sound::<S, F, E>(domain);
        },
    }
}

/// A domain stays in a state that it can be in when every result at hand is taken from it.
pub proof fn law_drained_domain_is_well_formed<S, F, E>(
    domain: DomainState<S, F>,
    signal: Signal<S, F, E>,
    restarted: Timer,
)
    requires
        domain.well_formed(),
        domain.expects(signal),
    ensures
        ({
            let drained = domain.drain(signal, restarted);
            &&& drained.domain.well_formed()
            &&& drained.domain.phase is Idle <==> drained.demand is Yield
            &&& !(drained.demand matches DemandView::Yield(Progress::Item(_)))
        }),
    decreases
            2 * domain.waiting() + if signal is Poll {
                0int
            } else {
                1int
            },
{
    law_domain_stays_well_formed(domain, signal, restarted);
    lemma_step_uses_up(domain, signal, restarted);
    let (next, demand) = domain.step(signal, restarted);
    if demand matches DemandView::Yield(Progress::Item(_)) {
        law_drained_domain_is_well_formed::<S, F, E>(next, Signal::Poll, restarted);
    }
}

/// A list that has told a domain something is one that a list can be in.
pub proof fn lemma_hear_is_sound<S, F, E>(
    list: AllowState<S, F, E>,
    left: nat,
    host: Seq<char>,
    busy: bool,
    signal: Signal<S, F, E>,
    restarted: Timer,
)
    requires
        list.attends(left, host),
        list.allowed[host].expects(signal),
    ensures
        ({
            let (after, answer) = list.hear(left, host, busy, signal, restarted);
            &&& after.well_formed()
            &&& left <= after.domains.len()
            &&& match answer {
                Ok(_) => after.phase is Idle,
                Err(demand) => after.phase !is Idle && demand !is Yield,
            }
        }),
{
    let visit = list.entering(AllowPhaseView::Visit { left, host, busy: false });
    assert(visit.allowed.contains_key(host));
    assert(list.allowed[host].well_formed());
    law_drained_domain_is_well_formed(list.allowed[host], signal, restarted);
    let (after, _) = list.hear(left, host, busy, signal, restarted);
    lemma_attended(list, after, left, host);
}

proof fn lemma_visit_is_sound<S, F, E>(
    list: AllowState<S, F, E>,
    left: nat,
    busy: bool,
    restarted: Timer,
)
    requires
        list.well_formed(),
        list.phase is Idle,
        left <= list.domains.len(),
    ensures
        ({
            let (after, demand) = list.visit(left, busy, restarted);
            &&& after.well_formed()
            &&& after.phase is Idle <==> demand is Yield
        }),
    decreases left,
{
    if left == 0 {
        if list.results.len() > 0 {
            lemma_results_aside(list, list.deliver().0);
        } else {
            assert(list.entering(AllowPhaseView::Idle) == list);
        }
    } else {
        let last = left - 1;
        let host = list.domains[last];
        let rest = AllowState { domains: swap_removed(list.domains, last), ..list };
        lemma_taken_out(list, rest, last);
        assert(list.allowed.contains_key(list.domains[last]));
        assert(list.allowed[host].well_formed());
        lemma_hear_is_sound(rest, last as nat, host, busy, Signal::Poll, restarted);
        let (after, answer) = rest.hear(last as nat, host, busy, Signal::Poll, restarted);
        if let Ok(busy) = answer {
            lemma_visit_is_sound(after, last as nat, busy, restarted);
        }
    }
}

/// A list that is looking after a domain has taken it out.
pub proof fn lemma_visited_attends<S, F, E>(
    list: AllowState<S, F, E>,
    left: nat,
    host: Seq<char>,
    busy: bool,
)
    requires
        list.well_formed(),
        list.phase == (AllowPhaseView::Visit { left, host, busy }),
    ensures
        list.attends(left, host),
{
    let visit = list.entering(AllowPhaseView::Visit { left, host, busy: false });
    assert forall|other: Seq<char>| #[trigger]
        visit.allowed.contains_key(other) implies visit.domains.contains(other) || visit.visits(
        other,
    ) by {
        assert(list.allowed.contains_key(other));
        assert(list.visits(other) == visit.visits(other));
    }
    assert forall|i: int| 0 <= i < visit.domains.len() implies visit.allowed.contains_key(
        #[trigger] visit.domains[i],
    ) by {
        assert(list.allowed.contains_key(list.domains[i]));
    }
    assert forall|other: Seq<char>| list.allowed.contains_key(other) implies {
        &&& (#[trigger] list.allowed[other]).well_formed()
        &&& other != host ==> list.allowed[other].phase is Idle
    } by {
        assert(list.allowed[other].phase is Idle <==> !list.visits(other));
    }
}

/// An allow list stays in a state that it can be in, whatever it is told, and so does every domain
/// in it. It waits to be asked for the next result exactly if it has just given something out.
pub proof fn law_allow_list_stays_well_formed<S, F, E>(
    list: AllowState<S, F, E>,
    signal: Signal<S, F, E>,
    restarted: Timer,
)
    requires
        list.well_formed(),
        list.expects(signal),
    ensures
        list.step(signal, restarted).0.well_formed(),
        list.step(signal, restarted).0.phase is Idle <==> list.step(signal, restarted).1 is Yield,
{
    match list.phase {
        AllowPhaseView::Idle => {
            if list.results.len() > 0 {
                lemma_results_aside(list, list.deliver().0);
            } else {
                lemma_visit_is_sound(list, list.domains.len(), false, restarted);
            }
        },
        AllowPhaseView::Visit { left, host, busy } => {
            lemma_visited_attends(list, left, host, busy);
            lemma_hear_is_sound(list, left, host, busy, signal, restarted);
            let (after, answer) = list.hear(left, host, busy, signal, restarted);
            if let Ok(busy) = answer {
                lemma_visit_is_sound(after, left, busy, restarted);
            }
        },
    }
}

/// Whether the state is one that a block list can be in, and is idle exactly if it gives something
/// out.
pub open spec fn block_is_sound<S, F, E>(
    outcome: (BlockState<S, F>, DemandView<S, F, E>),
) -> bool {
    &&& outcome.0.well_formed()
    &&& outcome.0.phase is Idle <==> outcome.1 is Yield
}

proof fn lemma_block_advance_is_sound<S, F, E>(list: BlockState<S, F>, left: nat)
    requires
        list.entering(BlockPhaseView::Idle).well_formed(),
        left <= list.in_flight.len(),
        running_from(list.in_flight, left),
        sent_from(list.robots_tasks, 0),
    ensures
        block_is_sound(list.advance::<E>(left)),
{
}

proof fn lemma_hand_out_is_sound<S, F, E>(list: BlockState<S, F>, left: nat, came: bool)
    requires
        list.entering(BlockPhaseView::Idle).well_formed(),
        left <= list.robots_tasks.len(),
        sent_from(list.robots_tasks, left),
    ensures
        ({
            let found = last_unsent(list.robots_tasks, left);
            if found == 0 {
                sent_from(list.robots_tasks, 0)
            } else {
                block_is_sound(list.hand_out::<E>(found, came))
            }
        }),
{
    lemma_last_unsent(list.robots_tasks, left);
}

proof fn lemma_ask_is_sound<S, F, E>(list: BlockState<S, F>, left: nat)
    requires
        list.entering(BlockPhaseView::Idle).well_formed(),
        left <= list.robots_tasks.len(),
        sent_from(list.robots_tasks, left),
    ensures
        block_is_sound(list.ask::<E>(left)),
{
    lemma_hand_out_is_sound::<S, F, E>(list, left, false);
    if last_unsent(list.robots_tasks, left) == 0 {
        lemma_block_advance_is_sound::<S, F, E>(list, list.in_flight.len());
    }
}

proof fn lemma_ask_again_is_sound<S, F, E>(list: BlockState<S, F>, left: nat)
    requires
        list.entering(BlockPhaseView::Idle).well_formed(),
        left <= list.robots_tasks.len(),
        sent_from(list.robots_tasks, left),
    ensures
        block_is_sound(list.ask_again::<E>(left)),
{
    lemma_hand_out_is_sound::<S, F, E>(list, left, true);
    lemma_block_pull_is_sound::<S, F, E>(list, list.queue.queued.len());
}

proof fn lemma_block_pull_is_sound<S, F, E>(list: BlockState<S, F>, left: nat)
    requires
        list.entering(BlockPhaseView::Idle).well_formed(),
    ensures
        block_is_sound(list.pull::<E>(left)),
    decreases left, 0nat,
{
    if left == 0 || !list.has_room() {
        lemma_ask_is_sound::<S, F, E>(list, list.robots_tasks.len());
    } else {
        let (queue, next) = list.queue.poll_next();
        let rest = BlockState { queue, ..list };
        match next {
            NextRequest::Empty => {
                lemma_block_pull_is_sound::<S, F, E>(rest, (left - 1) as nat);
            },
            NextRequest::Wait(_) => {},
            NextRequest::Send(request) => {
                lemma_block_dispatch_is_sound::<S, F, E>(rest, request, (left - 1) as nat);
            },
        }
    }
}

proof fn lemma_block_dispatch_is_sound<S, F, E>(
    list: BlockState<S, F>,
    request: QueuedRequest<S>,
    left: nat,
)
    requires
        list.entering(BlockPhaseView::Idle).well_formed(),
        list.has_room(),
        request.depth <= list.max_depth,
    ensures
        block_is_sound(list.dispatch::<E>(request, left)),
    decreases left, 1nat,
{
    let (rest, refused) = list.take_up(request);
    assert(rest.entering(BlockPhaseView::Idle).well_formed());
    if refused is None {
        lemma_block_pull_is_sound::<S, F, E>(rest, left);
    }
}

proof fn lemma_visit_robots_is_sound<S, F, E>(list: BlockState<S, F>, left: nat)
    requires
        list.entering(BlockPhaseView::Idle).well_formed(),
        left <= list.robots_tasks.len(),
    ensures
        block_is_sound(list.visit_robots::<E>(left)),
{
    lemma_block_pull_is_sound::<S, F, E>(list, list.queue.queued.len());
}

/// A block list stays in a state that it can be in, whatever it is told; in particular no request
/// that it holds ever lies deeper than allowed, and no more requests are ever in flight than may be
/// at once. It waits to be asked for the next result exactly if it has just given something out.
pub proof fn law_block_list_stays_well_formed<S, F, E>(
    list: BlockState<S, F>,
    signal: Signal<S, F, E>,
    restarted: Timer,
)
    requires
        list.well_formed(),
        list.expects(signal),
    ensures
        list.step(signal, restarted).0.well_formed(),
        list.step(signal, restarted).0.phase is Idle <==> list.step(signal, restarted).1 is Yield,
{
    match (list.phase, signal) {
        (BlockPhaseView::Robots(left, host), Signal::Robots(news)) => {
            let rest = match news {
                RobotsNews::Pending(task) => list.awaiting(host, task),
                RobotsNews::Ready(Ok(data)) => list.knowing(host, data@),
                RobotsNews::Ready(Err(_)) => list,
            };
            lemma_visit_robots_is_sound::<S, F, E>(rest, left);
        },
        (BlockPhaseView::Asked(left, host, came), Signal::Robots(news)) => {
            let rest = match news {
                RobotsNews::Pending(task) => list.awaiting(host, task),
                RobotsNews::Ready(Ok(data)) => list.knowing(host, data@),
                RobotsNews::Ready(Err(_)) => list,
            };
            lemma_ask_is_sound::<S, F, E>(rest, left);
            lemma_ask_again_is_sound::<S, F, E>(rest, left);
        },
        (BlockPhaseView::Timer(left), Signal::Timer(timer, elapsed)) => {
            let (queue, next) = list.queue.resume(timer, elapsed, restarted);
            let rest = BlockState { queue, ..list };
            match next {
                None => {
                    lemma_block_pull_is_sound::<S, F, E>(rest, left);
                },
                Some(request) => {
                    lemma_block_dispatch_is_sound::<S, F, E>(rest, request, left);
                },
            }
        },
        (BlockPhaseView::Advance(left, ticket), Signal::Fetch(news)) => {
            if let Fetched::Waiting(flight) = fetched::<S, F, E>(
                ticket,
                news,
                list.skip_non_successful_responses,
            ) {
                let joined = BlockState { in_flight: list.in_flight.push(flight), ..list };
                lemma_block_advance_is_sound::<S, F, E>(joined, left);
            }
        },
        _ => {
            lemma_visit_robots_is_sound::<S, F, E>(list, list.robots_tasks.len());
        },
    }
}

/// A list of domains stays in a state that it can be in, whatever it is told. It waits to be asked
/// for the next result exactly if it has just given something out.
pub proof fn law_listing_stays_well_formed<S, F, E>(
    list: ListingState<S, F, E>,
    signal: Signal<S, F, E>,
    restarted: Timer,
)
    requires
        list.well_formed(),
        list.expects(signal),
    ensures
        list.step(signal, restarted).0.well_formed(),
        list.step(signal, restarted).0.is_idle() <==> list.step(signal, restarted).1 is Yield,
{
    match list {
        ListingState::AllowList(list) => {
            law_allow_list_stays_well_formed(list, signal, restarted);
        },
        ListingState::BlockList(list) => {
            law_block_list_stays_well_formed(list, signal, restarted);
        },
    }
}

/// A list of domains stays in a state that it can be in when every result at hand is taken from it.
pub proof fn law_drained_listing_is_well_formed<S, F, E>(
    list: ListingState<S, F, E>,
    signal: Signal<S, F, E>,
    restarted: Timer,
)
    requires
        list.well_formed(),
        list.expects(signal),
    ensures
        ({
            let drained = list.drain(signal, restarted);
            &&& drained.list.well_formed()
            &&& drained.list.is_idle() <==> drained.demand is Yield
            &&& !(drained.demand matches DemandView::Yield(Progress::Item(_)))
        }),
    decreases
            2 * list.load() + if signal is Poll {
                0int
            } else {
                1int
            },
{
    lemma_poll_finds_idle(list, signal);
    law_listing_stays_well_formed(list, signal, restarted);
    lemma_listing_uses_up(list, signal, restarted);
    let (next, demand) = list.step(signal, restarted);
    if demand matches DemandView::Yield(Progress::Item(_)) {
        law_drained_listing_is_well_formed(next, Signal::Poll, restarted);
    }
}

/// A list that waits to be asked for the next result is idle, and no more domains are still to be
/// looked after than there are.
pub proof fn lemma_poll_finds_idle<S, F, E>(list: ListingState<S, F, E>, signal: Signal<S, F, E>)
    requires
        list.well_formed(),
        list.expects(signal),
    ensures
        list.is_bounded(),
        signal is Poll ==> list.is_idle(),
{
    if let ListingState::AllowList(allow) = list {
        if let AllowPhaseView::Visit { host, .. } = allow.phase {
            assert(allow.allowed.contains_key(host));
            assert(allow.visits(host));
            assert(allow.allowed[host].phase !is Idle);
        }
    }
}

proof fn lemma_ask_list_is_sound<O, S, F, E>(
    crawler: CrawlerState<O, S, F, E>,
    signal: Signal<S, F, E>,
    restarted: Timer,
)
    requires
        crawler.list.well_formed(),
        crawler.list.expects(signal),
    ensures
        ({
            let (after, demand) = crawler.ask_list(signal, restarted);
            &&& after.well_formed()
            &&& after.phase is Idle <==> demand is Yield
        }),
{
    law_drained_listing_is_well_formed(crawler.list, signal, restarted);
}

proof fn lemma_visit_crawls_is_sound<O, S, F, E>(
    crawler: CrawlerState<O, S, F, E>,
    left: nat,
    restarted: Timer,
)
    requires
        crawler.entering(CrawlerPhaseView::Idle).well_formed(),
        left <= crawler.crawls.len(),
    ensures
        ({
            let (after, demand) = crawler.visit_crawls(left, restarted);
            &&& after.well_formed()
            &&& after.phase is Idle <==> demand is Yield
        }),
{
    if left == 0 {
        lemma_ask_list_is_sound(crawler, Signal::Poll, restarted);
    }
}

proof fn lemma_visit_outputs_is_sound<O, S, F, E>(
    crawler: CrawlerState<O, S, F, E>,
    left: nat,
    restarted: Timer,
)
    requires
        crawler.entering(CrawlerPhaseView::Idle).well_formed(),
        left <= crawler.outputs.len(),
    ensures
        ({
            let (after, demand) = crawler.visit_outputs(left, restarted);
            &&& after.well_formed()
            &&& after.phase is Idle <==> demand is Yield
        }),
{
    if left == 0 {
        lemma_visit_crawls_is_sound(crawler, crawler.crawls.len(), restarted);
    }
}

/// A crawler stays in a state that it can be in, whatever it is told. It waits to be asked for the
/// next result exactly if it has just given something out.
pub proof fn law_crawler_stays_well_formed<O, S, F, E>(
    crawler: CrawlerState<O, S, F, E>,
    signal: CrawlerSignal<O, S, F, E>,
    restarted: Timer,
)
    requires
        crawler.well_formed(),
        crawler.expects(signal),
    ensures
        crawler.step(signal, restarted).0.well_formed(),
        crawler.step(signal, restarted).0.phase is Idle <==> crawler.step(signal, restarted).1
            is Yield,
{
    match (crawler.phase, signal) {
        (CrawlerPhaseView::Output(left), CrawlerSignal::Output(news)) => {
            let rest = match news {
                OutputNews::Pending(task) => CrawlerState {
                    outputs: crawler.outputs.push(task),
                    ..crawler
                },
                OutputNews::Ready(Ok(Some(output))) => crawler.gaining(
                    CrawlResult::Finished(Ok(output)),
                ),
                OutputNews::Ready(Ok(None)) => crawler,
                OutputNews::Ready(Err(error)) => crawler.gaining(
                    CrawlResult::Finished(Err(Failure::Outside(error))),
                ),
            };
            lemma_visit_outputs_is_sound(rest, left, restarted);
        },
        (CrawlerPhaseView::Crawl(left, depth), CrawlerSignal::Crawl(news)) => {
            let rest = match news {
                CrawlNews::Pending(task) => CrawlerState {
                    crawls: crawler.crawls.push((depth, task)),
                    ..crawler
                },
                CrawlNews::Ready(Ok((reply, state))) => crawler.gaining(
                    CrawlResult::Crawled(Ok(injected_response(depth, reply, state))),
                ),
                CrawlNews::Ready(Err(error)) => crawler.gaining(
                    CrawlResult::Crawled(Err(Failure::Outside(error))),
                ),
                CrawlNews::Unread(url, cause, state) => crawler.gaining(
                    CrawlResult::Crawled(Err(Failure::Crawl(unread(url, cause, state)))),
                ),
            };
            lemma_visit_crawls_is_sound(rest, left, restarted);
        },
        (CrawlerPhaseView::List, CrawlerSignal::List(signal)) => {
            lemma_ask_list_is_sound(crawler, signal, restarted);
        },
        _ => {
            lemma_visit_outputs_is_sound(crawler, crawler.outputs.len(), restarted);
        },
    }
}

} // verus!
