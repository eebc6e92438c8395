//! Whoever waits is woken: nobody is told to wait while something is left that nobody has sent.
use crate::allow_list::{lemma_taken_out, AllowPhaseView, AllowState};
use crate::allowed_domain::{all_running, lemma_step_uses_up, DomainState};
use crate::block_list::{
    lemma_last_unsent, running_from, sent_from, BlockPhaseView, BlockState,
};
use crate::crawler::{
    CrawlerDemandView, CrawlerPhaseView, CrawlerProgress, CrawlerSignal, CrawlerState,
};
use crate::domain::{lemma_listing_uses_up, ListingState};
use crate::fetch::{swap_removed, DemandView, Progress, RobotsNews, RobotsTaskView, Signal};
use crate::laws::invariants::{
    law_domain_stays_well_formed, law_listing_stays_well_formed, lemma_hear_is_sound,
    lemma_poll_finds_idle, lemma_visited_attends,
};
use crate::requests::{NextRequest, QueuedRequest};
use crate::time::Timer;
use vstd::prelude::*;

verus! {

/// Whether somebody is told that there is no result: none yet, or none any more.
pub open spec fn stops<S, F, E>(demand: DemandView<S, F, E>) -> bool {
    demand matches DemandView::Yield(progress) && progress !is Item
}

impl<S, F> BlockState<S, F> {
    /// Whether every request for a `robots.txt` and every request in flight has been sent.
    pub open spec fn all_sent(self) -> bool {
        sent_from(self.robots_tasks, 0) && running_from(self.in_flight, 0)
    }
}

/// Whether a list has sent everything if it says that there is no result.
pub open spec fn waits_on_sent<S, F, E>(
    outcome: (BlockState<S, F>, DemandView<S, F, E>),
) -> bool {
    stops(outcome.1) ==> outcome.0.all_sent()
}

proof fn lemma_ask_waits<S, F, E>(list: BlockState<S, F>, left: nat)
    requires
        left <= list.robots_tasks.len(),
        sent_from(list.robots_tasks, left),
    ensures
        waits_on_sent(list.ask::<E>(left)),
{
    lemma_last_unsent(list.robots_tasks, left);
}

proof fn lemma_pull_waits<S, F, E>(list: BlockState<S, F>, left: nat)
    ensures
        waits_on_sent(list.pull::<E>(left)),
    decreases left, 0nat,
{
    if left == 0 || !list.has_room() {
        lemma_ask_waits::<S, F, E>(list, list.robots_tasks.len());
    } else {
        let (queue, next) = list.queue.poll_next();
        let rest = BlockState { queue, ..list };
        match next {
            NextRequest::Empty => {
                lemma_pull_waits::<S, F, E>(rest, (left - 1) as nat);
            },
            NextRequest::Wait(_) => {},
            NextRequest::Send(request) => {
                lemma_dispatch_waits::<S, F, E>(rest, request, (left - 1) as nat);
            },
        }
    }
}

proof fn lemma_dispatch_waits<S, F, E>(
    list: BlockState<S, F>,
    request: QueuedRequest<S>,
    left: nat,
)
    ensures
        waits_on_sent(list.dispatch::<E>(request, left)),
    decreases left, 1nat,
{
    let (rest, refused) = list.take_up(request);
    if refused is None {
        lemma_pull_waits::<S, F, E>(rest, left);
    }
}

/// A block list says that there is no result only once every request for a `robots.txt` and every
/// request in flight has been sent, so that the answer to one of them ends the waiting.
pub proof fn law_pending_block_list_has_all_sent<S, F, E>(
    list: BlockState<S, F>,
    signal: Signal<S, F, E>,
    restarted: Timer,
)
    requires
        list.well_formed(),
        list.expects(signal),
    ensures
        ({
            let (after, demand) = list.step(signal, restarted);
            stops(demand) ==> after.all_sent()
        }),
{
    match (list.phase, signal) {
        (BlockPhaseView::Robots(_, host), Signal::Robots(news)) => {
            let rest = match news {
                RobotsNews::Pending(task) => list.awaiting(host, task),
                RobotsNews::Ready(Ok(data)) => list.knowing(host, data@),
                RobotsNews::Ready(Err(_)) => list,
            };
            lemma_pull_waits::<S, F, E>(rest, rest.queue.queued.len());
        },
        (BlockPhaseView::Asked(left, host, _), Signal::Robots(news)) => {
            let rest = match news {
                RobotsNews::Pending(task) => list.awaiting(host, task),
                RobotsNews::Ready(Ok(data)) => list.knowing(host, data@),
                RobotsNews::Ready(Err(_)) => list,
            };
            lemma_ask_waits::<S, F, E>(rest, left);
            lemma_pull_waits::<S, F, E>(rest, rest.queue.queued.len());
        },
        (BlockPhaseView::Timer(left), Signal::Timer(timer, elapsed)) => {
            let (queue, next) = list.queue.resume(timer, elapsed, restarted);
            let rest = BlockState { queue, ..list };
            match next {
                None => {
                    lemma_pull_waits::<S, F, E>(rest, left);
                },
                Some(request) => {
                    lemma_dispatch_waits::<S, F, E>(rest, request, left);
                },
            }
        },
        (BlockPhaseView::Advance(_, _), Signal::Fetch(_)) => {},
        _ => {
            lemma_pull_waits::<S, F, E>(list, list.queue.queued.len());
        },
    }
}

impl<S, F> DomainState<S, F> {
    /// Whether no request for the `robots.txt` is left that was not sent.
    pub open spec fn is_asked(self) -> bool {
        !(self.robots_task matches Some(RobotsTaskView::Fetch(_, _)))
    }
}

/// A domain says that there is no result only once the request for the `robots.txt` and every request
/// in flight has been sent, so that the answer to one of them ends the waiting. What was put in
/// while the domain was being looked after is left to the next time.
pub proof fn law_pending_domain_has_all_sent<S, F, E>(
    domain: DomainState<S, F>,
    signal: Signal<S, F, E>,
    restarted: Timer,
)
    requires
        domain.well_formed(),
        domain.expects(signal),
        domain.phase is Idle || domain.is_asked(),
    ensures
        ({
            let (after, demand) = domain.step(signal, restarted);
            &&& after.is_asked()
            &&& stops(demand) ==> all_running(after.in_flight)
        }),
{
}

proof fn lemma_drain_asks<S, F, E>(
    domain: DomainState<S, F>,
    signal: Signal<S, F, E>,
    restarted: Timer,
)
    requires
        domain.well_formed(),
        domain.expects(signal),
        domain.phase is Idle || domain.is_asked(),
    ensures
        domain.drain(signal, restarted).domain.is_asked(),
    decreases
            2 * domain.waiting() + if signal is Poll {
                0int
            } else {
                1int
            },
{
    law_domain_stays_well_formed(domain, signal, restarted);
    law_pending_domain_has_all_sent(domain, signal, restarted);
    lemma_step_uses_up(domain, signal, restarted);
    let (next, demand) = domain.step(signal, restarted);
    if demand matches DemandView::Yield(Progress::Item(_)) {
        lemma_drain_asks::<S, F, E>(next, Signal::Poll, restarted);
    }
}

impl<S, F, E> AllowState<S, F, E> {
    /// Whether no request for the `robots.txt` of a domain from the place `left` on is left that was
    /// not sent.
    pub open spec fn asked_from(self, left: nat) -> bool {
        forall|i: int|
            left <= i < self.domains.len() ==> (#[trigger] self.allowed[self.domains[i]]).is_asked()
    }

    /// Whether, while the domains are being looked after, those that have been, and the one that
    /// is, have no request for the `robots.txt` left that was not sent.
    pub open spec fn round_is_asked(self) -> bool {
        self.phase matches AllowPhaseView::Visit { left, host, .. } ==> self.asked_from(left)
            && self.allowed[host].is_asked()
    }

    /// Whether every request for a `robots.txt` and every request in flight has been sent.
    pub open spec fn all_sent(self) -> bool {
        forall|host: Seq<char>| #[trigger]
            self.allowed.contains_key(host) ==> self.allowed[host].is_asked() && all_running(
                self.allowed[host].in_flight,
            )
    }
}

proof fn lemma_hear_asks<S, F, E>(
    list: AllowState<S, F, E>,
    left: nat,
    host: Seq<char>,
    busy: bool,
    signal: Signal<S, F, E>,
    restarted: Timer,
)
    requires
        list.attends(left, host),
        list.allowed[host].expects(signal),
        list.asked_from(left),
        list.allowed[host].phase is Idle || list.allowed[host].is_asked(),
    ensures
        ({
            let (after, answer) = list.hear(left, host, busy, signal, restarted);
            match answer {
                Ok(_) => after.asked_from(left),
                Err(_) => after.round_is_asked(),
            }
        }),
{
    let visit = list.entering(AllowPhaseView::Visit { left, host, busy: false });
    assert(visit.allowed.contains_key(host));
    assert(list.allowed[host].well_formed());
    lemma_drain_asks(list.allowed[host], signal, restarted);
    let (after, _) = list.hear(left, host, busy, signal, restarted);
    assert forall|i: int| left <= i < after.domains.len() implies (
    #[trigger] after.allowed[after.domains[i]]).is_asked() by {
        if i < list.domains.len() {
            assert(after.domains[i] == list.domains[i]);
            assert(list.allowed[list.domains[i]].is_asked());
        }
    }
}

proof fn lemma_visit_asks<S, F, E>(
    list: AllowState<S, F, E>,
    left: nat,
    busy: bool,
    restarted: Timer,
)
    requires
        list.well_formed(),
        list.phase is Idle,
        left <= list.domains.len(),
        list.asked_from(left),
    ensures
        ({
            let (after, demand) = list.visit(left, busy, restarted);
            &&& after.round_is_asked()
            &&& stops(demand) ==> after.all_sent()
        }),
    decreases left,
{
    if left == 0 {
        assert forall|host: Seq<char>| #[trigger]
            list.allowed.contains_key(host) implies list.allowed[host].is_asked() && all_running(
            list.allowed[host].in_flight,
        ) by {
            assert(list.domains.contains(host));
            let i = choose|i: int| 0 <= i < list.domains.len() && list.domains[i] == host;
            assert(list.allowed[list.domains[i]].is_asked());
            assert(list.allowed[host].well_formed());
        }
    } else {
        let last = left - 1;
        let host = list.domains[last];
        let rest = AllowState { domains: swap_removed(list.domains, last), ..list };
        lemma_taken_out(list, rest, last);
        assert(list.allowed.contains_key(list.domains[last]));
        assert(list.allowed[host].well_formed());
        assert forall|i: int| last <= i < rest.domains.len() implies (
        #[trigger] rest.allowed[rest.domains[i]]).is_asked() by {
            if i == last {
                assert(rest.domains[i] == list.domains[list.domains.len() - 1]);
                assert(list.allowed[list.domains[list.domains.len() - 1]].is_asked());
            } else {
                assert(rest.domains[i] == list.domains[i]);
                assert(list.allowed[list.domains[i]].is_asked());
            }
        }
        lemma_hear_is_sound(rest, last as nat, host, busy, Signal::Poll, restarted);
        lemma_hear_asks(rest, last as nat, host, busy, Signal::Poll, restarted);
        let (after, answer) = rest.hear(last as nat, host, busy, Signal::Poll, restarted);
        if let Ok(busy) = answer {
            lemma_visit_asks(after, last as nat, busy, restarted);
        }
    }
}

/// An allow list says that there is no result only once every domain has sent what it had to send.
/// What was put in while the domains were being looked after is left to the next time.
pub proof fn law_pending_allow_list_has_all_sent<S, F, E>(
    list: AllowState<S, F, E>,
    signal: Signal<S, F, E>,
    restarted: Timer,
)
    requires
        list.well_formed(),
        list.expects(signal),
        list.round_is_asked(),
    ensures
        ({
            let (after, demand) = list.step(signal, restarted);
            &&& after.round_is_asked()
            &&& stops(demand) ==> after.all_sent()
        }),
{
    match list.phase {
        AllowPhaseView::Idle => {
            if list.results.len() == 0 {
                lemma_visit_asks(list, list.domains.len(), false, restarted);
            }
        },
        AllowPhaseView::Visit { left, host, busy } => {
            lemma_visited_attends(list, left, host, busy);
            lemma_hear_is_sound(list, left, host, busy, signal, restarted);
            lemma_hear_asks(list, left, host, busy, signal, restarted);
            let (after, answer) = list.hear(left, host, busy, signal, restarted);
            if let Ok(busy) = answer {
                lemma_visit_asks(after, left, busy, restarted);
            }
        },
    }
}

impl<S, F, E> ListingState<S, F, E> {
    /// Whether, while the domains are being looked after, those that have been, and the one that
    /// is, have no request for the `robots.txt` left that was not sent.
    pub open spec fn round_is_asked(self) -> bool {
        match self {
            ListingState::AllowList(list) => list.round_is_asked(),
            ListingState::BlockList(_) => true,
        }
    }

    /// Whether every request for a `robots.txt` and every request in flight has been sent.
    pub open spec fn all_sent(self) -> bool {
        match self {
            ListingState::AllowList(list) => list.all_sent(),
            ListingState::BlockList(list) => list.all_sent(),
        }
    }
}

proof fn lemma_listing_drain_sends_all<S, F, E>(
    list: ListingState<S, F, E>,
    signal: Signal<S, F, E>,
    restarted: Timer,
)
    requires
        list.well_formed(),
        list.expects(signal),
        list.round_is_asked(),
    ensures
        ({
            let drained = list.drain(signal, restarted);
            &&& drained.list.round_is_asked()
            &&& drained.demand is Yield ==> drained.list.all_sent()
        }),
    decreases
            2 * list.load() + if signal is Poll {
                0int
            } else {
                1int
            },
{
    lemma_poll_finds_idle(list, signal);
    law_listing_stays_well_formed(list, signal, restarted);
    lemma_listing_uses_up(list, signal, restarted);
    match list {
        ListingState::AllowList(list) => {
            law_pending_allow_list_has_all_sent(list, signal, restarted);
        },
        ListingState::BlockList(list) => {
            law_pending_block_list_has_all_sent(list, signal, restarted);
        },
    }
    let (next, demand) = list.step(signal, restarted);
    if demand matches DemandView::Yield(Progress::Item(_)) {
        lemma_listing_drain_sends_all(next, Signal::Poll, restarted);
    }
}

/// A crawler tells somebody to wait only once every request for a page and for a `robots.txt` that
/// it has to send has been sent, so that the requests are driven to completion by their answers.
pub proof fn law_pending_crawler_has_all_sent<O, S, F, E>(
    crawler: CrawlerState<O, S, F, E>,
    signal: CrawlerSignal<O, S, F, E>,
    restarted: Timer,
)
    requires
        crawler.well_formed(),
        crawler.expects(signal),
        crawler.list.round_is_asked(),
    ensures
        ({
            let (after, demand) = crawler.step(signal, restarted);
            &&& after.list.round_is_asked()
            &&& demand == CrawlerDemandView::<O, S, F, E>::Yield(CrawlerProgress::Pending)
                ==> after.list.all_sent()
        }),
{
    match (crawler.phase, signal) {
        (CrawlerPhaseView::List, CrawlerSignal::List(signal)) => {
            lemma_listing_drain_sends_all(crawler.list, signal, restarted);
        },
        _ => {
            lemma_listing_drain_sends_all(crawler.list, Signal::Poll, restarted);
        },
    }
}

} // verus!
