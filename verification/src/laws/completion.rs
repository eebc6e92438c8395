//! The end is reached only when there is nothing left to do.
use crate::allow_list::{lemma_taken_out, AllowPhaseView, AllowState};
use crate::allowed_domain::{lemma_step_uses_up, DomainState, PhaseView};
use crate::block_list::{BlockPhaseView, BlockState};
use crate::crawler::{
    CrawlerDemandView, CrawlerPhaseView, CrawlerProgress, CrawlerSignal, CrawlerState,
};
use crate::domain::{lemma_listing_uses_up, ListingState};
use crate::fetch::{swap_removed, DemandView, Progress, RobotsNews, Signal};
use crate::laws::invariants::{
    law_domain_stays_well_formed, law_drained_domain_is_well_formed,
    law_listing_stays_well_formed, lemma_hear_is_sound, lemma_poll_finds_idle,
    lemma_visited_attends,
};
use crate::requests::{NextRequest, QueuedRequest};
use crate::time::Timer;
use vstd::prelude::*;

verus! {

impl<S, F> DomainState<S, F> {
    /// Whether the domain has nothing left to do: no request waits or is in flight, and no
    /// `robots.txt` is on its way.
    pub open spec fn is_drained(self) -> bool {
        &&& self.phase is Idle
        &&& self.queue.queued.len() == 0
        &&& self.buffer is None
        &&& self.in_flight.len() == 0
        &&& self.robots_task is None
    }
}

impl<S, F> BlockState<S, F> {
    /// Whether the list has nothing left to do: no request waits or is in flight, and no
    /// `robots.txt` is on its way.
    pub open spec fn is_drained(self) -> bool {
        &&& self.phase is Idle
        &&& self.queue.queued.len() == 0
        &&& self.in_flight.len() == 0
        &&& self.robots_tasks.len() == 0
    }
}

/// A domain says that it is done only if it has nothing left to do.
pub proof fn law_done_domain_is_drained<S, F, E>(
    domain: DomainState<S, F>,
    signal: Signal<S, F, E>,
    restarted: Timer,
)
    requires
        domain.well_formed(),
        domain.expects(signal),
    ensures
        domain.step(signal, restarted).1 == DemandView::<S, F, E>::Yield(Progress::Done)
            ==> domain.step(signal, restarted).0.is_drained(),
{
}

/// A domain that has nothing left to do says so, and nothing changes in it.
pub proof fn law_drained_domain_is_done<S, F, E>(domain: DomainState<S, F>, restarted: Timer)
    requires
        domain.is_drained(),
    ensures
        domain.step(Signal::<S, F, E>::Poll, restarted) == (
            domain,
            DemandView::<S, F, E>::Yield(Progress::Done),
        ),
{
    assert(domain.entering(PhaseView::Idle) == domain);
}

proof fn lemma_pull_is_done<S, F, E>(list: BlockState<S, F>, left: nat)
    ensures
        list.pull::<E>(left).1 == DemandView::<S, F, E>::Yield(Progress::Done) ==> list.pull::<E>(
            left,
        ).0.is_drained(),
    decreases left, 0nat,
{
    if left > 0 && list.has_room() {
        let (queue, next) = list.queue.poll_next();
        let rest = BlockState { queue, ..list };
        match next {
            NextRequest::Empty => {
                lemma_pull_is_done::<S, F, E>(rest, (left - 1) as nat);
            },
            NextRequest::Wait(_) => {},
            NextRequest::Send(request) => {
                lemma_dispatch_is_done::<S, F, E>(rest, request, (left - 1) as nat);
            },
        }
    }
}

proof fn lemma_dispatch_is_done<S, F, E>(
    list: BlockState<S, F>,
    request: QueuedRequest<S>,
    left: nat,
)
    ensures
        list.dispatch::<E>(request, left).1 == DemandView::<S, F, E>::Yield(Progress::Done)
            ==> list.dispatch::<E>(request, left).0.is_drained(),
    decreases left, 1nat,
{
    let (rest, refused) = list.take_up(request);
    if refused is None {
        lemma_pull_is_done::<S, F, E>(rest, left);
    }
}

/// A block list says that it is done only if it has nothing left to do.
pub proof fn law_done_block_list_is_drained<S, F, E>(
    list: BlockState<S, F>,
    signal: Signal<S, F, E>,
    restarted: Timer,
)
    requires
        list.well_formed(),
        list.expects(signal),
    ensures
        list.step(signal, restarted).1 == DemandView::<S, F, E>::Yield(Progress::Done)
            ==> list.step(signal, restarted).0.is_drained(),
{
    match (list.phase, signal) {
        (BlockPhaseView::Robots(_, host), Signal::Robots(news))
        | (BlockPhaseView::Asked(_, host, _), Signal::Robots(news)) => {
            let rest = match news {
                RobotsNews::Pending(task) => list.awaiting(host, task),
                RobotsNews::Ready(Ok(data)) => list.knowing(host, data@),
                RobotsNews::Ready(Err(_)) => list,
            };
            lemma_pull_is_done::<S, F, E>(rest, rest.queue.queued.len());
        },
        (BlockPhaseView::Timer(left), Signal::Timer(timer, elapsed)) => {
            let (queue, next) = list.queue.resume(timer, elapsed, restarted);
            let rest = BlockState { queue, ..list };
            match next {
                None => {
                    lemma_pull_is_done::<S, F, E>(rest, left);
                },
                Some(request) => {
                    lemma_dispatch_is_done::<S, F, E>(rest, request, left);
                },
            }
        },
        (BlockPhaseView::Advance(_, _), Signal::Fetch(_)) => {},
        _ => {
            lemma_pull_is_done::<S, F, E>(list, list.queue.queued.len());
        },
    }
}

/// Taking every result at hand from a domain ends in its being done only if it has nothing left to
/// do, and leaves a domain that has nothing left to do as it is.
proof fn lemma_drain_is_done<S, F, E>(
    domain: DomainState<S, F>,
    signal: Signal<S, F, E>,
    restarted: Timer,
)
    requires
        domain.well_formed(),
        domain.expects(signal),
    ensures
        domain.drain(signal, restarted).demand == DemandView::<S, F, E>::Yield(Progress::Done)
            ==> domain.drain(signal, restarted).domain.is_drained(),
        domain.is_drained() ==> domain.drain(signal, restarted).domain == domain
            && domain.drain(signal, restarted).demand == DemandView::<S, F, E>::Yield(
            Progress::Done,
        ),
    decreases
            2 * domain.waiting() + if signal is Poll {
                0int
            } else {
                1int
            },
{
    law_done_domain_is_drained(domain, signal, restarted);
    law_domain_stays_well_formed(domain, signal, restarted);
    lemma_step_uses_up(domain, signal, restarted);
    if domain.is_drained() {
        law_drained_domain_is_done::<S, F, E>(domain, restarted);
    }
    let (next, demand) = domain.step(signal, restarted);
    if demand matches DemandView::Yield(Progress::Item(_)) {
        lemma_drain_is_done::<S, F, E>(next, Signal::Poll, restarted);
    }
}

impl<S, F, E> AllowState<S, F, E> {
    /// Whether all domains from the place `left` on have nothing left to do, unless one is known
    /// to be busy.
    pub open spec fn settled(self, left: nat, busy: bool) -> bool {
        !busy ==> forall|i: int|
            left <= i < self.domains.len() ==> (
            #[trigger] self.allowed[self.domains[i]]).is_drained()
    }

    /// Whether, while the domains are being looked after, those that have been are known to have
    /// nothing left to do, unless one is known to be busy.
    pub open spec fn round_is_kept(self) -> bool {
        self.phase matches AllowPhaseView::Visit { left, busy, .. } ==> self.settled(left, busy)
    }

    /// Whether no domain has anything left to do, and no result is left.
    pub open spec fn is_drained(self) -> bool {
        &&& self.phase is Idle
        &&& self.results.len() == 0
        &&& forall|host: Seq<char>| #[trigger]
            self.allowed.contains_key(host) ==> self.allowed[host].is_drained()
    }
}

proof fn lemma_hear_settles<S, F, E>(
    list: AllowState<S, F, E>,
    left: nat,
    host: Seq<char>,
    busy: bool,
    signal: Signal<S, F, E>,
    restarted: Timer,
)
    requires
        list.attends(left, host),
        list.allowed[host].expects(signal),
        list.settled(left, busy),
    ensures
        ({
            let (after, answer) = list.hear(left, host, busy, signal, restarted);
            match answer {
                Ok(busy) => after.settled(left, busy),
                Err(_) => after.round_is_kept(),
            }
        }),
{
    let visit = list.entering(AllowPhaseView::Visit { left, host, busy: false });
    assert(visit.allowed.contains_key(host));
    assert(list.allowed[host].well_formed());
    lemma_drain_is_done(list.allowed[host], signal, restarted);
    law_drained_domain_is_well_formed(list.allowed[host], signal, restarted);
    let (after, answer) = list.hear(left, host, busy, signal, restarted);
    if !busy {
        assert forall|i: int| left <= i < list.domains.len() implies (
        #[trigger] after.allowed[list.domains[i]]).is_drained() by {
            assert(list.allowed[list.domains[i]].is_drained());
        }
    }
    match answer {
        Ok(any) => {
            if !any {
                assert forall|i: int| left <= i < after.domains.len() implies (
                #[trigger] after.allowed[after.domains[i]]).is_drained() by {
                    if i < list.domains.len() {
                        assert(after.domains[i] == list.domains[i]);
                        assert(after.allowed[list.domains[i]].is_drained());
                    }
                }
            }
        },
        Err(_) => {
            if !busy {
                assert forall|i: int| left <= i < after.domains.len() implies (
                #[trigger] after.allowed[after.domains[i]]).is_drained() by {
                    assert(after.allowed[list.domains[i]].is_drained());
                }
            }
        },
    }
}

proof fn lemma_visit_settles<S, F, E>(
    list: AllowState<S, F, E>,
    left: nat,
    busy: bool,
    restarted: Timer,
)
    requires
        list.well_formed(),
        list.phase is Idle,
        left <= list.domains.len(),
        list.settled(left, busy),
    ensures
        ({
            let (after, demand) = list.visit(left, busy, restarted);
            &&& after.round_is_kept()
            &&& demand == DemandView::<S, F, E>::Yield(Progress::Done) ==> after.is_drained()
        }),
    decreases left,
{
    if left == 0 {
        if list.results.len() == 0 && !busy {
            assert forall|host: Seq<char>| #[trigger]
                list.allowed.contains_key(host) implies list.allowed[host].is_drained() by {
                assert(list.domains.contains(host));
                let i = choose|i: int| 0 <= i < list.domains.len() && list.domains[i] == host;
                assert(list.allowed[list.domains[i]].is_drained());
            }
        }
    } else {
        let last = left - 1;
        let host = list.domains[last];
        let rest = AllowState { domains: swap_removed(list.domains, last), ..list };
        lemma_taken_out(list, rest, last);
        assert(list.allowed.contains_key(list.domains[last]));
        assert(list.allowed[host].well_formed());
        if !busy {
            assert forall|i: int| last <= i < rest.domains.len() implies (
            #[trigger] rest.allowed[rest.domains[i]]).is_drained() by {
                if i == last {
                    assert(rest.domains[i] == list.domains[list.domains.len() - 1]);
                    assert(list.allowed[list.domains[list.domains.len() - 1]].is_drained());
                } else {
                    assert(rest.domains[i] == list.domains[i]);
                    assert(list.allowed[list.domains[i]].is_drained());
                }
            }
        }
        lemma_hear_is_sound(rest, last as nat, host, busy, Signal::Poll, restarted);
        lemma_hear_settles(rest, last as nat, host, busy, Signal::Poll, restarted);
        let (after, answer) = rest.hear(last as nat, host, busy, Signal::Poll, restarted);
        if let Ok(busy) = answer {
            lemma_visit_settles(after, last as nat, busy, restarted);
        }
    }
}

/// An allow list says that it is done only if no domain on it has anything left to do and no result
/// is left. What it knows of the domains that have been looked after stays true throughout.
pub proof fn law_done_allow_list_is_drained<S, F, E>(
    list: AllowState<S, F, E>,
    signal: Signal<S, F, E>,
    restarted: Timer,
)
    requires
        list.well_formed(),
        list.expects(signal),
        list.round_is_kept(),
    ensures
        ({
            let (after, demand) = list.step(signal, restarted);
            &&& after.round_is_kept()
            &&& demand == DemandView::<S, F, E>::Yield(Progress::Done) ==> after.is_drained()
        }),
{
    match list.phase {
        AllowPhaseView::Idle => {
            if list.results.len() == 0 {
                lemma_visit_settles(list, list.domains.len(), false, restarted);
            }
        },
        AllowPhaseView::Visit { left, host, busy } => {
            lemma_visited_attends(list, left, host, busy);
            lemma_hear_is_sound(list, left, host, busy, signal, restarted);
            lemma_hear_settles(list, left, host, busy, signal, restarted);
            let (after, answer) = list.hear(left, host, busy, signal, restarted);
            if let Ok(busy) = answer {
                lemma_visit_settles(after, left, busy, restarted);
            }
        },
    }
}

impl<S, F, E> ListingState<S, F, E> {
    /// Whether, while the domains are being looked after, those that have been are known to have
    /// nothing left to do, unless one is known to be busy.
    pub open spec fn round_is_kept(self) -> bool {
        match self {
            ListingState::AllowList(list) => list.round_is_kept(),
            ListingState::BlockList(_) => true,
        }
    }

    /// Whether the list has nothing left to do.
    pub open spec fn is_drained(self) -> bool {
        match self {
            ListingState::AllowList(list) => list.is_drained(),
            ListingState::BlockList(list) => list.is_drained(),
        }
    }
}

/// A list of domains says that it is done only if it has nothing left to do.
pub proof fn law_done_listing_is_drained<S, F, E>(
    list: ListingState<S, F, E>,
    signal: Signal<S, F, E>,
    restarted: Timer,
)
    requires
        list.well_formed(),
        list.expects(signal),
        list.round_is_kept(),
    ensures
        ({
            let (after, demand) = list.step(signal, restarted);
            &&& after.round_is_kept()
            &&& demand == DemandView::<S, F, E>::Yield(Progress::Done) ==> after.is_drained()
        }),
{
    match list {
        ListingState::AllowList(list) => {
            law_done_allow_list_is_drained(list, signal, restarted);
        },
        ListingState::BlockList(list) => {
            law_done_block_list_is_drained(list, signal, restarted);
        },
    }
}

proof fn lemma_listing_drain_is_done<S, F, E>(
    list: ListingState<S, F, E>,
    signal: Signal<S, F, E>,
    restarted: Timer,
)
    requires
        list.well_formed(),
        list.expects(signal),
        list.round_is_kept(),
    ensures
        ({
            let drained = list.drain(signal, restarted);
            &&& drained.list.round_is_kept()
            &&& drained.demand == DemandView::<S, F, E>::Yield(Progress::Done)
                ==> drained.list.is_drained()
            &&& !(drained.demand matches DemandView::Yield(Progress::Item(_)))
        }),
    decreases
            2 * list.load() + if signal is Poll {
                0int
            } else {
                1int
            },
{
    lemma_poll_finds_idle(list, signal);
    law_listing_stays_well_formed(list, signal, restarted);
    law_done_listing_is_drained(list, signal, restarted);
    lemma_listing_uses_up(list, signal, restarted);
    let (next, demand) = list.step(signal, restarted);
    if demand matches DemandView::Yield(Progress::Item(_)) {
        lemma_listing_drain_is_done(next, Signal::Poll, restarted);
    }
}

/// A crawler says that it is done only if no job is left, no result is left and the list of domains
/// has nothing left to do.
pub proof fn law_done_crawler_is_drained<O, S, F, E>(
    crawler: CrawlerState<O, S, F, E>,
    signal: CrawlerSignal<O, S, F, E>,
    restarted: Timer,
)
    requires
        crawler.well_formed(),
        crawler.expects(signal),
        crawler.list.round_is_kept(),
    ensures
        ({
            let (after, demand) = crawler.step(signal, restarted);
            &&& after.list.round_is_kept()
            &&& demand == CrawlerDemandView::<O, S, F, E>::Yield(CrawlerProgress::Done) ==> {
                &&& after.outputs.len() == 0
                &&& after.crawls.len() == 0
                &&& after.results.len() == 0
                &&& after.list.is_drained()
            }
        }),
{
    match (crawler.phase, signal) {
        (CrawlerPhaseView::List, CrawlerSignal::List(signal)) => {
            lemma_listing_drain_is_done(crawler.list, signal, restarted);
        },
        _ => {
            lemma_listing_drain_is_done(crawler.list, Signal::Poll, restarted);
        },
    }
}

} // verus!
