//! The list that decides where requests may go.
use crate::allow_list::{lemma_begin_needs_no_timer, lemma_list_uses_up, AllowList, AllowState};
use crate::block_list::{lemma_block_uses_up, BlockList, BlockState};
use crate::error::{CrawlError, Failure};
use crate::fetch::{Demand, DemandView, Progress, Signal};
use crate::requests::{QueuedRequest, QueuedRequestBuilder};
use crate::response::Response;
use crate::time::Timer;
use crate::web::{build_page, builds_page, PageRequest};
use std::collections::VecDeque;
use vstd::prelude::*;

verus! {

/// Either a list that only allows a set of domains or one that disallows a set of domains.
pub enum DomainListing<S, F, E> {
    /// Requests may go to these domains only.
    AllowList(AllowList<S, F, E>),
    /// Requests may go to any domain but these.
    BlockList(BlockList<S, F>),
}

/// What a [DomainListing] holds.
pub enum ListingState<S, F, E> {
    /// Requests may go to these domains only.
    AllowList(AllowState<S, F, E>),
    /// Requests may go to any domain but these.
    BlockList(BlockState<S, F>),
}

impl<S, F, E> View for DomainListing<S, F, E> {
    type V = ListingState<S, F, E>;

    open spec fn view(&self) -> ListingState<S, F, E> {
        match *self {
            DomainListing::AllowList(list) => ListingState::AllowList(list@),
            DomainListing::BlockList(list) => ListingState::BlockList(list@),
        }
    }
}

impl<S, F, E> ListingState<S, F, E> {
    /// Whether the state is one that a list can be in.
    pub open spec fn well_formed(self) -> bool {
        match self {
            ListingState::AllowList(list) => list.well_formed(),
            ListingState::BlockList(list) => list.well_formed(),
        }
    }

    /// Whether the list waits for somebody to want the next result.
    pub open spec fn is_idle(self) -> bool {
        match self {
            ListingState::AllowList(list) => list.phase is Idle,
            ListingState::BlockList(list) => list.phase is Idle,
        }
    }

    /// How much there is at most to be given out without anything being done outside.
    pub open spec fn load(self) -> nat {
        match self {
            ListingState::AllowList(list) => list.load(),
            ListingState::BlockList(list) => list.queue.queued.len(),
        }
    }

    /// Whether no more domains are still to be looked after than there are.
    pub open spec fn is_bounded(self) -> bool {
        match self {
            ListingState::AllowList(list) => list.is_bounded(),
            ListingState::BlockList(_) => true,
        }
    }

    /// Whether the list is waiting for such a signal.
    pub open spec fn expects(self, signal: Signal<S, F, E>) -> bool {
        match self {
            ListingState::AllowList(list) => list.expects(signal),
            ListingState::BlockList(list) => list.expects(signal),
        }
    }

    /// The list when a request is put in, and whether it was taken.
    pub open spec fn add_request(self, request: QueuedRequest<S>) -> (
        Self,
        Result<(), CrawlError<S>>,
    ) {
        match self {
            ListingState::AllowList(list) => {
                let (list, added) = list.add_request(request);
                (ListingState::AllowList(list), added)
            },
            ListingState::BlockList(list) => {
                let (list, added) = list.add_request(request);
                (ListingState::BlockList(list), added)
            },
        }
    }

    /// The list when a request is put in that may have failed to come about.
    pub open spec fn add_built(
        self,
        built: Result<PageRequest, reqwest::Error>,
        state: Option<S>,
        depth: usize,
    ) -> (Self, Result<(), CrawlError<S>>) {
        match built {
            Ok(request) => self.add_request(QueuedRequest { request, state, depth }),
            Err(error) => (self, Err(CrawlError::FailedToBuildRequest { error, state, depth })),
        }
    }

    /// What a signal does; a timer that has run out runs on as `restarted`.
    pub open spec fn step(self, signal: Signal<S, F, E>, restarted: Timer) -> (
        Self,
        DemandView<S, F, E>,
    ) {
        match self {
            ListingState::AllowList(list) => {
                let (list, demand) = list.step(signal, restarted);
                (ListingState::AllowList(list), demand)
            },
            ListingState::BlockList(list) => {
                let (list, demand) = list.step(signal, restarted);
                (ListingState::BlockList(list), demand)
            },
        }
    }

    /// Whether a timer may run on as `restarted` after that signal.
    pub open spec fn may_restart(self, signal: Signal<S, F, E>, restarted: Timer) -> bool {
        match self {
            ListingState::AllowList(list) => list.may_restart(signal, restarted),
            ListingState::BlockList(list) => list.may_restart(signal, restarted),
        }
    }
}

impl<S, F, E> DomainListing<S, F, E> {
    /// Puts a request together and puts it in.
    ///
    /// Whatever the builder comes to, [add_built](DomainListing::add_built) says what becomes of it.
    pub fn add_request(&mut self, request: QueuedRequestBuilder<S>) -> (added: Result<
        (),
        CrawlError<S>,
    >)
        ensures
            exists|built: Result<PageRequest, reqwest::Error>|
                builds_page(request.request, built) && (final(self)@, added) == #[trigger] old(
                    self,
                )@.add_built(built, request.state, request.depth),
            old(self)@.well_formed() ==> final(self)@.well_formed(),
            final(self)@.is_idle() == old(self)@.is_idle(),
    {
        let QueuedRequestBuilder { request, state, depth } = request;
        self.add_built(build_page(request), state, depth)
    }

    /// Puts in a request that may have failed to come about: one that did is refused.
    pub fn add_built(
        &mut self,
        built: Result<PageRequest, reqwest::Error>,
        state: Option<S>,
        depth: usize,
    ) -> (added: Result<(), CrawlError<S>>)
        ensures
            (final(self)@, added) == old(self)@.add_built(built, state, depth),
            old(self)@.well_formed() ==> final(self)@.well_formed(),
            final(self)@.is_idle() == old(self)@.is_idle(),
    {
        match built {
            Ok(request) => {
                let queued = QueuedRequest { request, state, depth };
                match self {
                    DomainListing::AllowList(list) => list.add_request(queued),
                    DomainListing::BlockList(list) => list.add_request(queued),
                }
            },
            Err(error) => Err(CrawlError::FailedToBuildRequest { error, state, depth }),
        }
    }

    /// Whether the list is waiting for such a signal.
    pub fn accepts(&self, signal: &Signal<S, F, E>) -> (accepted: bool)
        requires
            self@.well_formed(),
        ensures
            accepted == self@.expects(*signal),
    {
        match self {
            DomainListing::AllowList(list) => list.accepts(signal),
            DomainListing::BlockList(list) => list.accepts(signal),
        }
    }

    /// Takes a signal in and says what is to be done next.
    pub fn step(&mut self, signal: Signal<S, F, E>) -> (demand: Demand<S, F, E>)
        requires
            old(self)@.well_formed(),
            old(self)@.expects(signal),
        ensures
            exists|restarted: Timer|
                old(self)@.may_restart(signal, restarted) && (final(self)@, demand@)
                    == #[trigger] old(self)@.step(signal, restarted),
            final(self)@.well_formed(),
            final(self)@.is_idle() <==> demand@ is Yield,
    {
        let ghost before = self@;
        let demand;
        match self {
            DomainListing::AllowList(list) => {
                demand = list.step(signal);
            },
            DomainListing::BlockList(list) => {
                demand = list.step(signal);
            },
        }
        proof {
            match before {
                ListingState::AllowList(list) => {
                    let restarted = choose|restarted: Timer|
                        list.may_restart(signal, restarted) && (self@->AllowList_0, demand@)
                            == #[trigger] list.step(signal, restarted);
                    assert((self@, demand@) == before.step(signal, restarted));
                },
                ListingState::BlockList(list) => {
                    let restarted = choose|restarted: Timer|
                        list.may_restart(signal, restarted) && (self@->BlockList_0, demand@)
                            == #[trigger] list.step(signal, restarted);
                    assert((self@, demand@) == before.step(signal, restarted));
                },
            }
        }
        demand
    }
}

/// No result is given out at once, without anything being done outside, but for a result or a
/// waiting request that was there.
pub proof fn lemma_listing_uses_up<S, F, E>(
    state: ListingState<S, F, E>,
    signal: Signal<S, F, E>,
    restarted: Timer,
)
    requires
        state.is_bounded(),
        signal is Poll ==> state.is_idle(),
    ensures
        ({
            let (after, demand) = state.step(signal, restarted);
            &&& after.is_bounded()
            &&& demand matches DemandView::Yield(Progress::Item(_)) ==> after.is_idle()
                && after.load() < state.load() + if signal is Poll {
                0nat
            } else {
                1nat
            }
        }),
{
    match state {
        ListingState::AllowList(list) => {
            lemma_list_uses_up(list, signal, restarted);
        },
        ListingState::BlockList(list) => {
            lemma_block_uses_up(list, signal, restarted);
        },
    }
}

/// What a list has come to once every result that is at hand has been taken from it.
#[verifier::ext_equal]
pub struct ListDrained<S, F, E> {
    /// The list.
    pub list: ListingState<S, F, E>,
    /// The results, in their order.
    pub items: Seq<Result<Response<S>, Failure<S, E>>>,
    /// What the list wants done before there can be more.
    pub demand: DemandView<S, F, E>,
}

impl<S, F, E> ListingState<S, F, E> {
    /// Takes in a signal, and takes every result that is at hand.
    pub open spec fn drain(self, signal: Signal<S, F, E>, restarted: Timer) -> ListDrained<S, F, E>
        decreases
                2 * self.load() + if signal is Poll {
                    0int
                } else {
                    1int
                },
            when self.is_bounded() && (signal is Poll ==> self.is_idle())
    {
        let (list, demand) = self.step(signal, restarted);
        match demand {
            DemandView::Yield(Progress::Item(item)) => {
                proof {
                    lemma_listing_uses_up(self, signal, restarted);
                }
                let rest = list.drain(Signal::Poll, restarted);
                ListDrained { items: seq![item] + rest.items, ..rest }
            },
            _ => ListDrained { list, items: Seq::empty(), demand },
        }
    }
}

/// What a list answers to a wish for the next result does not depend on a timer's return.
proof fn lemma_poll_needs_no_timer<S, F, E>(
    list: ListingState<S, F, E>,
    first: Timer,
    second: Timer,
)
    requires
        list.is_idle(),
    ensures
        list.step(Signal::Poll, first) == list.step(Signal::Poll, second),
{
    match list {
        ListingState::AllowList(list) => {
            lemma_begin_needs_no_timer(list, first, second);
        },
        ListingState::BlockList(_) => {},
    }
}

/// What is taken on a wish for the next result does not depend on a timer's return.
pub proof fn lemma_drain_needs_no_timer<S, F, E>(
    list: ListingState<S, F, E>,
    first: Timer,
    second: Timer,
)
    requires
        list.is_bounded(),
        list.is_idle(),
    ensures
        list.drain(Signal::Poll, first) == list.drain(Signal::Poll, second),
    decreases list.load(),
{
    lemma_poll_needs_no_timer(list, first, second);
    lemma_listing_uses_up(list, Signal::Poll, first);
    let (next, demand) = list.step(Signal::Poll, first);
    if demand matches DemandView::Yield(Progress::Item(_)) {
        lemma_drain_needs_no_timer(next, first, second);
    }
}

impl<S, F, E> DomainListing<S, F, E> {
    /// Takes a signal in and takes every result that is at hand, until the list wants something
    /// done, or has nothing more to give.
    pub fn drain(&mut self, signal: Signal<S, F, E>) -> (outcome: (
        VecDeque<Result<Response<S>, Failure<S, E>>>,
        Demand<S, F, E>,
    ))
        requires
            old(self)@.well_formed(),
            old(self)@.expects(signal),
        ensures
            exists|restarted: Timer|
                old(self)@.may_restart(signal, restarted) && #[trigger] old(self)@.drain(
                    signal,
                    restarted,
                ) == (ListDrained {
                    list: final(self)@,
                    items: outcome.0@,
                    demand: outcome.1@,
                }),
            final(self)@.well_formed(),
            final(self)@.is_idle() <==> outcome.1@ is Yield,
            !(outcome.1@ matches DemandView::Yield(Progress::Item(_))),
    {
        let mut results: VecDeque<Result<Response<S>, Failure<S, E>>> = VecDeque::new();
        let mut demand = self.step(signal);
        let ghost restarted = choose|restarted: Timer|
            old(self)@.may_restart(signal, restarted) && (self@, demand@) == #[trigger] old(
                self,
            )@.step(signal, restarted);
        let ghost drained = old(self)@.drain(signal, restarted);
        loop
            invariant_except_break
                self@.well_formed(),
                self@.is_idle() <==> demand@ is Yield,
                ({
                    let rest = self@.drain(Signal::Poll, restarted);
                    match demand@ {
                        DemandView::Yield(Progress::Item(item)) => {
                            &&& drained.list == rest.list
                            &&& drained.items == results@ + (seq![item] + rest.items)
                            &&& drained.demand == rest.demand
                        },
                        _ => {
                            &&& drained.list == self@
                            &&& drained.items == results@
                            &&& drained.demand == demand@
                        },
                    }
                }),
            ensures
                self@.well_formed(),
                self@.is_idle() <==> demand@ is Yield,
                !(demand@ matches DemandView::Yield(Progress::Item(_))),
                drained.list == self@,
                drained.items == results@,
                drained.demand == demand@,
            decreases
                    self@.load(),
                    if demand@ matches DemandView::Yield(Progress::Item(_)) {
                        1int
                    } else {
                        0int
                    },
        {
            match demand {
                Demand::Yield(Progress::Item(item)) => {
                    let ghost (list, taken) = (self@, results@);
                    results.push_back(item);
                    demand = self.step(Signal::Poll);
                    proof {
                        let used = choose|used: Timer|
                            (self@, demand@) == #[trigger] list.step(Signal::Poll, used);
                        lemma_poll_needs_no_timer(list, used, restarted);
                        lemma_listing_uses_up(list, Signal::Poll, restarted);
                        let rest = list.drain(Signal::Poll, restarted);
                        assert(taken + (seq![item] + rest.items) =~= taken.push(item)
                            + rest.items);
                    }
                    if !is_item(&demand) {
                        break;
                    }
                },
                other => {
                    demand = other;
                    break;
                },
            }
        }
        (results, demand)
    }
}

/// Whether a result is given out.
fn is_item<S, F, E>(demand: &Demand<S, F, E>) -> (item: bool)
    ensures
        item == (demand@ matches DemandView::Yield(Progress::Item(_))),
{
    match demand {
        Demand::Yield(Progress::Item(_)) => true,
        _ => false,
    }
}

} // verus!
