//! What is wanted done is what news is then expected of.
use crate::allow_list::{AllowList, AllowPhaseView, AllowState};
use crate::allowed_domain::{AllowedDomain, DomainState};
use crate::block_list::{BlockList, BlockPhaseView, BlockState};
use crate::crawler::{Crawler, CrawlerDemandView, CrawlerSignal, CrawlerState};
use crate::domain::{DomainListing, ListingState};
use crate::fetch::{DemandView, RobotsNews, Signal};
use crate::requests::{NextRequest, QueuedRequest, RequestDelay};
use crate::time::Timer;
use vstd::prelude::*;

verus! {

/// Whether a delay can be kept: where it is random, its minimum is no longer than its maximum.
pub open spec fn can_be_kept(delay: Option<RequestDelay>) -> bool {
    delay matches Some(RequestDelay::Random { min, max }) ==> min.total_nanos()
        <= max.total_nanos()
}

/// Whether a signal is news of what is wanted done: of a request, of a `robots.txt`, which can be
/// asked if it is there, or of a timer, which may have run out if the delay can be kept. Where
/// nothing is wanted done, the signal is that somebody wants the next result.
pub open spec fn replies<S, F, E>(
    demand: DemandView<S, F, E>,
    delay: Option<RequestDelay>,
    signal: Signal<S, F, E>,
) -> bool {
    match demand {
        DemandView::PollRobots(_) => match signal {
            Signal::Robots(RobotsNews::Ready(Ok(data))) => data@.disallow_all || data@.allow_all
                || data@.groups_exist(),
            Signal::Robots(_) => true,
            _ => false,
        },
        DemandView::PollFetch(_) => signal is Fetch,
        DemandView::PollTimer(_) => signal matches Signal::Timer(_, elapsed) && (elapsed
            ==> can_be_kept(delay)),
        DemandView::Yield(_) => signal is Poll,
    }
}

/// A domain expects just news of what it wants done.
pub proof fn law_domain_expects_replies<S, F, E>(
    domain: DomainState<S, F>,
    signal: Signal<S, F, E>,
    restarted: Timer,
    reply: Signal<S, F, E>,
)
    ensures
        ({
            let (after, demand) = domain.step(signal, restarted);
            after.expects(reply) <==> replies(demand, domain.queue.delay, reply)
        }),
{
}

/// Whether the phase of a block list goes with what it wants done.
pub open spec fn goes_with<S, F, E>(
    after: BlockState<S, F>,
    demand: DemandView<S, F, E>,
    delay: Option<RequestDelay>,
) -> bool {
    &&& after.queue.delay == delay
    &&& match demand {
        DemandView::PollRobots(_) => after.phase is Robots || after.phase is Asked,
        DemandView::PollFetch(_) => after.phase is Advance,
        DemandView::PollTimer(_) => after.phase is Timer,
        DemandView::Yield(_) => after.phase is Idle,
    }
}

proof fn lemma_pull_goes_with<S, F, E>(list: BlockState<S, F>, left: nat)
    ensures
        ({
            let (after, demand) = list.pull::<E>(left);
            goes_with(after, demand, list.queue.delay)
        }),
    decreases left, 0nat,
{
    if left > 0 && list.has_room() {
        let (queue, next) = list.queue.poll_next();
        let rest = BlockState { queue, ..list };
        match next {
            NextRequest::Empty => {
                lemma_pull_goes_with::<S, F, E>(rest, (left - 1) as nat);
            },
            NextRequest::Wait(_) => {},
            NextRequest::Send(request) => {
                lemma_dispatch_goes_with::<S, F, E>(rest, request, (left - 1) as nat);
            },
        }
    }
}

proof fn lemma_dispatch_goes_with<S, F, E>(
    list: BlockState<S, F>,
    request: QueuedRequest<S>,
    left: nat,
)
    ensures
        ({
            let (after, demand) = list.dispatch::<E>(request, left);
            goes_with(after, demand, list.queue.delay)
        }),
    decreases left, 1nat,
{
    let (rest, refused) = list.take_up(request);
    if refused is None {
        lemma_pull_goes_with::<S, F, E>(rest, left);
    }
}

/// A block list expects just news of what it wants done.
pub proof fn law_block_list_expects_replies<S, F, E>(
    list: BlockState<S, F>,
    signal: Signal<S, F, E>,
    restarted: Timer,
    reply: Signal<S, F, E>,
)
    ensures
        ({
            let (after, demand) = list.step(signal, restarted);
            after.expects(reply) <==> replies(demand, list.queue.delay, reply)
        }),
{
    match (list.phase, signal) {
        (BlockPhaseView::Robots(_, host), Signal::Robots(news))
        | (BlockPhaseView::Asked(_, host, _), Signal::Robots(news)) => {
            let rest = match news {
                RobotsNews::Pending(task) => list.awaiting(host, task),
                RobotsNews::Ready(Ok(data)) => list.knowing(host, data@),
                RobotsNews::Ready(Err(_)) => list,
            };
            lemma_pull_goes_with::<S, F, E>(rest, rest.queue.queued.len());
        },
        (BlockPhaseView::Timer(left), Signal::Timer(timer, elapsed)) => {
            let (queue, next) = list.queue.resume(timer, elapsed, restarted);
            let rest = BlockState { queue, ..list };
            match next {
                None => {
                    lemma_pull_goes_with::<S, F, E>(rest, left);
                },
                Some(request) => {
                    lemma_dispatch_goes_with::<S, F, E>(rest, request, left);
                },
            }
        },
        (BlockPhaseView::Advance(_, _), Signal::Fetch(_)) => {},
        _ => {
            lemma_pull_goes_with::<S, F, E>(list, list.queue.queued.len());
        },
    }
    let (after, demand) = list.step(signal, restarted);
    assert(goes_with(after, demand, list.queue.delay));
}

/// An allow list expects just what the domain expects that it is looking after, and that somebody
/// wants the next result while it is looking after none.
pub proof fn law_allow_list_expects_replies<S, F, E>(
    list: AllowState<S, F, E>,
    host: Seq<char>,
    signal: Signal<S, F, E>,
)
    ensures
        list.phase is Idle ==> (list.expects(signal) <==> signal is Poll),
        (list.phase matches AllowPhaseView::Visit { host: visited, .. } && visited == host) ==> (
        list.expects(signal) <==> list.allowed[host].expects(signal)),
        ListingState::AllowList(list).expects(signal) <==> list.expects(signal),
{
}

/// A crawler expects just news of what it wants done: of a job, or of what its list of domains
/// wants done.
pub proof fn law_crawler_expects_replies<O, S, F, E>(
    crawler: CrawlerState<O, S, F, E>,
    signal: CrawlerSignal<O, S, F, E>,
    restarted: Timer,
    reply: CrawlerSignal<O, S, F, E>,
)
    ensures
        ({
            let (after, demand) = crawler.step(signal, restarted);
            after.expects(reply) <==> match demand {
                CrawlerDemandView::PollOutput(_) => reply is Output,
                CrawlerDemandView::PollCrawl(_) => reply is Crawl,
                CrawlerDemandView::List(_) => reply matches CrawlerSignal::List(news)
                    && after.list.expects(news),
                CrawlerDemandView::Yield(_) => reply is Poll,
            }
        }),
{
}

/// Whether a signal is expected can be asked of a domain, of a list and of a crawler.
pub proof fn law_expectations_can_be_asked<O, S, F, E>(
    domain: AllowedDomain<S, F>,
    blocking: BlockList<S, F>,
    allowing: AllowList<S, F, E>,
    list: DomainListing<S, F, E>,
    crawler: Crawler<O, S, F, E>,
    signal: Signal<S, F, E>,
    told: CrawlerSignal<O, S, F, E>,
    answers: (bool, bool, bool, bool, bool),
)
    requires
        call_ensures(AllowedDomain::<S, F>::accepts::<E>, (&domain, &signal), answers.0),
        call_ensures(BlockList::<S, F>::accepts::<E>, (&blocking, &signal), answers.1),
        call_ensures(AllowList::<S, F, E>::accepts, (&allowing, &signal), answers.2),
        call_ensures(DomainListing::<S, F, E>::accepts, (&list, &signal), answers.3),
        call_ensures(Crawler::<O, S, F, E>::accepts, (&crawler, &told), answers.4),
    ensures
        answers.0 <==> domain@.expects(signal),
        answers.1 <==> blocking@.expects(signal),
        answers.2 <==> allowing@.expects(signal),
        answers.3 <==> list@.expects(signal),
        answers.4 <==> crawler@.expects(told),
{
}

/// A timer that has run out while an allow list is looking after a domain starts anew with a delay
/// of that domain: the fixed one, or one within the bounds.
pub proof fn law_allow_list_restarts_the_timer<S, F, E>(
    list: AllowState<S, F, E>,
    host: Seq<char>,
    timer: Timer,
    restarted: Timer,
)
    requires
        list.phase matches AllowPhaseView::Visit { host: visited, .. } && visited == host,
        ListingState::AllowList(list).may_restart(Signal::Timer(timer, true), restarted),
    ensures
        match list.allowed[host].queue.delay {
            None => true,
            Some(RequestDelay::Fixed(span)) => restarted.set_to() == span && restarted.is_set(),
            Some(RequestDelay::Random { min, max }) => {
                &&& min.total_nanos() <= restarted.set_to().total_nanos() <= max.total_nanos()
                &&& restarted.is_set()
            },
        },
{
}

/// A timer that has run out while a crawler waits for news for its list of domains starts anew as
/// that list has it start.
pub proof fn law_crawler_restarts_the_timer<O, S, F, E>(
    crawler: CrawlerState<O, S, F, E>,
    signal: Signal<S, F, E>,
    restarted: Timer,
)
    requires
        crawler.may_restart(CrawlerSignal::List(signal), restarted),
    ensures
        match crawler.list {
            ListingState::AllowList(list) => list.may_restart(signal, restarted),
            ListingState::BlockList(list) => signal matches Signal::Timer(_, true) ==> match list.queue.delay {
                None => true,
                Some(RequestDelay::Fixed(span)) => restarted.set_to() == span
                    && restarted.is_set(),
                Some(RequestDelay::Random { min, max }) => {
                    &&& min.total_nanos() <= restarted.set_to().total_nanos()
                        <= max.total_nanos()
                    &&& restarted.is_set()
                },
            },
        },
{
}

} // verus!
