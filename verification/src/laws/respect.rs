//! Where the `robots.txt` is respected, it is asked for before anything else, and it decides.
use crate::allow_list::{lemma_taken_out, AllowPhaseView, AllowState};
use crate::allowed_domain::{passing_prefix, DomainState, PhaseView};
use crate::config::ConfigState;
use crate::crawler::{
    domain_config, CrawlerDemandView, CrawlerPhaseView, CrawlerSignal, CrawlerState,
};
use crate::domain::{lemma_listing_uses_up, ListingState};
use crate::error::{CrawlError, DisallowReason, Failure};
use crate::fetch::{
    swap_removed, DemandView, FetchTask, Progress, RobotsNews, RobotsTaskView, Signal,
};
use crate::laws::config::{law_crawler_obeys_its_config, Happening};
use crate::laws::invariants::{
    law_listing_stays_well_formed, lemma_hear_is_sound, lemma_poll_finds_idle,
    lemma_visited_attends,
};
use crate::requests::QueuedRequest;
use crate::robots::{RobotsData, RobotsView};
use crate::time::Timer;
use vstd::prelude::*;

verus! {

/// Whether a domain respects its `robots.txt` and has not had it asked for yet: then nothing has
/// been sent, and nothing waits to be sent but for the `robots.txt`.
pub open spec fn is_unasked<S, F>(domain: DomainState<S, F>) -> bool {
    &&& domain.respect_robots_txt
    &&& domain.robots is None
    &&& domain.queue.queued.len() == 0
    &&& domain.in_flight.len() == 0
    &&& domain.phase is Idle
    &&& domain.buffer is Some ==> domain.robots_task is Some
    &&& domain.robots_task matches Some(task) ==> (task matches RobotsTaskView::Fetch(client, _)
        && client == domain.client)
}

/// A domain that respects its `robots.txt` and has not asked for it yet asks for it before it has
/// anything else done, and does so as soon as there is a request. Requests that are put in wait for
/// it.
pub proof fn law_domain_asks_first<S, F, E>(
    domain: DomainState<S, F>,
    request: QueuedRequest<S>,
    restarted: Timer,
)
    requires
        is_unasked(domain),
    ensures
        is_unasked(domain.add_request(request).0),
        request.depth <= domain.max_depth ==> domain.add_request(request).0.robots_task is Some,
        ({
            let (after, demand) = domain.step::<E>(Signal::Poll, restarted);
            match domain.robots_task {
                Some(RobotsTaskView::Fetch(client, url)) => demand == DemandView::<
                    S,
                    F,
                    E,
                >::PollRobots(RobotsTaskView::Fetch(domain.client, url)),
                _ => {
                    &&& demand == DemandView::<S, F, E>::Yield(Progress::Done)
                    &&& is_unasked(after)
                },
            }
        }),
{
}

/// Whether the list asks for the `robots.txt` of an unasked domain if it has anything done there.
pub open spec fn asks_first<S, F, E>(
    after: AllowState<S, F, E>,
    demand: DemandView<S, F, E>,
    name: Seq<char>,
) -> bool {
    &&& after.allowed.contains_key(name)
    &&& if after.visits(name) {
        demand matches DemandView::PollRobots(RobotsTaskView::Fetch(_, _))
    } else {
        is_unasked(after.allowed[name])
    }
}

proof fn lemma_hear_asks_first<S, F, E>(
    list: AllowState<S, F, E>,
    left: nat,
    host: Seq<char>,
    busy: bool,
    signal: Signal<S, F, E>,
    restarted: Timer,
    name: Seq<char>,
)
    requires
        list.allowed.contains_key(host),
        list.allowed.contains_key(name),
        is_unasked(list.allowed[name]),
        host == name ==> signal is Poll,
    ensures
        ({
            let (after, answer) = list.hear(left, host, busy, signal, restarted);
            &&& after.allowed.contains_key(name)
            &&& answer is Ok ==> is_unasked(after.allowed[name])
            &&& answer matches Err(demand) ==> asks_first(after, demand, name)
        }),
{
    let domain = list.allowed[name];
    reveal_with_fuel(DomainState::drain, 2);
    if host == name {
        let (after, demand) = domain.step::<E>(signal, restarted);
        if domain.robots_task is None {
            assert(demand == DemandView::<S, F, E>::Yield(Progress::Done));
        }
    }
}

proof fn lemma_visit_asks_first<S, F, E>(
    list: AllowState<S, F, E>,
    left: nat,
    busy: bool,
    restarted: Timer,
    name: Seq<char>,
)
    requires
        list.well_formed(),
        list.phase is Idle,
        left <= list.domains.len(),
        list.allowed.contains_key(name),
        is_unasked(list.allowed[name]),
    ensures
        ({
            let (after, demand) = list.visit(left, busy, restarted);
            asks_first(after, demand, name)
        }),
    decreases left,
{
    if left > 0 {
        let last = left - 1;
        let host = list.domains[last];
        let rest = AllowState { domains: swap_removed(list.domains, last), ..list };
        lemma_taken_out(list, rest, last);
        assert(list.allowed.contains_key(list.domains[last]));
        assert(list.allowed[host].well_formed());
        lemma_hear_is_sound(rest, last as nat, host, busy, Signal::Poll, restarted);
        lemma_hear_asks_first(rest, last as nat, host, busy, Signal::Poll, restarted, name);
        let (after, answer) = rest.hear(last as nat, host, busy, Signal::Poll, restarted);
        if let Ok(busy) = answer {
            lemma_visit_asks_first(after, last as nat, busy, restarted, name);
        }
    }
}

/// An allow list asks for the `robots.txt` of a domain that respects it before it has anything else
/// done there.
pub proof fn law_allow_list_asks_first<S, F, E>(
    list: AllowState<S, F, E>,
    signal: Signal<S, F, E>,
    restarted: Timer,
    name: Seq<char>,
)
    requires
        list.well_formed(),
        list.expects(signal),
        list.allowed.contains_key(name),
        is_unasked(list.allowed[name]),
    ensures
        ({
            let (after, demand) = list.step(signal, restarted);
            asks_first(after, demand, name)
        }),
{
    assert(list.allowed[name].phase is Idle);
    match list.phase {
        AllowPhaseView::Idle => {
            if list.results.len() == 0 {
                lemma_visit_asks_first(list, list.domains.len(), false, restarted, name);
            }
        },
        AllowPhaseView::Visit { left, host, busy } => {
            assert(!list.visits(name));
            assert(host != name);
            lemma_visited_attends(list, left, host, busy);
            lemma_hear_is_sound(list, left, host, busy, signal, restarted);
            lemma_hear_asks_first(list, left, host, busy, signal, restarted, name);
            let (after, answer) = list.hear(left, host, busy, signal, restarted);
            if let Ok(busy) = answer {
                lemma_visit_asks_first(after, left, busy, restarted, name);
            }
        },
    }
}

/// Whether a list of domains holds a domain that is not asked for its `robots.txt` yet, if it is
/// respected there.
pub open spec fn leaves_unasked<S, F, E>(list: ListingState<S, F, E>, name: Seq<char>) -> bool {
    list matches ListingState::AllowList(list) && list.allowed.contains_key(name) && is_unasked(
        list.allowed[name],
    )
}

/// Whether a list of domains is looking after this domain.
pub open spec fn looks_after<S, F, E>(list: ListingState<S, F, E>, name: Seq<char>) -> bool {
    list matches ListingState::AllowList(list) && list.visits(name)
}

proof fn lemma_drain_asks_first<S, F, E>(
    list: ListingState<S, F, E>,
    signal: Signal<S, F, E>,
    restarted: Timer,
    name: Seq<char>,
)
    requires
        list.well_formed(),
        list.expects(signal),
        leaves_unasked(list, name),
    ensures
        ({
            let drained = list.drain(signal, restarted);
            if looks_after(drained.list, name) {
                drained.demand matches DemandView::PollRobots(RobotsTaskView::Fetch(_, _))
            } else {
                leaves_unasked(drained.list, name)
            }
        }),
    decreases
            2 * list.load() + if signal is Poll {
                0int
            } else {
                1int
            },
{
    lemma_poll_finds_idle(list, signal);
    law_listing_stays_well_formed(list, signal, restarted);
    lemma_listing_uses_up(list, signal, restarted);
    if let ListingState::AllowList(allowing) = list {
        law_allow_list_asks_first(allowing, signal, restarted, name);
    }
    let (next, demand) = list.step(signal, restarted);
    if demand matches DemandView::Yield(Progress::Item(_)) {
        lemma_drain_asks_first(next, Signal::Poll, restarted, name);
    }
}

impl<O, S, F, E> CrawlerState<O, S, F, E> {
    /// What the list of domains wanted done when the happening at a place had happened.
    pub open spec fn list_wanted(
        self,
        happenings: Seq<Happening<O, S, F, E>>,
        place: int,
    ) -> Option<DemandView<S, F, E>> {
        match happenings[place] {
            Happening::Told(signal, restarted) => match self.past_all(happenings.take(place)).step(
                signal,
                restarted,
            ).1 {
                CrawlerDemandView::List(demand) => Some(demand),
                _ => None,
            },
            _ => None,
        }
    }

    /// Whether the list of domains wanted something done for this domain when the happening at a
    /// place had happened.
    pub open spec fn list_cared(
        self,
        happenings: Seq<Happening<O, S, F, E>>,
        place: int,
        name: Seq<char>,
    ) -> bool {
        looks_after(self.past_all(happenings.take(place + 1)).list, name)
    }

    /// Whether the `robots.txt` of a domain was asked for when the happening at a place had
    /// happened.
    pub open spec fn asked_at(
        self,
        happenings: Seq<Happening<O, S, F, E>>,
        place: int,
        name: Seq<char>,
    ) -> bool {
        &&& self.list_cared(happenings, place, name)
        &&& self.list_wanted(happenings, place) matches Some(
            DemandView::PollRobots(RobotsTaskView::Fetch(_, _)),
        )
    }
}

proof fn lemma_step_asks_first<O, S, F, E>(
    crawler: CrawlerState<O, S, F, E>,
    signal: CrawlerSignal<O, S, F, E>,
    restarted: Timer,
    name: Seq<char>,
)
    requires
        crawler.well_formed(),
        crawler.expects(signal),
        leaves_unasked(crawler.list, name),
    ensures
        ({
            let (after, demand) = crawler.step(signal, restarted);
            if looks_after(after.list, name) {
                demand matches CrawlerDemandView::List(
                    DemandView::PollRobots(RobotsTaskView::Fetch(_, _)),
                )
            } else {
                leaves_unasked(after.list, name)
            }
        }),
{
    if let ListingState::AllowList(list) = crawler.list {
        assert(list.allowed[name].phase is Idle);
        assert(!list.visits(name));
    }
    match (crawler.phase, signal) {
        (CrawlerPhaseView::List, CrawlerSignal::List(signal)) => {
            lemma_drain_asks_first(crawler.list, signal, restarted, name);
        },
        _ => {
            if crawler.list.is_idle() {
                lemma_drain_asks_first(crawler.list, Signal::Poll, restarted, name);
            }
        },
    }
}

proof fn lemma_unasked_or_asked<O, S, F, E>(
    config: ConfigState,
    crawler: CrawlerState<O, S, F, E>,
    happenings: Seq<Happening<O, S, F, E>>,
    name: Seq<char>,
)
    requires
        crawler.well_formed(),
        crawler.follows(config),
        crawler.allows_all(happenings),
        config.respect_robots_txt,
        config.allowed.contains_key(name),
    ensures
        leaves_unasked(crawler.past_all(happenings).list, name) || exists|place: int|
            0 <= place < happenings.len() && #[trigger] crawler.asked_at(happenings, place, name),
    decreases happenings.len(),
{
    if happenings.len() == 0 {
        assert(config.allowed.contains_key(name));
        if let ListingState::AllowList(list) = crawler.list {
            assert(list.allowed.contains_key(name));
            assert(list.allowed[name].follows(domain_config(config, name, crawler.client)));
        }
    } else {
        let earlier = happenings.drop_last();
        let last = happenings.len() - 1;
        lemma_unasked_or_asked(config, crawler, earlier, name);
        law_crawler_obeys_its_config(config, crawler, earlier);
        let between = crawler.past_all(earlier);
        assert(earlier =~= happenings.take(last));
        assert(happenings =~= happenings.take(last + 1));
        if leaves_unasked(between.list, name) {
            match happenings.last() {
                Happening::Told(signal, restarted) => {
                    lemma_step_asks_first(between, signal, restarted, name);
                    if looks_after(between.step(signal, restarted).0.list, name) {
                        assert(crawler.asked_at(happenings, last, name));
                    }
                },
                _ => {},
            }
        } else {
            let place = choose|place: int|
                0 <= place < earlier.len() && #[trigger] crawler.asked_at(earlier, place, name);
            assert(earlier.take(place) =~= happenings.take(place));
            assert(earlier.take(place + 1) =~= happenings.take(place + 1));
            assert(crawler.asked_at(happenings, place, name));
        }
    }
}

/// A crawler whose config respects the `robots.txt` and allows domains has no request for a page of
/// one of them sent before it has asked for the `robots.txt` of that domain, whatever happens.
pub proof fn law_robots_are_asked_for_before_pages<O, S, F, E>(
    config: ConfigState,
    crawler: CrawlerState<O, S, F, E>,
    happenings: Seq<Happening<O, S, F, E>>,
    name: Seq<char>,
    place: int,
)
    requires
        crawler.well_formed(),
        crawler.follows(config),
        crawler.allows_all(happenings),
        config.respect_robots_txt,
        config.allowed.contains_key(name),
        0 <= place < happenings.len(),
        crawler.list_cared(happenings, place, name),
        crawler.list_wanted(happenings, place) matches Some(
            DemandView::PollFetch(FetchTask::Send(_, _)),
        ),
    ensures
        exists|earlier: int|
            0 <= earlier < place && #[trigger] crawler.asked_at(happenings, earlier, name),
    decreases happenings.len(),
{
    let before = happenings.take(place);
    let so_far = happenings.take(place + 1);
    lemma_prefix_is_allowed(crawler, happenings, place + 1);
    assert(so_far.drop_last() =~= before);
    lemma_unasked_or_asked(config, crawler, before, name);
    law_crawler_obeys_its_config(config, crawler, before);
    let between = crawler.past_all(before);
    if leaves_unasked(between.list, name) {
        match happenings[place] {
            Happening::Told(signal, restarted) => {
                lemma_step_asks_first(between, signal, restarted, name);
            },
            _ => {},
        }
    } else {
        let earlier = choose|earlier: int|
            0 <= earlier < before.len() && #[trigger] crawler.asked_at(before, earlier, name);
        assert(before.take(earlier) =~= happenings.take(earlier));
        assert(before.take(earlier + 1) =~= happenings.take(earlier + 1));
        assert(crawler.asked_at(happenings, earlier, name));
    }
}

proof fn lemma_prefix_is_allowed<O, S, F, E>(
    crawler: CrawlerState<O, S, F, E>,
    happenings: Seq<Happening<O, S, F, E>>,
    count: int,
)
    requires
        crawler.allows_all(happenings),
        0 <= count <= happenings.len(),
    ensures
        crawler.allows_all(happenings.take(count)),
    decreases happenings.len(),
{
    if count == happenings.len() {
        assert(happenings.take(count) =~= happenings);
    } else {
        lemma_prefix_is_allowed(crawler, happenings.drop_last(), count);
        assert(happenings.drop_last().take(count) =~= happenings.take(count));
    }
}

/// Once the `robots.txt` is there, the requests that waited for it are gone through in their order.
/// Those that it permits are queued in that order, and the first in the queue may be sent at once;
/// the first that it does not is given back, as disallowed by the `robots.txt`, and the others behind
/// it wait on.
pub proof fn law_robots_decide_on_waiting_requests<S, F, E>(
    domain: DomainState<S, F>,
    buffer: Seq<QueuedRequest<S>>,
    data: RobotsData,
    restarted: Timer,
    count: int,
)
    requires
        domain.phase is Robots,
        domain.buffer == Some(buffer),
        0 <= count <= buffer.len(),
        forall|i: int|
            0 <= i < count ==> data@.permits(
                (#[trigger] buffer[i]).request.url(),
                buffer[i].request.headers(),
            ),
        count < buffer.len() ==> !data@.permits(
            buffer[count].request.url(),
            buffer[count].request.headers(),
        ),
    ensures
        ({
            let signal = Signal::Robots(RobotsNews::Ready(Ok(data)));
            let (after, demand) = domain.step::<E>(signal, restarted);
            &&& after.robots == Some(data@)
            &&& count == buffer.len() ==> {
                let all = domain.queue.queued + buffer;
                &&& after.buffer is None
                &&& after.queue.queued == all || (all.len() > 0 && after.queue.queued
                    == all.drop_first())
            }
            &&& count < buffer.len() ==> {
                &&& after.queue.queued == domain.queue.queued + buffer.take(count)
                &&& after.buffer == Some(buffer.skip(count + 1))
                &&& demand == DemandView::<S, F, E>::Yield(
                    Progress::Item(
                        Err(
                            Failure::Crawl(
                                CrawlError::DisallowedRequest {
                                    reason: DisallowReason::RobotsTxt,
                                    request: buffer[count].request,
                                    state: buffer[count].state,
                                },
                            ),
                        ),
                    ),
                )
            }
        }),
{
    lemma_prefix_passes(data, buffer, count);
}

proof fn lemma_prefix_passes<S>(data: RobotsData, buffer: Seq<QueuedRequest<S>>, count: int)
    requires
        0 <= count <= buffer.len(),
        forall|i: int|
            0 <= i < count ==> data@.permits(
                (#[trigger] buffer[i]).request.url(),
                buffer[i].request.headers(),
            ),
        count < buffer.len() ==> !data@.permits(
            buffer[count].request.url(),
            buffer[count].request.headers(),
        ),
    ensures
        passing_prefix(Some(data@), buffer) == count,
    decreases buffer.len(),
{
    if count > 0 {
        let rest = buffer.drop_first();
        assert forall|i: int| 0 <= i < count - 1 implies data@.permits(
            (#[trigger] rest[i]).request.url(),
            rest[i].request.headers(),
        ) by {
            assert(rest[i] == buffer[i + 1]);
        }
        if count < buffer.len() {
            assert(rest[count - 1] == buffer[count]);
        }
        lemma_prefix_passes(data, rest, count - 1);
    }
}

/// A domain gives back a request as disallowed only if its `robots.txt` is there and does not
/// permit it; it never says that it was disallowed for another reason.
pub proof fn law_domain_refuses_by_the_robots<S, F, E>(
    domain: DomainState<S, F>,
    signal: Signal<S, F, E>,
    restarted: Timer,
)
    requires
        domain.well_formed(),
        domain.expects(signal),
    ensures
        ({
            let (after, demand) = domain.step(signal, restarted);
            demand matches DemandView::Yield(
                Progress::Item(
                    Err(Failure::Crawl(CrawlError::DisallowedRequest { reason, request, state })),
                ),
            ) ==> {
                &&& reason == DisallowReason::RobotsTxt
                &&& after.robots matches Some(data)
                &&& !data.permits(request.url(), request.headers())
            }
        }),
{
    let buffer = domain.buffered();
    match (domain.phase, signal) {
        (PhaseView::Robots, Signal::Robots(RobotsNews::Ready(Ok(data)))) => {
            lemma_prefix_stops(Some(data@), buffer);
        },
        _ => {
            lemma_prefix_stops(domain.robots, buffer);
        },
    }
}

proof fn lemma_prefix_stops<S>(
    robots: Option<RobotsView>,
    buffer: Seq<QueuedRequest<S>>,
)
    ensures
        ({
            let passing = passing_prefix(robots, buffer);
            &&& passing <= buffer.len()
            &&& passing < buffer.len() ==> (robots matches Some(data) && !data.permits(
                buffer[passing as int].request.url(),
                buffer[passing as int].request.headers(),
            ))
        }),
    decreases buffer.len(),
{
    if buffer.len() > 0 {
        lemma_prefix_stops(robots, buffer.drop_first());
    }
}

} // verus!
