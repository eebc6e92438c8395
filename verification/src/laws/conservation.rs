//! No request is lost, none is answered twice.
use crate::allow_list::{lemma_taken_out, AllowPhaseView, AllowState};
use crate::allowed_domain::{
    lemma_prefix_is_short, lemma_step_uses_up, passing_prefix, DomainState, PhaseView,
};
use crate::block_list::{BlockPhaseView, BlockState};
use crate::crawler::{
    crawled, injected_response, unread, CrawlNews, CrawlResult, CrawlerDemandView,
    CrawlerPhaseView, CrawlerProgress, CrawlerSignal, CrawlerState, OutputNews,
};
use crate::domain::{lemma_listing_uses_up, ListingState};
use crate::error::{CrawlError, Failure};
use crate::fetch::{
    fetched, in_flight, swap_removed, ticket_of, DemandView, FetchNews, Fetched, InFlight, Progress,
    RobotsNews, Signal, Ticket,
};
use crate::laws::invariants::{
    law_domain_stays_well_formed, law_listing_stays_well_formed, lemma_hear_is_sound,
    lemma_poll_finds_idle, lemma_visited_attends,
};
use crate::requests::{NextRequest, QueuedRequest};
use crate::response::Response;
use crate::time::Timer;
use vstd::multiset::Multiset;
use vstd::prelude::*;
use vstd::seq_lib::*;

verus! {

/// The tickets of waiting requests.
pub open spec fn waiting_tickets<S>(requests: Seq<QueuedRequest<S>>) -> Multiset<Ticket<S>> {
    requests.map_values(|request: QueuedRequest<S>| ticket_of(request)).to_multiset()
}

/// The tickets of requests in flight.
pub open spec fn flying_tickets<S, F>(requests: Seq<InFlight<S, F>>) -> Multiset<Ticket<S>> {
    requests.map_values(|request: InFlight<S, F>| request.ticket).to_multiset()
}

/// Whether a result answers the request that this ticket was kept for: it names the same address,
/// and carries the same state, and a response carries the same depth.
pub open spec fn answers<S, E>(
    ticket: Ticket<S>,
    result: Result<Response<S>, Failure<S, E>>,
) -> bool {
    match result {
        Ok(response) => {
            &&& response.request_url == ticket.request_url
            &&& response.state == ticket.state
            &&& response.depth == ticket.depth
        },
        Err(Failure::Crawl(CrawlError::NoSuccessResponse { request_url, state, .. })) => {
            &&& request_url == Some(ticket.request_url)
            &&& state == ticket.state
        },
        Err(Failure::Crawl(CrawlError::FailedRequest { request_url, state, .. })) => {
            &&& request_url == Some(ticket.request_url)
            &&& state == ticket.state
        },
        Err(Failure::Crawl(CrawlError::DisallowedRequest { request, state, .. })) => {
            &&& request.target() == ticket.request_url
            &&& state == ticket.state
        },
        Err(Failure::Crawl(CrawlError::InvalidRequest { request, state })) => {
            &&& request.target() == ticket.request_url
            &&& state == ticket.state
        },
        _ => false,
    }
}

/// Whether a result is the failure of a `robots.txt`, which answers no request.
pub open spec fn is_robots_failure<S, E>(result: Result<Response<S>, Failure<S, E>>) -> bool {
    result matches Err(Failure::Crawl(CrawlError::RobotsTxtError { .. }))
}

/// Whatever a request comes to, its state is not lost: a response carries it, and a failure is one
/// of the crawler's own, from which it can be recovered.
pub proof fn law_answers_carry_the_state<S, E>(
    ticket: Ticket<S>,
    result: Result<Response<S>, Failure<S, E>>,
)
    requires
        answers(ticket, result),
    ensures
        match result {
            Ok(response) => response.state == ticket.state,
            Err(failure) => failure is Crawl && failure.carried() == ticket.state,
        },
{
}

/// Whatever becomes of the work on a request, a result that it comes to answers that request.
pub proof fn law_finished_requests_are_answered<S, F, E>(
    ticket: Ticket<S>,
    news: FetchNews<F>,
    skip_non_successful_responses: bool,
)
    ensures
        fetched::<S, F, E>(ticket, news, skip_non_successful_responses) matches Fetched::Finished(
            result,
        ) ==> answers(ticket, result),
{
}

/// Whether what is held stays as it is, but for the one request that a result given out answers.
pub open spec fn conserves<S, F, E>(
    before: Multiset<Ticket<S>>,
    after: Multiset<Ticket<S>>,
    demand: DemandView<S, F, E>,
) -> bool {
    match demand {
        DemandView::Yield(Progress::Item(result)) => exists|ticket: Ticket<S>| #[trigger]
            answers(ticket, result) && before.contains(ticket) && after == before.remove(ticket),
        _ => after == before,
    }
}

impl<S, F> DomainState<S, F> {
    /// The tickets of all requests that wait or are in flight, without the one that is being looked
    /// after.
    pub open spec fn stock(self) -> Multiset<Ticket<S>> {
        waiting_tickets(self.queue.queued).add(
            match self.buffer {
                Some(buffer) => waiting_tickets(buffer),
                None => Multiset::empty(),
            },
        ).add(flying_tickets(self.in_flight))
    }

    /// The tickets of all requests that were put in and are not answered yet.
    pub open spec fn held(self) -> Multiset<Ticket<S>> {
        match self.phase {
            PhaseView::First(ticket) => self.stock().insert(ticket),
            PhaseView::Advance(_, ticket) => self.stock().insert(ticket),
            _ => self.stock(),
        }
    }
}

/// One more request waits.
proof fn lemma_waiting_push<S>(requests: Seq<QueuedRequest<S>>, request: QueuedRequest<S>)
    ensures
        waiting_tickets(requests.push(request)) == waiting_tickets(requests).insert(
            ticket_of(request),
        ),
{
    broadcast use group_to_multiset_ensures;

    let ticket = |request: QueuedRequest<S>| ticket_of(request);
    assert(requests.push(request).map_values(ticket) =~= requests.map_values(ticket).push(
        ticket_of(request),
    ));
}

/// The first request waits no more.
proof fn lemma_waiting_pop<S>(requests: Seq<QueuedRequest<S>>)
    requires
        requests.len() > 0,
    ensures
        waiting_tickets(requests) == waiting_tickets(requests.drop_first()).insert(
            ticket_of(requests[0]),
        ),
{
    broadcast use group_to_multiset_ensures;

    let ticket = |request: QueuedRequest<S>| ticket_of(request);
    let tickets = requests.map_values(ticket);
    assert(requests.drop_first().map_values(ticket) =~= tickets.remove(0));
    assert(tickets.to_multiset().contains(tickets[0]));
}

/// More requests wait.
proof fn lemma_waiting_append<S>(first: Seq<QueuedRequest<S>>, second: Seq<QueuedRequest<S>>)
    ensures
        waiting_tickets(first + second) == waiting_tickets(first).add(waiting_tickets(second)),
{
    let ticket = |request: QueuedRequest<S>| ticket_of(request);
    assert((first + second).map_values(ticket) =~= first.map_values(ticket) + second.map_values(
        ticket,
    ));
    lemma_multiset_commutative(first.map_values(ticket), second.map_values(ticket));
}

/// One more request is in flight.
proof fn lemma_flying_push<S, F>(requests: Seq<InFlight<S, F>>, request: InFlight<S, F>)
    ensures
        flying_tickets(requests.push(request)) == flying_tickets(requests).insert(request.ticket),
{
    broadcast use group_to_multiset_ensures;

    let ticket = |request: InFlight<S, F>| request.ticket;
    assert(requests.push(request).map_values(ticket) =~= requests.map_values(ticket).push(
        request.ticket,
    ));
}

/// One request less is in flight.
proof fn lemma_flying_removed<S, F>(requests: Seq<InFlight<S, F>>, i: int)
    requires
        0 <= i < requests.len(),
    ensures
        flying_tickets(requests) == flying_tickets(swap_removed(requests, i)).insert(
            requests[i].ticket,
        ),
{
    broadcast use group_to_multiset_ensures;

    let ticket = |request: InFlight<S, F>| request.ticket;
    let tickets = requests.map_values(ticket);
    let last = tickets.last();
    let changed = tickets.update(i, last);
    assert(swap_removed(requests, i).map_values(ticket) =~= changed.remove(changed.len() - 1));
    assert(changed.to_multiset() =~= tickets.to_multiset().insert(last).remove(tickets[i]));
    assert(tickets.to_multiset().contains(tickets[i]));
    assert(changed.to_multiset().contains(changed[changed.len() - 1]));
    assert(changed.to_multiset().contains(last));
    assert(tickets.to_multiset() =~= changed.remove(changed.len() - 1).to_multiset().insert(
        tickets[i],
    ));
}

/// Looking after the requests in flight loses none.
proof fn lemma_domain_advance<S, F, E>(domain: DomainState<S, F>, left: nat)
    requires
        left <= domain.in_flight.len(),
    ensures
        ({
            let (after, demand) = domain.advance::<E>(left);
            conserves(domain.stock(), after.held(), demand)
        }),
{
    if left > 0 {
        lemma_flying_removed(domain.in_flight, left - 1);
        assert(domain.advance::<E>(left).0.held() =~= domain.stock());
    }
}

/// A request that may go is sent, or given back.
proof fn lemma_domain_dispatch<S, F, E>(domain: DomainState<S, F>, request: QueuedRequest<S>)
    ensures
        ({
            let (after, demand) = domain.dispatch::<E>(request);
            conserves(domain.stock().insert(ticket_of(request)), after.held(), demand)
        }),
{
    let (after, demand) = domain.dispatch::<E>(request);
    let before = domain.stock().insert(ticket_of(request));
    if let DemandView::Yield(Progress::Item(result)) = demand {
        assert(answers(ticket_of(request), result));
        assert(after.held() =~= before.remove(ticket_of(request)));
    }
}

/// Taking a request from the queue loses none.
proof fn lemma_domain_pull<S, F, E>(domain: DomainState<S, F>)
    ensures
        ({
            let (after, demand) = domain.pull::<E>();
            conserves(domain.stock(), after.held(), demand)
        }),
{
    lemma_domain_advance::<S, F, E>(domain, domain.in_flight.len());
    let (queue, next) = domain.queue.poll_next();
    let rest = DomainState { queue, ..domain };
    match next {
        NextRequest::Empty => {
            lemma_domain_advance::<S, F, E>(rest, rest.in_flight.len());
        },
        NextRequest::Wait(_) => {},
        NextRequest::Send(request) => {
            lemma_waiting_pop(domain.queue.queued);
            lemma_domain_dispatch::<S, F, E>(rest, request);
            assert(rest.stock().insert(ticket_of(request)) =~= domain.stock());
        },
    }
}

/// Queueing the requests that waited for the `robots.txt` loses none.
proof fn lemma_domain_flush<S, F, E>(domain: DomainState<S, F>)
    ensures
        ({
            let (after, demand) = domain.flush::<E>();
            conserves(domain.stock(), after.held(), demand)
        }),
{
    match domain.buffer {
        None => {
            lemma_domain_pull::<S, F, E>(domain);
        },
        Some(buffer) => {
            let passing = passing_prefix(domain.robots, buffer);
            lemma_prefix_is_short(domain.robots, buffer);
            if passing == buffer.len() {
                let rest = DomainState {
                    queue: domain.queue.append(buffer),
                    buffer: None,
                    ..domain
                };
                lemma_waiting_append(domain.queue.queued, buffer);
                assert(rest.stock() =~= domain.stock());
                lemma_domain_pull::<S, F, E>(rest);
            } else {
                let refused = buffer[passing as int];
                let front = buffer.take(passing as int);
                let back = buffer.skip(passing as int);
                lemma_waiting_append(domain.queue.queued, front);
                lemma_waiting_append(front, back);
                lemma_waiting_pop(back);
                assert(front + back =~= buffer);
                assert(back.drop_first() =~= buffer.skip(passing as int + 1));
                let (after, demand) = domain.flush::<E>();
                let result: Result<Response<S>, Failure<S, E>> = demand->Yield_0->Item_0;
                assert(answers(ticket_of(refused), result));
                assert(domain.stock() =~= after.held().insert(ticket_of(refused)));
                assert(after.held() =~= domain.stock().remove(ticket_of(refused)));
            }
        },
    }
}

/// News of a request loses none: it stays in flight, or a result answers it.
proof fn lemma_domain_news<S, F, E>(
    domain: DomainState<S, F>,
    ticket: Ticket<S>,
    news: FetchNews<F>,
    left: nat,
)
    requires
        left <= domain.in_flight.len(),
    ensures
        ({
            let (after, demand) = domain.hear_first::<E>(ticket, news);
            conserves(domain.stock().insert(ticket), after.held(), demand)
        }),
        ({
            let (after, demand) = domain.hear_next::<E>(left, ticket, news);
            conserves(domain.stock().insert(ticket), after.held(), demand)
        }),
{
    let before = domain.stock().insert(ticket);
    match fetched::<S, F, E>(ticket, news, domain.skip_non_successful_responses) {
        Fetched::Waiting(flight) => {
            let joined = DomainState { in_flight: domain.in_flight.push(flight), ..domain };
            lemma_flying_push(domain.in_flight, flight);
            assert(joined.stock() =~= before);
            lemma_domain_advance::<S, F, E>(joined, joined.in_flight.len());
            lemma_domain_advance::<S, F, E>(joined, left);
            lemma_domain_pull::<S, F, E>(joined);
        },
        Fetched::Reading(_, _) => {},
        Fetched::Finished(result) => {
            assert(answers(ticket, result));
            assert(domain.stock() =~= before.remove(ticket));
        },
    }
}

/// In a domain no request is lost and none is answered twice: whatever happens, every request that
/// was put in and is not answered yet stays so, but for the one that is answered by the result that
/// is given out, if one is. Only where the `robots.txt` failed, that failure is given out, and
/// answers no request.
pub proof fn law_domain_loses_no_request<S, F, E>(
    domain: DomainState<S, F>,
    signal: Signal<S, F, E>,
    restarted: Timer,
)
    requires
        domain.well_formed(),
        domain.expects(signal),
    ensures
        ({
            let (after, demand) = domain.step(signal, restarted);
            if signal matches Signal::Robots(RobotsNews::Ready(Err(_))) {
                &&& after.held() == domain.held()
                &&& demand matches DemandView::Yield(Progress::Item(result))
                &&& is_robots_failure(result)
            } else {
                conserves(domain.held(), after.held(), demand)
            }
        }),
{
    match (domain.phase, signal) {
        (PhaseView::Robots, Signal::Robots(news)) => {
            match news {
                RobotsNews::Ready(Ok(data)) => {
                    let known = DomainState { robots: Some(data@), ..domain };
                    assert(known.stock() == domain.stock());
                    lemma_domain_flush::<S, F, E>(known);
                },
                _ => {},
            }
        },
        (PhaseView::Timer, Signal::Timer(timer, elapsed)) => {
            let (queue, next) = domain.queue.resume(timer, elapsed, restarted);
            let rest = DomainState { queue, ..domain };
            match next {
                None => {
                    assert(rest.queue.queued == domain.queue.queued);
                    assert(rest.stock() == domain.stock());
                    lemma_domain_advance::<S, F, E>(rest, rest.in_flight.len());
                },
                Some(request) => {
                    lemma_waiting_pop(domain.queue.queued);
                    assert(rest.stock().insert(ticket_of(request)) =~= domain.stock());
                    lemma_domain_dispatch::<S, F, E>(rest, request);
                },
            }
        },
        (PhaseView::First(ticket), Signal::Fetch(news)) => {
            lemma_domain_news::<S, F, E>(domain, ticket, news, 0);
        },
        (PhaseView::Advance(left, ticket), Signal::Fetch(news)) => {
            lemma_domain_news::<S, F, E>(domain, ticket, news, left);
        },
        _ => {
            lemma_domain_flush::<S, F, E>(domain);
        },
    }
}

/// A request that is put into a domain is held from then on if it is taken; if it is refused, what
/// is held stays as it is.
pub proof fn law_domain_holds_what_it_takes<S, F>(
    domain: DomainState<S, F>,
    request: QueuedRequest<S>,
)
    ensures
        ({
            let (after, added) = domain.add_request(request);
            after.held() == match added {
                Ok(()) => domain.held().insert(ticket_of(request)),
                Err(_) => domain.held(),
            }
        }),
{
    let (after, added) = domain.add_request(request);
    lemma_waiting_push(domain.queue.queued, request);
    match domain.buffer {
        Some(buffer) => {
            lemma_waiting_push(buffer, request);
        },
        None => {
            lemma_waiting_push(Seq::empty(), request);
            broadcast use group_to_multiset_ensures;

            assert(waiting_tickets(Seq::<QueuedRequest<S>>::empty()) =~= Multiset::empty());
        },
    }
    if added is Ok {
        assert(after.stock() =~= domain.stock().insert(ticket_of(request)));
        assert(after.held() =~= domain.held().insert(ticket_of(request)));
    }
}

impl<S, F> BlockState<S, F> {
    /// The tickets of all requests that wait or are in flight, without the one that is being looked
    /// after.
    pub open spec fn stock(self) -> Multiset<Ticket<S>> {
        waiting_tickets(self.queue.queued).add(flying_tickets(self.in_flight))
    }

    /// The tickets of all requests that were put in and are not answered yet.
    pub open spec fn held(self) -> Multiset<Ticket<S>> {
        match self.phase {
            BlockPhaseView::Advance(_, ticket) => self.stock().insert(ticket),
            _ => self.stock(),
        }
    }
}

/// Looking after the requests in flight loses none.
proof fn lemma_block_advance<S, F, E>(list: BlockState<S, F>, left: nat)
    requires
        left <= list.in_flight.len(),
    ensures
        ({
            let (after, demand) = list.advance::<E>(left);
            conserves(list.stock(), after.held(), demand)
        }),
{
    if left > 0 {
        lemma_flying_removed(list.in_flight, left - 1);
        assert(list.advance::<E>(left).0.held() =~= list.stock());
    }
}

/// Asking for a `robots.txt` loses no request.
proof fn lemma_block_ask<S, F, E>(list: BlockState<S, F>, left: nat)
    ensures
        ({
            let (after, demand) = list.ask::<E>(left);
            conserves(list.stock(), after.held(), demand)
        }),
{
    lemma_block_advance::<S, F, E>(list, list.in_flight.len());
}

/// Looking at the waiting requests loses none.
proof fn lemma_block_pull<S, F, E>(list: BlockState<S, F>, left: nat)
    ensures
        ({
            let (after, demand) = list.pull::<E>(left);
            conserves(list.stock(), after.held(), demand)
        }),
    decreases left, 0nat,
{
    if left == 0 || !list.has_room() {
        lemma_block_ask::<S, F, E>(list, list.robots_tasks.len());
    } else {
        let (queue, next) = list.queue.poll_next();
        let rest = BlockState { queue, ..list };
        match next {
            NextRequest::Empty => {
                lemma_block_pull::<S, F, E>(rest, (left - 1) as nat);
            },
            NextRequest::Wait(_) => {},
            NextRequest::Send(request) => {
                lemma_waiting_pop(list.queue.queued);
                assert(rest.stock().insert(ticket_of(request)) =~= list.stock());
                lemma_block_dispatch::<S, F, E>(rest, request, (left - 1) as nat);
            },
        }
    }
}

/// A request that may go is started, waits on or is given back.
proof fn lemma_block_dispatch<S, F, E>(
    list: BlockState<S, F>,
    request: QueuedRequest<S>,
    left: nat,
)
    ensures
        ({
            let (after, demand) = list.dispatch::<E>(request, left);
            conserves(list.stock().insert(ticket_of(request)), after.held(), demand)
        }),
    decreases left, 1nat,
{
    let before = list.stock().insert(ticket_of(request));
    let (rest, refused) = list.take_up(request);
    match refused {
        None => {
            lemma_flying_push(list.in_flight, in_flight::<S, F>(request, list.client));
            lemma_waiting_push(list.queue.queued, request);
            assert(rest.stock() =~= before);
            lemma_block_pull::<S, F, E>(rest, left);
        },
        Some(error) => {
            let result: Result<Response<S>, Failure<S, E>> = Err(Failure::Crawl(error));
            assert(answers(ticket_of(request), result));
            assert(rest.stock() =~= before.remove(ticket_of(request)));
        },
    }
}

/// In a block list no request is lost and none is answered twice: whatever happens, every request
/// that was put in and is not answered yet stays so, but for the one that is answered by the result
/// that is given out, if one is. Only where the `robots.txt` of a host failed, that failure is
/// given out, and answers no request.
pub proof fn law_block_list_loses_no_request<S, F, E>(
    list: BlockState<S, F>,
    signal: Signal<S, F, E>,
    restarted: Timer,
)
    requires
        list.well_formed(),
        list.expects(signal),
    ensures
        ({
            let (after, demand) = list.step(signal, restarted);
            if signal matches Signal::Robots(RobotsNews::Ready(Err(_))) {
                &&& after.held() == list.held()
                &&& demand matches DemandView::Yield(Progress::Item(result))
                &&& is_robots_failure(result)
            } else {
                conserves(list.held(), after.held(), demand)
            }
        }),
{
    match (list.phase, signal) {
        (BlockPhaseView::Robots(_, host), Signal::Robots(news))
        | (BlockPhaseView::Asked(_, host, _), Signal::Robots(news)) => {
            let rest = match news {
                RobotsNews::Pending(task) => list.awaiting(host, task),
                RobotsNews::Ready(Ok(data)) => list.knowing(host, data@),
                RobotsNews::Ready(Err(_)) => list,
            };
            assert(rest.stock() == list.stock());
            lemma_block_pull::<S, F, E>(rest, rest.queue.queued.len());
            lemma_block_advance::<S, F, E>(rest, rest.in_flight.len());
        },
        (BlockPhaseView::Timer(left), Signal::Timer(timer, elapsed)) => {
            let (queue, next) = list.queue.resume(timer, elapsed, restarted);
            let rest = BlockState { queue, ..list };
            match next {
                None => {
                    assert(rest.queue.queued == list.queue.queued);
                    assert(rest.stock() == list.stock());
                    lemma_block_pull::<S, F, E>(rest, left);
                },
                Some(request) => {
                    lemma_waiting_pop(list.queue.queued);
                    assert(rest.stock().insert(ticket_of(request)) =~= list.stock());
                    lemma_block_dispatch::<S, F, E>(rest, request, left);
                },
            }
        },
        (BlockPhaseView::Advance(left, ticket), Signal::Fetch(news)) => {
            let before = list.held();
            match fetched::<S, F, E>(ticket, news, list.skip_non_successful_responses) {
                Fetched::Waiting(flight) => {
                    let joined = BlockState { in_flight: list.in_flight.push(flight), ..list };
                    lemma_flying_push(list.in_flight, flight);
                    assert(joined.stock() =~= before);
                    lemma_block_advance::<S, F, E>(joined, left);
                },
                Fetched::Reading(_, _) => {},
                Fetched::Finished(result) => {
                    assert(answers(ticket, result));
                    assert(list.stock() =~= before.remove(ticket));
                },
            }
        },
        _ => {
            lemma_block_pull::<S, F, E>(list, list.queue.queued.len());
        },
    }
}

/// A request that is put into a block list is held from then on if it is taken; if it is refused,
/// what is held stays as it is.
pub proof fn law_block_list_holds_what_it_takes<S, F>(
    list: BlockState<S, F>,
    request: QueuedRequest<S>,
)
    ensures
        ({
            let (after, added) = list.add_request(request);
            after.held() == match added {
                Ok(()) => list.held().insert(ticket_of(request)),
                Err(_) => list.held(),
            }
        }),
{
    let (after, added) = list.add_request(request);
    lemma_waiting_push(list.queue.queued, request);
    if added is Ok {
        assert(after.stock() =~= list.stock().insert(ticket_of(request)));
        assert(after.held() =~= list.held().insert(ticket_of(request)));
    }
}

/// Whether each of these results answers the request of the ticket at the same place.
pub open spec fn answer_all<S, E>(
    tickets: Seq<Ticket<S>>,
    results: Seq<Result<Response<S>, Failure<S, E>>>,
) -> bool {
    &&& tickets.len() == results.len()
    &&& forall|i: int|
        #![trigger tickets[i]]
        #![trigger results[i]]
        0 <= i < results.len() ==> answers(tickets[i], results[i])
}

/// Whether these results answer the requests of these tickets; the failure of a `robots.txt` comes
/// first, and answers none.
pub open spec fn answer_signal<S, F, E>(
    signal: Signal<S, F, E>,
    tickets: Seq<Ticket<S>>,
    results: Seq<Result<Response<S>, Failure<S, E>>>,
) -> bool {
    if signal matches Signal::Robots(RobotsNews::Ready(Err(_))) {
        &&& results.len() > 0
        &&& is_robots_failure(results[0])
        &&& answer_all(tickets, results.drop_first())
    } else {
        answer_all(tickets, results)
    }
}

/// What is given out.
pub open spec fn given<S, F, E>(demand: DemandView<S, F, E>) -> Seq<
    Result<Response<S>, Failure<S, E>>,
> {
    match demand {
        DemandView::Yield(Progress::Item(result)) => seq![result],
        _ => Seq::empty(),
    }
}

proof fn lemma_no_tickets<S>()
    ensures
        Seq::<Ticket<S>>::empty().to_multiset() == Multiset::<Ticket<S>>::empty(),
{
    broadcast use group_to_multiset_ensures;

    assert(Seq::<Ticket<S>>::empty().to_multiset() =~= Multiset::empty());
}

/// One ticket more in front.
proof fn lemma_ticket_in_front<S>(ticket: Ticket<S>, tickets: Seq<Ticket<S>>)
    ensures
        (seq![ticket] + tickets).to_multiset() == tickets.to_multiset().insert(ticket),
{
    broadcast use group_to_multiset_ensures;

    lemma_no_tickets::<S>();
    lemma_multiset_commutative(seq![ticket], tickets);
    assert(seq![ticket] =~= Seq::empty().push(ticket));
    assert((seq![ticket] + tickets).to_multiset() =~= tickets.to_multiset().insert(ticket));
}

/// Taking every result at hand from a domain loses no request: the results that are taken answer
/// just the requests that are held no more.
proof fn lemma_drain_settles<S, F, E>(
    domain: DomainState<S, F>,
    signal: Signal<S, F, E>,
    restarted: Timer,
) -> (tickets: Seq<Ticket<S>>)
    requires
        domain.well_formed(),
        domain.expects(signal),
    ensures
        ({
            let drained = domain.drain(signal, restarted);
            &&& answer_signal(signal, tickets, drained.items)
            &&& domain.held() == drained.domain.held().add(tickets.to_multiset())
        }),
    decreases
            2 * domain.waiting() + if signal is Poll {
                0int
            } else {
                1int
            },
{
    law_domain_loses_no_request(domain, signal, restarted);
    law_domain_stays_well_formed(domain, signal, restarted);
    lemma_step_uses_up(domain, signal, restarted);
    lemma_no_tickets::<S>();
    let drained = domain.drain(signal, restarted);
    let (next, demand) = domain.step(signal, restarted);
    if let DemandView::Yield(Progress::Item(item)) = demand {
        let others = lemma_drain_settles::<S, F, E>(next, Signal::Poll, restarted);
        let rest = next.drain::<E>(Signal::Poll, restarted);
        assert(drained.items == seq![item] + rest.items);
        if signal matches Signal::Robots(RobotsNews::Ready(Err(_))) {
            assert(drained.items.drop_first() =~= rest.items);
            others
        } else {
            let ticket = choose|ticket: Ticket<S>| #[trigger]
                answers(ticket, item) && domain.held().contains(ticket) && next.held()
                    == domain.held().remove(ticket);
            let tickets = seq![ticket] + others;
            lemma_ticket_in_front(ticket, others);
            assert forall|i: int| 0 <= i < drained.items.len() implies answers(
                #[trigger] tickets[i],
                drained.items[i],
            ) by {
                if i > 0 {
                    assert(tickets[i] == others[i - 1]);
                    assert(drained.items[i] == rest.items[i - 1]);
                }
            }
            assert(drained.domain == rest.domain);
            assert(domain.held() =~= next.held().insert(ticket));
            assert(domain.held() =~= drained.domain.held().add(tickets.to_multiset()));
            tickets
        }
    } else {
        assert(domain.held() =~= drained.domain.held().add(Multiset::empty()));
        Seq::empty()
    }
}

/// The tickets that the domains of these names hold.
pub open spec fn held_in<S, F>(
    allowed: Map<Seq<char>, DomainState<S, F>>,
    hosts: Set<Seq<char>>,
) -> Multiset<Ticket<S>>
    decreases hosts.len(),
        when hosts.finite()
{
    if hosts.len() == 0 {
        Multiset::empty()
    } else {
        let host = hosts.choose();
        held_in(allowed, hosts.remove(host)).add(allowed[host].held())
    }
}

/// What other domains hold does not depend on this one.
proof fn lemma_held_elsewhere<S, F>(
    allowed: Map<Seq<char>, DomainState<S, F>>,
    hosts: Set<Seq<char>>,
    host: Seq<char>,
    domain: DomainState<S, F>,
)
    requires
        hosts.finite(),
        !hosts.contains(host),
    ensures
        held_in(allowed.insert(host, domain), hosts) == held_in(allowed, hosts),
    decreases hosts.len(),
{
    if hosts.len() > 0 {
        lemma_held_elsewhere(allowed, hosts.remove(hosts.choose()), host, domain);
    }
}

/// What all domains hold together changes as one of them does.
proof fn lemma_held_changes<S, F>(
    allowed: Map<Seq<char>, DomainState<S, F>>,
    hosts: Set<Seq<char>>,
    host: Seq<char>,
    domain: DomainState<S, F>,
)
    requires
        hosts.finite(),
        hosts.contains(host),
    ensures
        held_in(allowed.insert(host, domain), hosts).add(allowed[host].held()) == held_in(
            allowed,
            hosts,
        ).add(domain.held()),
    decreases hosts.len(),
{
    broadcast use vstd::set_lib::group_set_properties;

    assert(hosts.len() > 0);
    let changed = allowed.insert(host, domain);
    let first = hosts.choose();
    let rest = hosts.remove(first);
    if first == host {
        lemma_held_elsewhere(allowed, rest, host, domain);
    } else {
        lemma_held_changes(allowed, rest, host, domain);
        assert forall|ticket: Ticket<S>|
            held_in(changed, rest).count(ticket) + allowed[host].held().count(ticket) == held_in(
                allowed,
                rest,
            ).count(ticket) + domain.held().count(ticket) by {
            assert(held_in(changed, rest).add(allowed[host].held()).count(ticket) == held_in(
                allowed,
                rest,
            ).add(domain.held()).count(ticket));
        }
    }
    assert(held_in(changed, hosts) == held_in(changed, rest).add(changed[first].held()));
    assert(held_in(allowed.insert(host, domain), hosts).add(allowed[host].held()) =~= held_in(
        allowed,
        hosts,
    ).add(domain.held()));
}

impl<S, F, E> AllowState<S, F, E> {
    /// The tickets of all requests that were put in for any domain and are not answered yet.
    pub open spec fn held(self) -> Multiset<Ticket<S>> {
        held_in(self.allowed, self.allowed.dom())
    }
}

/// There are finitely many domains.
proof fn lemma_domains_are_finite<S, F, E>(list: AllowState<S, F, E>)
    requires
        list.names_agree(),
    ensures
        list.allowed.dom().finite(),
{
    broadcast use {vstd::set_lib::lemma_set_subset_finite, seq_to_set_is_finite};

    let names = match list.phase {
        AllowPhaseView::Idle => list.domains.to_set(),
        AllowPhaseView::Visit { host, .. } => list.domains.to_set().insert(host),
    };
    assert forall|host: Seq<char>| list.allowed.dom().contains(host) implies names.contains(
        host,
    ) by {
        assert(list.allowed.contains_key(host));
    }
    assert(list.allowed.dom().subset_of(names));
}

proof fn lemma_hear_settles<S, F, E>(
    list: AllowState<S, F, E>,
    left: nat,
    host: Seq<char>,
    busy: bool,
    signal: Signal<S, F, E>,
    restarted: Timer,
) -> (outcome: (Seq<Result<Response<S>, Failure<S, E>>>, Seq<Ticket<S>>))
    requires
        list.attends(left, host),
        list.allowed[host].expects(signal),
    ensures
        ({
            let (items, tickets) = outcome;
            let (after, _) = list.hear(left, host, busy, signal, restarted);
            &&& after.results == list.results + items
            &&& answer_signal(signal, tickets, items)
            &&& list.held() == after.held().add(tickets.to_multiset())
        }),
{
    let visit = list.entering(AllowPhaseView::Visit { left, host, busy: false });
    assert(visit.allowed.contains_key(host));
    assert(list.allowed[host].well_formed());
    lemma_domains_are_finite(visit);
    let tickets = lemma_drain_settles(list.allowed[host], signal, restarted);
    let drained = list.allowed[host].drain(signal, restarted);
    let (after, _) = list.hear(left, host, busy, signal, restarted);
    lemma_held_changes(list.allowed, list.allowed.dom(), host, drained.domain);
    assert(after.allowed.dom() =~= list.allowed.dom());
    let total = held_in(after.allowed, list.allowed.dom()).add(drained.domain.held());
    assert(list.held().add(drained.domain.held()) =~= total.add(tickets.to_multiset()));
    assert forall|ticket: Ticket<S>|
        list.held().count(ticket) == after.held().add(tickets.to_multiset()).count(ticket) by {
        assert(list.held().add(drained.domain.held()).count(ticket) == total.add(
            tickets.to_multiset(),
        ).count(ticket));
    }
    assert(list.held() =~= after.held().add(tickets.to_multiset()));
    (drained.items, tickets)
}

proof fn lemma_visit_settles<S, F, E>(
    list: AllowState<S, F, E>,
    left: nat,
    busy: bool,
    restarted: Timer,
) -> (outcome: (Seq<Result<Response<S>, Failure<S, E>>>, Seq<Ticket<S>>))
    requires
        list.well_formed(),
        list.phase is Idle,
        left <= list.domains.len(),
    ensures
        ({
            let (items, tickets) = outcome;
            let (after, demand) = list.visit(left, busy, restarted);
            &&& given(demand) + after.results == list.results + items
            &&& answer_all(tickets, items)
            &&& list.held() == after.held().add(tickets.to_multiset())
        }),
    decreases left,
{
    lemma_no_tickets::<S>();
    if left == 0 {
        let (after, demand) = list.visit(left, busy, restarted);
        assert(given(demand) + after.results =~= list.results + Seq::empty());
        assert(list.held() =~= after.held().add(Multiset::empty()));
        (Seq::empty(), Seq::empty())
    } else {
        let last = left - 1;
        let host = list.domains[last];
        let rest = AllowState { domains: swap_removed(list.domains, last), ..list };
        lemma_taken_out(list, rest, last);
        assert(list.allowed.contains_key(list.domains[last]));
        assert(list.allowed[host].well_formed());
        lemma_hear_is_sound(rest, last as nat, host, busy, Signal::Poll, restarted);
        let (items, tickets) = lemma_hear_settles(
            rest,
            last as nat,
            host,
            busy,
            Signal::Poll,
            restarted,
        );
        let (between, answer) = rest.hear(last as nat, host, busy, Signal::Poll, restarted);
        match answer {
            Ok(any) => {
                let (more_items, more_tickets) = lemma_visit_settles(
                    between,
                    last as nat,
                    any,
                    restarted,
                );
                lemma_joined(items, tickets, more_items, more_tickets);
                let (after, demand) = list.visit(left, busy, restarted);
                assert(given(demand) + after.results =~= list.results + (items + more_items));
                assert(list.held() =~= after.held().add((tickets + more_tickets).to_multiset()));
                (items + more_items, tickets + more_tickets)
            },
            Err(demand) => {
                assert(given(demand) + between.results =~= list.results + items);
                (items, tickets)
            },
        }
    }
}

/// Results that answer requests, and more of them.
proof fn lemma_joined<S, E>(
    items: Seq<Result<Response<S>, Failure<S, E>>>,
    tickets: Seq<Ticket<S>>,
    more_items: Seq<Result<Response<S>, Failure<S, E>>>,
    more_tickets: Seq<Ticket<S>>,
)
    requires
        answer_all(more_tickets, more_items),
    ensures
        answer_all(tickets, items) ==> answer_all(tickets + more_tickets, items + more_items),
        (tickets + more_tickets).to_multiset() == tickets.to_multiset().add(
            more_tickets.to_multiset(),
        ),
{
    lemma_multiset_commutative(tickets, more_tickets);
    if answer_all(tickets, items) {
        let (all_tickets, all_items) = (tickets + more_tickets, items + more_items);
        assert forall|i: int| 0 <= i < all_items.len() implies answers(
            #[trigger] all_tickets[i],
            all_items[i],
        ) by {
            if i < items.len() {
                assert(all_tickets[i] == tickets[i]);
            } else {
                assert(all_tickets[i] == more_tickets[i - items.len()]);
                assert(all_items[i] == more_items[i - items.len()]);
            }
        }
    }
}

/// In an allow list no request is lost and none is answered twice, and results are given out in the
/// order in which they turned up: the results that turn up go behind those that nobody has taken
/// yet, and answer just the requests that are held no more. Only a `robots.txt` that failed answers
/// none.
pub proof fn law_allow_list_loses_no_request<S, F, E>(
    list: AllowState<S, F, E>,
    signal: Signal<S, F, E>,
    restarted: Timer,
)
    requires
        list.well_formed(),
        list.expects(signal),
    ensures
        ({
            let (after, demand) = list.step(signal, restarted);
            exists|
                items: Seq<Result<Response<S>, Failure<S, E>>>,
                tickets: Seq<Ticket<S>>,
            | #[trigger]
                answer_signal(signal, tickets, items) && given(demand) + after.results
                    == list.results + items && list.held() == after.held().add(
                    tickets.to_multiset(),
                )
        }),
{
    lemma_no_tickets::<S>();
    let (after, demand) = list.step(signal, restarted);
    match list.phase {
        AllowPhaseView::Idle => {
            if list.results.len() > 0 {
                assert(given(demand) + after.results =~= list.results + Seq::empty());
                assert(list.held() =~= after.held().add(Multiset::empty()));
                assert(answer_signal(signal, Seq::empty(), Seq::empty()));
            } else {
                let (items, tickets) = lemma_visit_settles(
                    list,
                    list.domains.len(),
                    false,
                    restarted,
                );
                assert(answer_signal(signal, tickets, items));
            }
        },
        AllowPhaseView::Visit { left, host, busy } => {
            lemma_visited_attends(list, left, host, busy);
            lemma_hear_is_sound(list, left, host, busy, signal, restarted);
            let (items, tickets) = lemma_hear_settles(list, left, host, busy, signal, restarted);
            let (between, answer) = list.hear(left, host, busy, signal, restarted);
            match answer {
                Ok(any) => {
                    let (more_items, more_tickets) = lemma_visit_settles(
                        between,
                        left,
                        any,
                        restarted,
                    );
                    let all = items + more_items;
                    lemma_joined(items, tickets, more_items, more_tickets);
                    if signal matches Signal::Robots(RobotsNews::Ready(Err(_))) {
                        lemma_joined(items.drop_first(), tickets, more_items, more_tickets);
                        assert(all.drop_first() =~= items.drop_first() + more_items);
                    }
                    assert(answer_signal(signal, tickets + more_tickets, all));
                    assert(given(demand) + after.results =~= list.results + all);
                    assert(list.held() =~= after.held().add(
                        (tickets + more_tickets).to_multiset(),
                    ));
                },
                Err(asked) => {
                    assert(given(asked) + between.results =~= list.results + items);
                },
            }
        },
    }
}

/// A request that is put into an allow list is held from then on if it is taken; if it is refused,
/// what is held stays as it is.
pub proof fn law_allow_list_holds_what_it_takes<S, F, E>(
    list: AllowState<S, F, E>,
    request: QueuedRequest<S>,
)
    requires
        list.well_formed(),
    ensures
        ({
            let (after, added) = list.add_request(request);
            after.held() == match added {
                Ok(()) => list.held().insert(ticket_of(request)),
                Err(_) => list.held(),
            }
        }),
{
    let (after, added) = list.add_request(request);
    if let Some(host) = request.request.host() {
        if list.allowed.contains_key(host) {
            let domain = list.allowed[host].add_request(request).0;
            lemma_domains_are_finite(list);
            law_domain_holds_what_it_takes(list.allowed[host], request);
            lemma_held_changes(list.allowed, list.allowed.dom(), host, domain);
            assert(after.allowed.dom() =~= list.allowed.dom());
            let expected = match added {
                Ok(()) => list.held().insert(ticket_of(request)),
                Err(_) => list.held(),
            };
            assert forall|ticket: Ticket<S>|
                after.held().count(ticket) == expected.count(ticket) by {
                assert(after.held().add(list.allowed[host].held()).count(ticket)
                    == list.held().add(domain.held()).count(ticket));
            }
            assert(after.held() =~= expected);
        }
    }
}

impl<S, F, E> ListingState<S, F, E> {
    /// The tickets of all requests that were put in and are not answered yet.
    pub open spec fn held(self) -> Multiset<Ticket<S>> {
        match self {
            ListingState::AllowList(list) => list.held(),
            ListingState::BlockList(list) => list.held(),
        }
    }

    /// Results that nobody has taken yet.
    pub open spec fn pending(self) -> Seq<Result<Response<S>, Failure<S, E>>> {
        match self {
            ListingState::AllowList(list) => list.results,
            ListingState::BlockList(_) => Seq::empty(),
        }
    }
}

/// Whether a list may come from `before` to `after`, giving these results out: new results turn up
/// behind those that nobody has taken yet, all are given out in that order, and the new ones answer
/// just the requests that are held no more. Only the failure of a `robots.txt` answers none.
pub open spec fn list_loses_nothing<S, F, E>(
    before: ListingState<S, F, E>,
    signal: Signal<S, F, E>,
    after: ListingState<S, F, E>,
    taken: Seq<Result<Response<S>, Failure<S, E>>>,
) -> bool {
    exists|items: Seq<Result<Response<S>, Failure<S, E>>>, tickets: Seq<Ticket<S>>| #[trigger]
        answer_signal(signal, tickets, items) && taken + after.pending() == before.pending()
            + items && before.held() == after.held().add(tickets.to_multiset())
}

/// In a list of domains no request is lost and none is answered twice, and results are given out in
/// the order in which they turned up.
pub proof fn law_listing_loses_no_request<S, F, E>(
    list: ListingState<S, F, E>,
    signal: Signal<S, F, E>,
    restarted: Timer,
)
    requires
        list.well_formed(),
        list.expects(signal),
    ensures
        ({
            let (after, demand) = list.step(signal, restarted);
            list_loses_nothing(list, signal, after, given(demand))
        }),
{
    lemma_no_tickets::<S>();
    let (after, demand) = list.step(signal, restarted);
    match list {
        ListingState::AllowList(allow) => {
            law_allow_list_loses_no_request(allow, signal, restarted);
        },
        ListingState::BlockList(block) => {
            law_block_list_loses_no_request(block, signal, restarted);
            let items = given(demand);
            assert(items + after.pending() =~= list.pending() + items);
            assert(list.held() =~= list.held().add(Multiset::empty()));
            if signal matches Signal::Robots(RobotsNews::Ready(Err(_))) {
                assert(items.drop_first() =~= Seq::empty());
                assert(answer_signal(signal, Seq::empty(), items));
            } else if let DemandView::Yield(Progress::Item(result)) = demand {
                let ticket = choose|ticket: Ticket<S>| #[trigger]
                    answers(ticket, result) && block.held().contains(ticket) && after.held()
                        == block.held().remove(ticket);
                lemma_ticket_in_front(ticket, Seq::empty());
                assert(seq![ticket] + Seq::empty() =~= seq![ticket]);
                assert(answer_signal(signal, seq![ticket], items));
                assert(list.held() =~= after.held().add(seq![ticket].to_multiset()));
            } else {
                assert(answer_signal(signal, Seq::empty(), items));
            }
        },
    }
}

/// Taking every result at hand from a list of domains loses no request.
pub proof fn law_drained_listing_loses_no_request<S, F, E>(
    list: ListingState<S, F, E>,
    signal: Signal<S, F, E>,
    restarted: Timer,
)
    requires
        list.well_formed(),
        list.expects(signal),
    ensures
        ({
            let drained = list.drain(signal, restarted);
            list_loses_nothing(list, signal, drained.list, drained.items)
        }),
    decreases
            2 * list.load() + if signal is Poll {
                0int
            } else {
                1int
            },
{
    lemma_poll_finds_idle(list, signal);
    law_listing_stays_well_formed(list, signal, restarted);
    law_listing_loses_no_request(list, signal, restarted);
    lemma_listing_uses_up(list, signal, restarted);
    let (next, demand) = list.step(signal, restarted);
    if let DemandView::Yield(Progress::Item(item)) = demand {
        law_drained_listing_loses_no_request(next, Signal::Poll, restarted);
        let drained = list.drain(signal, restarted);
        let rest = next.drain(Signal::Poll, restarted);
        let (items, tickets) = choose|
            items: Seq<Result<Response<S>, Failure<S, E>>>,
            tickets: Seq<Ticket<S>>,
        | #[trigger]
            answer_signal(signal, tickets, items) && given(demand) + next.pending()
                == list.pending() + items && list.held() == next.held().add(tickets.to_multiset());
        let (more_items, more_tickets) = choose|
            items: Seq<Result<Response<S>, Failure<S, E>>>,
            tickets: Seq<Ticket<S>>,
        | #[trigger]
            answer_signal(Signal::<S, F, E>::Poll, tickets, items) && rest.items
                + rest.list.pending() == next.pending() + items && next.held()
                == rest.list.held().add(tickets.to_multiset());
        let (all_items, all_tickets) = (items + more_items, tickets + more_tickets);
        lemma_joined(items, tickets, more_items, more_tickets);
        if signal matches Signal::Robots(RobotsNews::Ready(Err(_))) {
            lemma_joined(items.drop_first(), tickets, more_items, more_tickets);
            assert(all_items.drop_first() =~= items.drop_first() + more_items);
        }
        assert(answer_signal(signal, all_tickets, all_items));
        assert(drained.items + drained.list.pending() =~= seq![item] + (rest.items
            + rest.list.pending()));
        assert(seq![item] + (next.pending() + more_items) =~= (seq![item] + next.pending())
            + more_items);
        assert((list.pending() + items) + more_items =~= list.pending() + all_items);
        assert(list.held() =~= drained.list.held().add(all_tickets.to_multiset()));
    } else {
        assert(given(demand) =~= Seq::empty());
    }
}

/// What the crawler gives out.
pub open spec fn given_out<O, S, F, E>(demand: CrawlerDemandView<O, S, F, E>) -> Seq<
    CrawlResult<O, S, E>,
> {
    match demand {
        CrawlerDemandView::Yield(CrawlerProgress::Item(result)) => seq![result],
        _ => Seq::empty(),
    }
}

/// The result that news of a submitted job comes to, if any.
pub open spec fn job_results<O, S, F, E>(
    phase: CrawlerPhaseView,
    signal: CrawlerSignal<O, S, F, E>,
) -> Seq<CrawlResult<O, S, E>> {
    match (phase, signal) {
        (
            CrawlerPhaseView::Output(_),
            CrawlerSignal::Output(OutputNews::Ready(Ok(Some(output)))),
        ) => seq![CrawlResult::Finished(Ok(output))],
        (
            CrawlerPhaseView::Output(_),
            CrawlerSignal::Output(OutputNews::Ready(Err(error))),
        ) => seq![CrawlResult::Finished(Err(Failure::Outside(error)))],
        (
            CrawlerPhaseView::Crawl(_, depth),
            CrawlerSignal::Crawl(CrawlNews::Ready(Ok((reply, state)))),
        ) => seq![CrawlResult::Crawled(Ok(injected_response(depth, reply, state)))],
        (
            CrawlerPhaseView::Crawl(_, _),
            CrawlerSignal::Crawl(CrawlNews::Ready(Err(error))),
        ) => seq![CrawlResult::Crawled(Err(Failure::Outside(error)))],
        (
            CrawlerPhaseView::Crawl(_, _),
            CrawlerSignal::Crawl(CrawlNews::Unread(url, cause, state)),
        ) => seq![CrawlResult::Crawled(Err(Failure::Crawl(unread(url, cause, state))))],
        _ => Seq::empty(),
    }
}

/// What the list of domains is told when the crawler is told something.
pub open spec fn list_signal<O, S, F, E>(signal: CrawlerSignal<O, S, F, E>) -> Signal<S, F, E> {
    match signal {
        CrawlerSignal::List(signal) => signal,
        _ => Signal::Poll,
    }
}

/// A crawler loses nothing, and gives results out in the order in which they turned up: what news
/// of a job comes to, and then what is taken from the list of domains, goes behind the results that
/// nobody has taken yet. What is taken from the list answers just the requests that the list holds
/// no more.
#[verifier::rlimit(40)]
pub proof fn law_crawler_loses_no_result<O, S, F, E>(
    crawler: CrawlerState<O, S, F, E>,
    signal: CrawlerSignal<O, S, F, E>,
    restarted: Timer,
)
    requires
        crawler.well_formed(),
        crawler.expects(signal),
    ensures
        ({
            let (after, demand) = crawler.step(signal, restarted);
            exists|taken: Seq<Result<Response<S>, Failure<S, E>>>|
                given_out(demand) + after.results == crawler.results + job_results(
                    crawler.phase,
                    signal,
                ) + crawled::<O, S, E>(taken) && #[trigger] list_loses_nothing(
                    crawler.list,
                    list_signal(signal),
                    after.list,
                    taken,
                )
        }),
{
    let (after, demand) = crawler.step(signal, restarted);
    let jobs = job_results(crawler.phase, signal);
    let none = Seq::<Result<Response<S>, Failure<S, E>>>::empty();
    let told = list_signal(signal);
    lemma_no_tickets::<S>();
    assert(crawled::<O, S, E>(none) =~= Seq::empty());
    if after.list == crawler.list && told is Poll {
        assert(none + after.list.pending() =~= crawler.list.pending() + none);
        assert(crawler.list.held() =~= after.list.held().add(Multiset::empty()));
        assert(answer_signal(told, Seq::empty(), none));
        assert(list_loses_nothing(crawler.list, told, after.list, none));
    }
    law_drained_listing_loses_no_request(crawler.list, told, restarted);
    let taken = crawler.list.drain(told, restarted).items;
    match (crawler.phase, signal) {
        (CrawlerPhaseView::Output(left), CrawlerSignal::Output(_)) => {
            if left > 0 || crawler.crawls.len() > 0 {
                assert(given_out(demand) + after.results =~= crawler.results + jobs
                    + crawled::<O, S, E>(none));
            } else {
                assert(given_out(demand) + after.results =~= crawler.results + jobs
                    + crawled::<O, S, E>(taken));
            }
        },
        (CrawlerPhaseView::Crawl(left, _), CrawlerSignal::Crawl(_)) => {
            if left > 0 {
                assert(given_out(demand) + after.results =~= crawler.results + jobs
                    + crawled::<O, S, E>(none));
            } else {
                assert(given_out(demand) + after.results =~= crawler.results + jobs
                    + crawled::<O, S, E>(taken));
            }
        },
        (CrawlerPhaseView::List, CrawlerSignal::List(_)) => {
            assert(given_out(demand) + after.results =~= crawler.results + jobs + crawled::<
                O,
                S,
                E,
            >(taken));
        },
        _ => {
            if crawler.results.len() > 0 || crawler.outputs.len() > 0 || crawler.crawls.len() > 0 {
                assert(given_out(demand) + after.results =~= crawler.results + jobs
                    + crawled::<O, S, E>(none));
            } else {
                assert(given_out(demand) + after.results =~= crawler.results + jobs
                    + crawled::<O, S, E>(taken));
            }
        },
    }
}

} // verus!
