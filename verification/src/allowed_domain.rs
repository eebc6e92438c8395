//! One domain of an allow list: its queue, its `robots.txt` and its requests in flight.
use crate::error::{CrawlError, DisallowReason, Failure};
use crate::fetch::{
    disallow, disallowed, fetched, get_response, in_flight, optional_task, reject_depth,
    start_request, swap_removed, too_deep, Demand, DemandView, FetchNews, FetchTask,
    Fetched, InFlight, Progress, RobotsNews, RobotsTask, RobotsTaskView, Signal, Ticket,
};
use crate::requests::{NextRequest, QueueState, QueuedRequest, RequestDelay, RequestQueue};
use crate::response::Response;
use crate::robots::{RobotsData, RobotsView};
use crate::time::Timer;
use crate::web::robots_txt_url;
use reqwest_middleware::ClientWithMiddleware;
use std::collections::VecDeque;
use vstd::prelude::*;

verus! {

/// How an allowed domain is to be treated.
pub struct AllowListConfig {
    /// The delay between two requests.
    pub delay: Option<RequestDelay>,
    /// Respect any restrictions set by the target host's robots.txt file.
    pub respect_robots_txt: bool,
    /// The client that sends the requests.
    pub client: ClientWithMiddleware,
    /// Whether to ignore responses with a non 2xx response code.
    pub skip_non_successful_responses: bool,
    /// The maximum depth of a request.
    pub max_depth: usize,
    /// Limits how many requests execute concurrently; one may always do so.
    pub max_requests: usize,
}

/// What a domain is waiting for.
pub enum DomainPhase<S> {
    /// For somebody to want the next result.
    Idle,
    /// For news of the `robots.txt`.
    Robots,
    /// For the timer.
    Timer,
    /// For news of a request that was just started.
    First(Ticket<S>),
    /// For news of a request that was in flight, while the given number of others are still to be
    /// looked after.
    Advance(usize, Ticket<S>),
}

/// What a [DomainPhase] says.
pub enum PhaseView<S> {
    /// Somebody has to want the next result.
    Idle,
    /// The `robots.txt` is out.
    Robots,
    /// The timer is out.
    Timer,
    /// A request that was just started is out.
    First(Ticket<S>),
    /// A request that was in flight is out, and so many others are still to be looked after.
    Advance(nat, Ticket<S>),
}

impl<S> View for DomainPhase<S> {
    type V = PhaseView<S>;

    open spec fn view(&self) -> PhaseView<S> {
        match *self {
            DomainPhase::Idle => PhaseView::Idle,
            DomainPhase::Robots => PhaseView::Robots,
            DomainPhase::Timer => PhaseView::Timer,
            DomainPhase::First(ticket) => PhaseView::First(ticket),
            DomainPhase::Advance(n, ticket) => PhaseView::Advance(n as nat, ticket),
        }
    }
}

/// A domain that requests may go to.
pub struct AllowedDomain<S, F> {
    /// The name of the domain.
    host: String,
    client: ClientWithMiddleware,
    /// Requests that eventually end in a response that is passed to the scraper.
    in_progress_crawl_requests: Vec<InFlight<S, F>>,
    /// The request for the robots.txt of the domain.
    in_progress_robots_txt_crawls: Option<RobotsTask<F>>,
    /// Temporary buffer for requests that may arrive while robots.txt is being fetched.
    tmp_request_buffer: Option<VecDeque<QueuedRequest<S>>>,
    /// All queued requests.
    request_queue: RequestQueue<S>,
    /// The parsed robots.txt contents of this domain.
    robots: Option<RobotsData>,
    /// Whether to ignore responses with a non 2xx response code.
    skip_non_successful_responses: bool,
    /// Respect any restrictions set by the target host's robots.txt file.
    respect_robots_txt: bool,
    /// The maximum depth of a request.
    max_depth: usize,
    /// Limits how many requests execute concurrently.
    max_requests: usize,
    /// What the domain is waiting for.
    phase: DomainPhase<S>,
}

/// What an [AllowedDomain] holds.
#[verifier::ext_equal]
pub struct DomainState<S, F> {
    /// The name of the domain.
    pub host: String,
    /// The client that sends the requests.
    pub client: ClientWithMiddleware,
    /// The requests in flight.
    pub in_flight: Seq<InFlight<S, F>>,
    /// The request for the `robots.txt`.
    pub robots_task: Option<RobotsTaskView<F>>,
    /// The requests that wait for the `robots.txt`.
    pub buffer: Option<Seq<QueuedRequest<S>>>,
    /// The requests that wait to be sent.
    pub queue: QueueState<S>,
    /// The `robots.txt`.
    pub robots: Option<RobotsView>,
    /// Whether responses that were not successful are skipped.
    pub skip_non_successful_responses: bool,
    /// Whether the `robots.txt` is respected.
    pub respect_robots_txt: bool,
    /// The maximum depth of a request.
    pub max_depth: usize,
    /// The number of requests that may be in flight at once; 0 counts as 1.
    pub max_requests: usize,
    /// What the domain is waiting for.
    pub phase: PhaseView<S>,
}

/// What optional data says.
pub open spec fn optional_robots(robots: Option<RobotsData>) -> Option<RobotsView> {
    match robots {
        Some(data) => Some(data@),
        None => None,
    }
}

/// Whether a request may go by what is known of the `robots.txt`: while nothing is known, it may.
pub open spec fn lets_pass<S>(robots: Option<RobotsView>, request: QueuedRequest<S>) -> bool {
    match robots {
        Some(data) => data.permits(request.request.url(), request.request.headers()),
        None => true,
    }
}

/// How many requests at the front may go by what is known of the `robots.txt`.
pub open spec fn passing_prefix<S>(
    robots: Option<RobotsView>,
    requests: Seq<QueuedRequest<S>>,
) -> nat
    decreases requests.len(),
{
    if requests.len() == 0 || !lets_pass(robots, requests[0]) {
        0
    } else {
        1 + passing_prefix(robots, requests.drop_first())
    }
}

/// Whether all waiting requests lie within a depth.
pub open spec fn queued_within<S>(requests: Seq<QueuedRequest<S>>, max_depth: usize) -> bool {
    forall|i: int| 0 <= i < requests.len() ==> (#[trigger] requests[i]).depth <= max_depth
}

/// Whether all requests in flight lie within a depth.
pub open spec fn flying_within<S, F>(requests: Seq<InFlight<S, F>>, max_depth: usize) -> bool {
    forall|i: int| 0 <= i < requests.len() ==> (#[trigger] requests[i]).ticket.depth <= max_depth
}

/// Whether all requests in flight have been sent.
pub open spec fn all_running<S, F>(requests: Seq<InFlight<S, F>>) -> bool {
    forall|i: int| 0 <= i < requests.len() ==> (#[trigger] requests[i]).task is Running
}

/// The number of requests that may be in flight at once under a limit. Without any, no request
/// would ever be answered, so one may always be.
pub open spec fn concurrency(max_requests: usize) -> nat {
    if max_requests == 0 {
        1
    } else {
        max_requests as nat
    }
}

/// Whether there is room for one more request in flight.
pub fn is_below(in_flight: usize, max_requests: usize) -> (room: bool)
    ensures
        room == (in_flight < concurrency(max_requests)),
{
    in_flight == 0 || in_flight < max_requests
}

impl<S, F> DomainState<S, F> {
    /// The number of requests in flight, the one that is being looked after included.
    pub open spec fn flying(self) -> nat {
        self.in_flight.len() + if self.phase is First || self.phase is Advance {
            1nat
        } else {
            0nat
        }
    }

    /// Whether there is room for one more request in flight.
    pub open spec fn has_room(self) -> bool {
        self.in_flight.len() < concurrency(self.max_requests)
    }

    /// Whether no request that is held lies deeper than allowed.
    pub open spec fn within_depth(self) -> bool {
        &&& queued_within(self.queue.queued, self.max_depth)
        &&& self.buffer matches Some(buffer) ==> queued_within(buffer, self.max_depth)
        &&& flying_within(self.in_flight, self.max_depth)
        &&& match self.phase {
            PhaseView::First(ticket) => ticket.depth <= self.max_depth,
            PhaseView::Advance(_, ticket) => ticket.depth <= self.max_depth,
            _ => true,
        }
    }

    /// Whether the state is one that a domain can be in. No more requests are in flight than may
    /// be at once.
    pub open spec fn well_formed(self) -> bool {
        &&& self.phase !is Timer ==> self.queue.armed()
        &&& self.flying() <= concurrency(self.max_requests)
        &&& self.phase is Timer ==> self.has_room()
        &&& self.robots matches Some(robots) ==> robots.well_formed()
        &&& self.phase matches PhaseView::Advance(left, _) ==> left <= self.in_flight.len()
        &&& all_running(self.in_flight)
        &&& self.phase is Idle || self.phase is Robots || self.is_flushed()
        &&& self.within_depth()
    }

    /// Whether requests wait for the `robots.txt` only while that is asked for.
    pub open spec fn is_flushed(self) -> bool {
        self.buffer is Some ==> self.robots_task is Some
    }

    /// Whether this is a domain as `config` describes it that has nothing to do yet. If there is a
    /// delay, its timer runs out at once.
    pub open spec fn follows(self, config: AllowListConfig) -> bool {
        &&& self =~= DomainState::<S, F> {
            host: self.host,
            client: config.client,
            in_flight: Seq::empty(),
            robots_task: None,
            buffer: None,
            queue: QueueState {
                timer: self.queue.timer,
                delay: config.delay,
                queued: Seq::empty(),
            },
            robots: None,
            skip_non_successful_responses: config.skip_non_successful_responses,
            respect_robots_txt: config.respect_robots_txt,
            max_depth: config.max_depth,
            max_requests: config.max_requests,
            phase: PhaseView::Idle,
        }
        &&& self.queue.timer is Some <==> config.delay is Some
        &&& self.queue.timer matches Some(timer) ==> timer.runs_out_at_once()
    }

    /// Whether the domain is waiting for such a signal.
    pub open spec fn expects<E>(self, signal: Signal<S, F, E>) -> bool {
        match (self.phase, signal) {
            (PhaseView::Idle, Signal::Poll) => true,
            (PhaseView::Robots, Signal::Robots(news)) => news matches RobotsNews::Ready(Ok(data))
                ==> data@.well_formed(),
            (PhaseView::Timer, Signal::Timer(_, elapsed)) => elapsed
                ==> self.queue.delay_is_valid(),
            (PhaseView::First(_), Signal::Fetch(_)) => true,
            (PhaseView::Advance(_, _), Signal::Fetch(_)) => true,
            _ => false,
        }
    }

    /// The domain in another phase.
    pub open spec fn entering(self, phase: PhaseView<S>) -> Self {
        DomainState { phase, ..self }
    }

    /// Waiting requests: those that wait for the `robots.txt`, and those that wait to be sent.
    pub open spec fn waiting(self) -> nat {
        self.queue.queued.len() + match self.buffer {
            Some(buffer) => buffer.len(),
            None => 0,
        }
    }

    /// The requests that wait for the `robots.txt`.
    pub open spec fn buffered(self) -> Seq<QueuedRequest<S>> {
        match self.buffer {
            Some(buffer) => buffer,
            None => Seq::empty(),
        }
    }

    /// The domain when a request is put in: one that lies too deep is refused. Where the
    /// `robots.txt` is respected and not there yet it is asked for, and the request waits for it;
    /// otherwise the request waits to be sent.
    pub open spec fn add_request(self, request: QueuedRequest<S>) -> (
        Self,
        Result<(), CrawlError<S>>,
    ) {
        if request.depth > self.max_depth {
            (self, Err(too_deep(request)))
        } else if self.respect_robots_txt && self.robots is None {
            let task = match self.robots_task {
                Some(task) => task,
                None => RobotsTaskView::Fetch(self.client, robots_txt_url(request.request.url())),
            };
            (
                DomainState {
                    robots_task: Some(task),
                    buffer: Some(self.buffered().push(request)),
                    ..self
                },
                Ok(()),
            )
        } else {
            (DomainState { queue: self.queue.push(request), ..self }, Ok(()))
        }
    }

    /// The next result is wanted: the `robots.txt` comes first.
    pub open spec fn begin<E>(self) -> (Self, DemandView<S, F, E>) {
        match self.robots_task {
            Some(task) => (
                DomainState { robots_task: None, ..self }.entering(PhaseView::Robots),
                DemandView::PollRobots(task),
            ),
            None => self.flush(),
        }
    }

    /// The `robots.txt` is there, it failed, or it is still on its way.
    pub open spec fn hear_robots<E>(self, news: RobotsNews<S, F, E>) -> (
        Self,
        DemandView<S, F, E>,
    ) {
        match news {
            RobotsNews::Pending(task) => (
                DomainState {
                    robots_task: Some(RobotsTaskView::Running(task)),
                    ..self
                }.entering(PhaseView::Idle),
                DemandView::Yield(Progress::Pending),
            ),
            RobotsNews::Ready(Ok(data)) => DomainState { robots: Some(data@), ..self }.flush(),
            RobotsNews::Ready(Err(_)) => (
                self.entering(PhaseView::Idle),
                DemandView::Yield(
                    Progress::Item(
                        Err(Failure::Crawl(CrawlError::RobotsTxtError { host: self.host })),
                    ),
                ),
            ),
        }
    }

    /// The requests that waited for the `robots.txt` are put in the queue, up to the first one
    /// that it disallows, which is given back.
    pub open spec fn flush<E>(self) -> (Self, DemandView<S, F, E>) {
        match self.buffer {
            None => self.pull(),
            Some(buffer) => {
                let passing = passing_prefix(self.robots, buffer);
                if passing == buffer.len() {
                    DomainState { queue: self.queue.append(buffer), buffer: None, ..self }.pull()
                } else {
                    (
                        DomainState {
                            queue: self.queue.append(buffer.take(passing as int)),
                            buffer: Some(buffer.skip(passing as int + 1)),
                            ..self
                        }.entering(PhaseView::Idle),
                        refusal(buffer[passing as int]),
                    )
                }
            },
        }
    }

    /// The next request is taken from the queue, if there is room for it in flight, and once the
    /// timer allows it.
    pub open spec fn pull<E>(self) -> (Self, DemandView<S, F, E>) {
        if !self.has_room() {
            self.advance(self.in_flight.len())
        } else {
            let (queue, next) = self.queue.poll_next();
            let rest = DomainState { queue, ..self };
            match next {
                NextRequest::Empty => rest.advance(rest.in_flight.len()),
                NextRequest::Wait(timer) => (
                    rest.entering(PhaseView::Timer),
                    DemandView::PollTimer(timer),
                ),
                NextRequest::Send(request) => rest.dispatch(request),
            }
        }
    }

    /// The timer is back; if it has run out the next request goes, and it runs on as `restarted`.
    pub open spec fn hear_timer<E>(self, timer: Timer, elapsed: bool, restarted: Timer) -> (
        Self,
        DemandView<S, F, E>,
    ) {
        let (queue, next) = self.queue.resume(timer, elapsed, restarted);
        let rest = DomainState { queue, ..self };
        match next {
            None => rest.advance(rest.in_flight.len()),
            Some(request) => rest.dispatch(request),
        }
    }

    /// A request is sent, unless the `robots.txt` disallows it.
    pub open spec fn dispatch<E>(self, request: QueuedRequest<S>) -> (Self, DemandView<S, F, E>) {
        if lets_pass(self.robots, request) {
            let started = in_flight::<S, F>(request, self.client);
            (self.entering(PhaseView::First(started.ticket)), DemandView::PollFetch(started.task))
        } else {
            (self.entering(PhaseView::Idle), refusal(request))
        }
    }

    /// News of a request that was just started: if it is not done, the next one is taken from the
    /// queue, if there is room for it.
    pub open spec fn hear_first<E>(self, ticket: Ticket<S>, news: FetchNews<F>) -> (
        Self,
        DemandView<S, F, E>,
    ) {
        match fetched(ticket, news, self.skip_non_successful_responses) {
            Fetched::Waiting(flight) => DomainState {
                in_flight: self.in_flight.push(flight),
                ..self
            }.pull(),
            Fetched::Reading(ticket, response) => (
                self.entering(PhaseView::First(ticket)),
                DemandView::PollFetch(FetchTask::Read(response)),
            ),
            Fetched::Finished(result) => (
                self.entering(PhaseView::Idle),
                DemandView::Yield(Progress::Item(result)),
            ),
        }
    }

    /// News of a request that was in flight: if it is not done, the one before it is next.
    pub open spec fn hear_next<E>(self, left: nat, ticket: Ticket<S>, news: FetchNews<F>) -> (
        Self,
        DemandView<S, F, E>,
    ) {
        match fetched(ticket, news, self.skip_non_successful_responses) {
            Fetched::Waiting(flight) => DomainState {
                in_flight: self.in_flight.push(flight),
                ..self
            }.advance(left),
            Fetched::Reading(ticket, response) => (
                self.entering(PhaseView::Advance(left, ticket)),
                DemandView::PollFetch(FetchTask::Read(response)),
            ),
            Fetched::Finished(result) => (
                self.entering(PhaseView::Idle),
                DemandView::Yield(Progress::Item(result)),
            ),
        }
    }

    /// The first `left` requests in flight are looked after, the last of them first.
    pub open spec fn advance<E>(self, left: nat) -> (Self, DemandView<S, F, E>) {
        if left == 0 {
            (
                self.entering(PhaseView::Idle),
                DemandView::Yield(
                    if self.in_flight.len() == 0 && self.robots_task is None
                        && self.queue.queued.len() == 0 {
                        Progress::Done
                    } else {
                        Progress::Pending
                    },
                ),
            )
        } else {
            let flight = self.in_flight[left - 1];
            (
                DomainState {
                    in_flight: swap_removed(self.in_flight, left - 1),
                    ..self
                }.entering(PhaseView::Advance((left - 1) as nat, flight.ticket)),
                DemandView::PollFetch(flight.task),
            )
        }
    }

    /// What a signal does; a timer that has run out runs on as `restarted`.
    pub open spec fn step<E>(self, signal: Signal<S, F, E>, restarted: Timer) -> (
        Self,
        DemandView<S, F, E>,
    ) {
        match (self.phase, signal) {
            (PhaseView::Robots, Signal::Robots(news)) => self.hear_robots(news),
            (PhaseView::Timer, Signal::Timer(timer, elapsed)) => self.hear_timer(
                timer,
                elapsed,
                restarted,
            ),
            (PhaseView::First(ticket), Signal::Fetch(news)) => self.hear_first(ticket, news),
            (PhaseView::Advance(left, ticket), Signal::Fetch(news)) => self.hear_next(
                left,
                ticket,
                news,
            ),
            _ => self.begin(),
        }
    }

    /// Whether a timer may run on as `restarted` after that signal.
    pub open spec fn may_restart<E>(self, signal: Signal<S, F, E>, restarted: Timer) -> bool {
        signal matches Signal::Timer(_, elapsed) ==> self.queue.may_restart(elapsed, restarted)
    }
}

/// What a domain has come to once every result that is at hand has been taken from it.
#[verifier::ext_equal]
pub struct Drained<S, F, E> {
    /// The domain.
    pub domain: DomainState<S, F>,
    /// The results, in their order.
    pub items: Seq<Result<Response<S>, Failure<S, E>>>,
    /// What the domain wants done before there can be more.
    pub demand: DemandView<S, F, E>,
}

impl<S, F> DomainState<S, F> {
    /// Takes in a signal, and takes every result that is at hand.
    pub open spec fn drain<E>(self, signal: Signal<S, F, E>, restarted: Timer) -> Drained<S, F, E>
        decreases
                2 * self.waiting() + if signal is Poll {
                    0int
                } else {
                    1int
                },
    {
        let (domain, demand) = self.step(signal, restarted);
        match demand {
            DemandView::Yield(Progress::Item(item)) => {
                proof {
                    lemma_step_uses_up(self, signal, restarted);
                }
                let rest = domain.drain(Signal::Poll, restarted);
                Drained { items: seq![item] + rest.items, ..rest }
            },
            _ => Drained { domain, items: Seq::empty(), demand },
        }
    }
}

/// No signal makes the number of waiting requests grow, and where a wish for the next result is
/// answered at once, one of them is used up.
pub proof fn lemma_step_uses_up<S, F, E>(
    domain: DomainState<S, F>,
    signal: Signal<S, F, E>,
    restarted: Timer,
)
    ensures
        domain.step(signal, restarted).0.waiting() <= domain.waiting(),
        signal is Poll && (domain.step(signal, restarted).1 matches DemandView::Yield(Progress::Item(_)))
            ==> domain.step(signal, restarted).0.waiting() < domain.waiting(),
{
    if let Some(buffer) = domain.buffer {
        match (domain.phase, signal) {
            (PhaseView::Robots, Signal::Robots(RobotsNews::Ready(Ok(data)))) => {
                lemma_prefix_is_short(Some(data@), buffer);
            },
            _ => {
                lemma_prefix_is_short(domain.robots, buffer);
            },
        }
    }
}

/// Taking every result that is at hand uses up a waiting request for each of them, but for one that
/// the signal itself may bring.
pub proof fn lemma_drain_uses_up<S, F, E>(
    domain: DomainState<S, F>,
    signal: Signal<S, F, E>,
    restarted: Timer,
)
    ensures
        ({
            let drained = domain.drain(signal, restarted);
            &&& drained.domain.waiting() <= domain.waiting()
            &&& drained.items.len() + drained.domain.waiting() <= domain.waiting()
                + if signal is Poll {
                0nat
            } else {
                1nat
            }
        }),
    decreases
            2 * domain.waiting() + if signal is Poll {
                0int
            } else {
                1int
            },
{
    lemma_step_uses_up(domain, signal, restarted);
    let (next, demand) = domain.step(signal, restarted);
    if demand matches DemandView::Yield(Progress::Item(_)) {
        lemma_drain_uses_up::<S, F, E>(next, Signal::Poll, restarted);
    }
}

/// Not more requests pass than there are, and the first that does not pass is disallowed.
pub proof fn lemma_prefix_is_short<S>(
    robots: Option<RobotsView>,
    requests: Seq<QueuedRequest<S>>,
)
    ensures
        passing_prefix(robots, requests) <= requests.len(),
        passing_prefix(robots, requests) < requests.len() ==> !lets_pass(
            robots,
            requests[passing_prefix(robots, requests) as int],
        ),
        forall|i: int|
            0 <= i < passing_prefix(robots, requests) ==> lets_pass(
                robots,
                #[trigger] requests[i],
            ),
    decreases requests.len(),
{
    if requests.len() > 0 && lets_pass(robots, requests[0]) {
        lemma_prefix_is_short(robots, requests.drop_first());
        assert forall|i: int| 0 <= i < passing_prefix(robots, requests) implies lets_pass(
            robots,
            #[trigger] requests[i],
        ) by {
            if i > 0 {
                assert(requests[i] == requests.drop_first()[i - 1]);
            }
        }
    }
}

/// The answer to a request that the `robots.txt` disallows.
pub open spec fn refusal<S, F, E>(request: QueuedRequest<S>) -> DemandView<S, F, E> {
    DemandView::Yield(
        Progress::Item(Err(Failure::Crawl(disallowed(request, DisallowReason::RobotsTxt)))),
    )
}

impl<S, F> View for AllowedDomain<S, F> {
    type V = DomainState<S, F>;

    closed spec fn view(&self) -> DomainState<S, F> {
        DomainState {
            host: self.host,
            client: self.client,
            in_flight: self.in_progress_crawl_requests@,
            robots_task: optional_task(self.in_progress_robots_txt_crawls),
            buffer: match self.tmp_request_buffer {
                Some(buffer) => Some(buffer@),
                None => None,
            },
            queue: self.request_queue@,
            robots: optional_robots(self.robots),
            skip_non_successful_responses: self.skip_non_successful_responses,
            respect_robots_txt: self.respect_robots_txt,
            max_depth: self.max_depth,
            max_requests: self.max_requests,
            phase: self.phase@,
        }
    }
}

impl<S, F> AllowedDomain<S, F> {
    /// The domain of that name, with nothing to do yet.
    pub fn new(host: String, config: AllowListConfig) -> (domain: Self)
        ensures
            domain@.host == host,
            domain@.follows(config),
            domain@.well_formed(),
    {
        let AllowListConfig {
            delay,
            respect_robots_txt,
            client,
            skip_non_successful_responses,
            max_depth,
            max_requests,
        } = config;
        let request_queue: RequestQueue<S> = match delay {
            Some(delay) => RequestQueue::with_delay(delay),
            None => RequestQueue::default(),
        };
        AllowedDomain {
            host,
            client,
            in_progress_crawl_requests: Vec::new(),
            in_progress_robots_txt_crawls: None,
            tmp_request_buffer: None,
            request_queue,
            robots: None,
            skip_non_successful_responses,
            respect_robots_txt,
            max_depth,
            max_requests,
            phase: DomainPhase::Idle,
        }
    }

    /// Puts a request in: one that lies too deep is refused. Where the `robots.txt` is respected
    /// and not there yet, it is asked for, and the request waits for it. Otherwise the request
    /// waits to be sent.
    pub fn add_request(&mut self, request: QueuedRequest<S>) -> (added: Result<(), CrawlError<S>>)
        ensures
            (final(self)@, added) == old(self)@.add_request(request),
            old(self)@.well_formed() ==> final(self)@.well_formed(),
    {
        if request.depth > self.max_depth {
            return Err(reject_depth(request));
        }
        if self.respect_robots_txt && self.robots.is_none() {
            if self.in_progress_robots_txt_crawls.is_none() {
                let url = request.request.address().robots_txt();
                self.in_progress_robots_txt_crawls = Some(
                    RobotsTask::Fetch(self.client.clone(), url),
                );
            }
            let mut buffer = match self.tmp_request_buffer.take() {
                Some(buffer) => buffer,
                None => VecDeque::new(),
            };
            buffer.push_back(request);
            self.tmp_request_buffer = Some(buffer);
        } else {
            self.request_queue.push_back(request);
        }
        Ok(())
    }

    /// Whether the domain is waiting for such a signal.
    pub fn accepts<E>(&self, signal: &Signal<S, F, E>) -> (accepted: bool)
        ensures
            accepted == self@.expects(*signal),
    {
        match (&self.phase, signal) {
            (DomainPhase::Idle, Signal::Poll) => true,
            (DomainPhase::Robots, Signal::Robots(news)) => match news {
                RobotsNews::Ready(Ok(data)) => data.is_well_formed(),
                _ => true,
            },
            (DomainPhase::Timer, Signal::Timer(_, elapsed)) => !*elapsed
                || self.request_queue.has_valid_delay(),
            (DomainPhase::First(_), Signal::Fetch(_)) => true,
            (DomainPhase::Advance(_, _), Signal::Fetch(_)) => true,
            _ => false,
        }
    }

    /// Takes a signal in and says what is to be done next. The timer has run out only where the
    /// delay can be kept.
    ///
    /// The `robots.txt` is driven to completion first. Then the requests that waited for it are
    /// queued, those in the queue are started, as far as the delay and the limit allow it, and
    /// every request in flight is looked after once. The first result that turns up is given out.
    pub fn step<E>(&mut self, signal: Signal<S, F, E>) -> (demand: Demand<S, F, E>)
        requires
            old(self)@.well_formed(),
            old(self)@.expects(signal),
        ensures
            exists|restarted: Timer|
                old(self)@.may_restart(signal, restarted) && (final(self)@, demand@)
                    == #[trigger] old(self)@.step(signal, restarted),
            final(self)@.well_formed(),
            final(self)@.phase is Idle <==> demand@ is Yield,
    {
        let mut phase = DomainPhase::Idle;
        std::mem::swap(&mut phase, &mut self.phase);
        let ghost idle = self@;
        assert(idle == old(self)@.entering(PhaseView::Idle));
        let ghost mut restarted: Timer = arbitrary();
        let demand = match (phase, signal) {
            (DomainPhase::Robots, Signal::Robots(news)) => self.hear_robots(news),
            (DomainPhase::Timer, Signal::Timer(timer, elapsed)) => {
                let demand = self.hear_timer(timer, elapsed);
                proof {
                    restarted = choose|restarted: Timer|
                        idle.queue.may_restart(elapsed, restarted) && (self@, demand@)
                            == #[trigger] idle.hear_timer::<E>(timer, elapsed, restarted);
                }
                demand
            },
            (DomainPhase::First(ticket), Signal::Fetch(news)) => self.hear_first(ticket, news),
            (DomainPhase::Advance(left, ticket), Signal::Fetch(news)) => self.hear_next(
                left,
                ticket,
                news,
            ),
            _ => self.begin(),
        };
        assert((self@, demand@) == old(self)@.step(signal, restarted));
        demand
    }

    /// Takes a signal in and puts every result that is at hand behind `results`, until the domain
    /// wants something done, or has nothing more to give.
    pub fn drain<E>(
        &mut self,
        signal: Signal<S, F, E>,
        results: &mut VecDeque<Result<Response<S>, Failure<S, E>>>,
    ) -> (demand: Demand<S, F, E>)
        requires
            old(self)@.well_formed(),
            old(self)@.expects(signal),
        ensures
            exists|restarted: Timer|
                old(self)@.may_restart(signal, restarted) && ({
                    let drained = #[trigger] old(self)@.drain(signal, restarted);
                    &&& final(self)@ == drained.domain
                    &&& final(results)@ == old(results)@ + drained.items
                    &&& demand@ == drained.demand
                }),
            final(self)@.well_formed(),
            final(self)@.phase is Idle <==> demand@ is Yield,
            !(demand@ matches DemandView::Yield(Progress::Item(_))),
    {
        let mut demand = self.step(signal);
        let ghost restarted = choose|restarted: Timer|
            old(self)@.may_restart(signal, restarted) && (self@, demand@) == #[trigger] old(
                self,
            )@.step(signal, restarted);
        let ghost drained = old(self)@.drain(signal, restarted);
        let ghost before = results@;
        loop
            invariant_except_break
                self@.well_formed(),
                self@.phase is Idle <==> demand@ is Yield,
                ({
                    let rest = self@.drain::<E>(Signal::Poll, restarted);
                    match demand@ {
                        DemandView::Yield(Progress::Item(item)) => {
                            &&& drained.domain == rest.domain
                            &&& before + drained.items == results@ + (seq![item] + rest.items)
                            &&& drained.demand == rest.demand
                        },
                        _ => {
                            &&& drained.domain == self@
                            &&& before + drained.items == results@
                            &&& drained.demand == demand@
                        },
                    }
                }),
            ensures
                self@.well_formed(),
                self@.phase is Idle <==> demand@ is Yield,
                !(demand@ matches DemandView::Yield(Progress::Item(_))),
                drained.domain == self@,
                before + drained.items == results@,
                drained.demand == demand@,
            decreases
                    self@.waiting(),
                    if demand@ matches DemandView::Yield(Progress::Item(_)) {
                        1int
                    } else {
                        0int
                    },
        {
            match demand {
                Demand::Yield(Progress::Item(item)) => {
                    let ghost (domain, pushed) = (self@, results@);
                    results.push_back(item);
                    demand = self.step(Signal::Poll);
                    proof {
                        lemma_step_uses_up::<S, F, E>(domain, Signal::Poll, restarted);
                        let rest = domain.drain::<E>(Signal::Poll, restarted);
                        assert(pushed + (seq![item] + rest.items) =~= pushed.push(item)
                            + rest.items);
                    }
                },
                other => {
                    demand = other;
                    break;
                },
            }
        }
        demand
    }

    fn begin<E>(&mut self) -> (demand: Demand<S, F, E>)
        requires
            old(self)@.entering(PhaseView::Idle).well_formed(),
        ensures
            (final(self)@, demand@) == old(self)@.begin::<E>(),
            final(self)@.well_formed(),
            final(self)@.phase is Idle <==> demand@ is Yield,
    {
        match self.in_progress_robots_txt_crawls.take() {
            Some(task) => {
                self.phase = DomainPhase::Robots;
                Demand::PollRobots(task)
            },
            None => self.flush(),
        }
    }

    fn hear_robots<E>(&mut self, news: RobotsNews<S, F, E>) -> (demand: Demand<S, F, E>)
        requires
            old(self)@.entering(PhaseView::Idle).well_formed(),
            news matches RobotsNews::Ready(Ok(data)) ==> data@.well_formed(),
        ensures
            (final(self)@, demand@) == old(self)@.hear_robots(news),
            final(self)@.well_formed(),
            final(self)@.phase is Idle <==> demand@ is Yield,
    {
        match news {
            RobotsNews::Pending(task) => {
                self.in_progress_robots_txt_crawls = Some(RobotsTask::Running(task));
                self.phase = DomainPhase::Idle;
                Demand::Yield(Progress::Pending)
            },
            RobotsNews::Ready(Ok(data)) => {
                self.robots = Some(data);
                self.flush()
            },
            RobotsNews::Ready(Err(_)) => {
                self.phase = DomainPhase::Idle;
                let host = self.host.clone();
                Demand::Yield(
                    Progress::Item(Err(Failure::Crawl(CrawlError::RobotsTxtError { host }))),
                )
            },
        }
    }

    /// Whether a request may go by what is known of the `robots.txt`.
    fn may_go(&self, request: &QueuedRequest<S>) -> (may: bool)
        requires
            self@.robots matches Some(robots) ==> robots.well_formed(),
        ensures
            may == lets_pass(self@.robots, *request),
    {
        match &self.robots {
            Some(robots) => robots.is_not_disallowed(&request.request),
            None => true,
        }
    }

    fn flush<E>(&mut self) -> (demand: Demand<S, F, E>)
        requires
            old(self)@.entering(PhaseView::Idle).well_formed(),
        ensures
            (final(self)@, demand@) == old(self)@.flush::<E>(),
            final(self)@.well_formed(),
            final(self)@.phase is Idle <==> demand@ is Yield,
    {
        let mut waiting = match self.tmp_request_buffer.take() {
            Some(buffer) => buffer,
            None => {
                return self.pull();
            },
        };
        let ghost buffer = waiting@;
        let ghost robots = self@.robots;
        let ghost mut passed: int = 0;
        while waiting.len() > 0
            invariant
                0 <= passed <= buffer.len(),
                waiting@ == buffer.skip(passed),
                passing_prefix(robots, buffer) == passed + passing_prefix(robots, waiting@),
                old(self)@.buffer == Some(buffer),
                self@ == (DomainState {
                    queue: old(self)@.queue.append(buffer.take(passed)),
                    buffer: None,
                    ..old(self)@
                }),
                robots == old(self)@.robots,
                robots matches Some(data) ==> data.well_formed(),
                old(self)@.entering(PhaseView::Idle).well_formed(),
            decreases waiting@.len(),
        {
            let request = waiting.pop_front().unwrap();
            assert(request == buffer[passed]);
            assert(waiting@ =~= buffer.skip(passed).drop_first());
            assert(waiting@ =~= buffer.skip(passed + 1));
            if self.may_go(&request) {
                self.request_queue.push_back(request);
                proof {
                    assert(buffer.take(passed).push(request) =~= buffer.take(passed + 1));
                    assert(self@.queue.queued =~= old(self)@.queue.queued + buffer.take(
                        passed + 1,
                    ));
                    passed = passed + 1;
                }
            } else {
                self.tmp_request_buffer = Some(waiting);
                self.phase = DomainPhase::Idle;
                return Demand::Yield(
                    Progress::Item(Err(Failure::Crawl(disallow(request, DisallowReason::RobotsTxt)))),
                );
            }
        }
        assert(buffer.take(passed) =~= buffer);
        self.pull()
    }

    fn pull<E>(&mut self) -> (demand: Demand<S, F, E>)
        requires
            old(self)@.entering(PhaseView::Idle).well_formed(),
            old(self)@.is_flushed(),
        ensures
            (final(self)@, demand@) == old(self)@.pull::<E>(),
            final(self)@.well_formed(),
            final(self)@.phase is Idle <==> demand@ is Yield,
    {
        if !is_below(self.in_progress_crawl_requests.len(), self.max_requests) {
            return self.advance(self.in_progress_crawl_requests.len());
        }
        match self.request_queue.poll_next() {
            NextRequest::Empty => self.advance(self.in_progress_crawl_requests.len()),
            NextRequest::Wait(timer) => {
                self.phase = DomainPhase::Timer;
                Demand::PollTimer(timer)
            },
            NextRequest::Send(request) => self.dispatch(request),
        }
    }

    fn hear_timer<E>(&mut self, timer: Timer, elapsed: bool) -> (demand: Demand<S, F, E>)
        requires
            old(self)@.entering(PhaseView::Timer).well_formed(),
            elapsed ==> old(self)@.queue.delay_is_valid(),
        ensures
            exists|restarted: Timer|
                old(self)@.queue.may_restart(elapsed, restarted) && (final(self)@, demand@)
                    == #[trigger] old(self)@.hear_timer::<E>(timer, elapsed, restarted),
            final(self)@.well_formed(),
            final(self)@.phase is Idle <==> demand@ is Yield,
    {
        let next = self.request_queue.resume(timer, elapsed);
        let ghost restarted = choose|restarted: Timer|
            old(self)@.queue.may_restart(elapsed, restarted) && (self.request_queue@, next)
                == #[trigger] old(self)@.queue.resume(timer, elapsed, restarted);
        let demand = match next {
            None => self.advance(self.in_progress_crawl_requests.len()),
            Some(request) => self.dispatch(request),
        };
        assert((self@, demand@) == old(self)@.hear_timer::<E>(timer, elapsed, restarted));
        demand
    }

    fn dispatch<E>(&mut self, request: QueuedRequest<S>) -> (demand: Demand<S, F, E>)
        requires
            old(self)@.entering(PhaseView::Idle).well_formed(),
            old(self)@.is_flushed(),
            old(self)@.has_room(),
            request.depth <= old(self)@.max_depth,
        ensures
            (final(self)@, demand@) == old(self)@.dispatch::<E>(request),
            final(self)@.well_formed(),
            final(self)@.phase is Idle <==> demand@ is Yield,
    {
        if self.may_go(&request) {
            let InFlight { ticket, task } = start_request(request, &self.client);
            self.phase = DomainPhase::First(ticket);
            Demand::PollFetch(task)
        } else {
            self.phase = DomainPhase::Idle;
            Demand::Yield(
                Progress::Item(Err(Failure::Crawl(disallow(request, DisallowReason::RobotsTxt)))),
            )
        }
    }

    fn hear_first<E>(&mut self, ticket: Ticket<S>, news: FetchNews<F>) -> (demand: Demand<
        S,
        F,
        E,
    >)
        requires
            old(self)@.entering(PhaseView::Idle).well_formed(),
            old(self)@.is_flushed(),
            old(self)@.has_room(),
            ticket.depth <= old(self)@.max_depth,
        ensures
            (final(self)@, demand@) == old(self)@.hear_first::<E>(ticket, news),
            final(self)@.well_formed(),
            final(self)@.phase is Idle <==> demand@ is Yield,
    {
        match get_response(ticket, news, self.skip_non_successful_responses) {
            Fetched::Waiting(flight) => {
                self.in_progress_crawl_requests.push(flight);
                self.pull()
            },
            Fetched::Reading(ticket, response) => {
                self.phase = DomainPhase::First(ticket);
                Demand::PollFetch(FetchTask::Read(response))
            },
            Fetched::Finished(result) => {
                self.phase = DomainPhase::Idle;
                Demand::Yield(Progress::Item(result))
            },
        }
    }

    fn hear_next<E>(&mut self, left: usize, ticket: Ticket<S>, news: FetchNews<F>) -> (demand:
        Demand<S, F, E>)
        requires
            old(self)@.entering(PhaseView::Idle).well_formed(),
            old(self)@.is_flushed(),
            left <= old(self)@.in_flight.len(),
            old(self)@.has_room(),
            ticket.depth <= old(self)@.max_depth,
        ensures
            (final(self)@, demand@) == old(self)@.hear_next::<E>(left as nat, ticket, news),
            final(self)@.well_formed(),
            final(self)@.phase is Idle <==> demand@ is Yield,
    {
        match get_response(ticket, news, self.skip_non_successful_responses) {
            Fetched::Waiting(flight) => {
                self.in_progress_crawl_requests.push(flight);
                self.advance(left)
            },
            Fetched::Reading(ticket, response) => {
                self.phase = DomainPhase::Advance(left, ticket);
                Demand::PollFetch(FetchTask::Read(response))
            },
            Fetched::Finished(result) => {
                self.phase = DomainPhase::Idle;
                Demand::Yield(Progress::Item(result))
            },
        }
    }

    fn advance<E>(&mut self, left: usize) -> (demand: Demand<S, F, E>)
        requires
            old(self)@.entering(PhaseView::Idle).well_formed(),
            old(self)@.is_flushed(),
            left <= old(self)@.in_flight.len(),
        ensures
            (final(self)@, demand@) == old(self)@.advance::<E>(left as nat),
            final(self)@.well_formed(),
            final(self)@.phase is Idle <==> demand@ is Yield,
    {
        if left == 0 {
            self.phase = DomainPhase::Idle;
            if self.in_progress_crawl_requests.len() == 0
                && self.in_progress_robots_txt_crawls.is_none() && self.request_queue.is_empty() {
                Demand::Yield(Progress::Done)
            } else {
                Demand::Yield(Progress::Pending)
            }
        } else {
            let InFlight { ticket, task } = self.in_progress_crawl_requests.swap_remove(left - 1);
            self.phase = DomainPhase::Advance(left - 1, ticket);
            Demand::PollFetch(task)
        }
    }

    /// Removes the configured delay.
    pub fn remove_delay(&mut self) -> (delay: Option<RequestDelay>)
        ensures
            delay == old(self)@.queue.delay,
            final(self)@ == (DomainState {
                queue: QueueState { timer: None, delay: None, ..old(self)@.queue },
                ..old(self)@
            }),
            old(self)@.well_formed() ==> final(self)@.well_formed(),
    {
        self.request_queue.remove_delay()
    }

    /// Sets a delay between requests.
    ///
    /// A timer that is running runs on; without one a timer is started that runs out at once.
    pub fn set_delay(&mut self, delay: RequestDelay) -> (before: Option<RequestDelay>)
        ensures
            before == old(self)@.queue.delay,
            final(self)@ == (DomainState {
                queue: QueueState {
                    timer: final(self)@.queue.timer,
                    delay: Some(delay),
                    ..old(self)@.queue
                },
                ..old(self)@
            }),
            old(self)@.queue.delay is Some ==> final(self)@.queue.timer
                == old(self)@.queue.timer,
            old(self)@.queue.delay is None ==> (final(self)@.queue.timer matches Some(timer)
                && timer.runs_out_at_once()),
            old(self)@.well_formed() ==> final(self)@.well_formed(),
    {
        self.request_queue.set_delay(delay)
    }
}

} // verus!
