//! A list of domains that no request may go to.
use crate::allowed_domain::{concurrency, flying_within, is_below, queued_within};
use crate::error::{CrawlError, DisallowReason, Failure};
use crate::fetch::{
    disallow, disallowed, fetched, get_response, in_flight, invalid, reject, reject_depth,
    start_request, swap_removed, too_deep, Demand, DemandView, FetchNews, FetchTask, Fetched,
    InFlight, Progress, RobotsNews, RobotsTask, RobotsTaskView, Signal, Ticket,
};
use crate::requests::{NextRequest, QueueState, QueuedRequest, RequestDelay, RequestQueue};
use crate::robots::{RobotsData, RobotsView};
use crate::time::Timer;
use crate::web::robots_txt_url;
use reqwest_middleware::ClientWithMiddleware;
use vstd::hash_map::StringHashMap;
pub use vstd::hash_set::StringHashSet;
use vstd::prelude::*;

verus! {

/// What a block list is waiting for.
pub enum BlockPhase<S> {
    /// For somebody to want the next result.
    Idle,
    /// For news of the `robots.txt` of a host, while the given number of others are still to be
    /// looked after.
    Robots(usize, String),
    /// For news of the `robots.txt` of a host that was just asked for, while the given number of
    /// others are still to be looked through, and whether another one came meanwhile.
    Asked(usize, String, bool),
    /// For the timer, while the given number of waiting requests are still to be looked at.
    Timer(usize),
    /// For news of a request that was in flight, while the given number of others are still to be
    /// looked after.
    Advance(usize, Ticket<S>),
}

/// What a [BlockPhase] says.
pub enum BlockPhaseView<S> {
    /// Somebody has to want the next result.
    Idle,
    /// The `robots.txt` of a host is out, and so many others are still to be looked after.
    Robots(nat, String),
    /// The `robots.txt` of a host was just asked for, so many others are still to be looked
    /// through, and another one may have come meanwhile.
    Asked(nat, String, bool),
    /// The timer is out, and so many waiting requests are still to be looked at.
    Timer(nat),
    /// A request that was in flight is out, and so many others are still to be looked after.
    Advance(nat, Ticket<S>),
}

impl<S> View for BlockPhase<S> {
    type V = BlockPhaseView<S>;

    open spec fn view(&self) -> BlockPhaseView<S> {
        match *self {
            BlockPhase::Idle => BlockPhaseView::Idle,
            BlockPhase::Robots(left, host) => BlockPhaseView::Robots(left as nat, host),
            BlockPhase::Asked(left, host, came) => BlockPhaseView::Asked(left as nat, host, came),
            BlockPhase::Timer(left) => BlockPhaseView::Timer(left as nat),
            BlockPhase::Advance(left, ticket) => BlockPhaseView::Advance(left as nat, ticket),
        }
    }
}

/// Requests to any domain that is not blocked.
pub struct BlockList<S, F> {
    client: ClientWithMiddleware,
    /// List of domains that are blocked.
    blocked_domains: StringHashSet,
    /// Requests that eventually end in a response that is passed to the scraper.
    in_progress_crawl_requests: Vec<InFlight<S, F>>,
    /// Mapping of hosts to robots.txt data.
    robots_map: StringHashMap<RobotsData>,
    /// The requests for the robots.txt of a host.
    in_progress_robots_txt_crawls: Vec<(String, RobotsTask<F>)>,
    /// Hosts whose robots.txt was asked for and is not there yet.
    in_progress_robots_txt_crawl_hosts: StringHashSet,
    /// Respect any restrictions set by the target host's robots.txt file.
    respect_robots_txt: bool,
    /// Whether to ignore responses with a non 2xx response code.
    skip_non_successful_responses: bool,
    /// The maximum depth of a request.
    max_depth: usize,
    /// All queued requests.
    request_queue: RequestQueue<S>,
    /// Limits how many requests execute concurrently; one may always do so.
    max_requests: usize,
    /// What the list is waiting for.
    phase: BlockPhase<S>,
}

/// What a [BlockList] holds.
#[verifier::ext_equal]
pub struct BlockState<S, F> {
    /// The client that sends the requests.
    pub client: ClientWithMiddleware,
    /// The blocked domains.
    pub blocked: Set<Seq<char>>,
    /// The requests in flight.
    pub in_flight: Seq<InFlight<S, F>>,
    /// The `robots.txt` of each host where it is there.
    pub robots_map: Map<Seq<char>, RobotsView>,
    /// The requests for the `robots.txt` of a host.
    pub robots_tasks: Seq<(String, RobotsTaskView<F>)>,
    /// Hosts whose `robots.txt` was asked for and is not there yet.
    pub robots_hosts: Set<Seq<char>>,
    /// Whether the `robots.txt` is respected.
    pub respect_robots_txt: bool,
    /// Whether responses that were not successful are skipped.
    pub skip_non_successful_responses: bool,
    /// The maximum depth of a request.
    pub max_depth: usize,
    /// The requests that wait to be sent.
    pub queue: QueueState<S>,
    /// The number of requests that may be in flight at once; 0 counts as 1.
    pub max_requests: usize,
    /// What the list is waiting for.
    pub phase: BlockPhaseView<S>,
}

/// What is known of the `robots.txt` of each host.
pub open spec fn robots_views(robots: Map<Seq<char>, RobotsData>) -> Map<Seq<char>, RobotsView> {
    robots.map_values(|data: RobotsData| data@)
}

/// Whether what is known of the `robots.txt` of each host is well-formed.
pub open spec fn all_well_formed(robots: Map<Seq<char>, RobotsView>) -> bool {
    forall|host: Seq<char>|
        robots.contains_key(host) ==> (#[trigger] robots[host]).well_formed()
}

/// What the requests for the `robots.txt` of a host ask for.
pub open spec fn task_views<F>(tasks: Seq<(String, RobotsTask<F>)>) -> Seq<
    (String, RobotsTaskView<F>),
> {
    tasks.map_values(|entry: (String, RobotsTask<F>)| (entry.0, entry.1@))
}

/// Whether all requests for a `robots.txt` from the place `left` on have been sent.
pub open spec fn sent_from<F>(tasks: Seq<(String, RobotsTaskView<F>)>, left: nat) -> bool {
    forall|i: int| left <= i < tasks.len() ==> (#[trigger] tasks[i]).1 is Running
}

/// Whether all requests in flight from the place `left` on have been sent.
pub open spec fn running_from<S, F>(requests: Seq<InFlight<S, F>>, left: nat) -> bool {
    forall|i: int| left <= i < requests.len() ==> (#[trigger] requests[i]).task is Running
}

/// How many of the first `left` requests for a `robots.txt` there are up to the last one that was
/// not sent yet.
pub open spec fn last_unsent<F>(tasks: Seq<(String, RobotsTaskView<F>)>, left: nat) -> nat
    decreases left,
{
    if left == 0 {
        0
    } else if tasks[left - 1].1 is Fetch {
        left
    } else {
        last_unsent(tasks, (left - 1) as nat)
    }
}

/// The last one that was not sent is one of those looked through, and those behind it were sent.
pub proof fn lemma_last_unsent<F>(tasks: Seq<(String, RobotsTaskView<F>)>, left: nat)
    requires
        left <= tasks.len(),
        sent_from(tasks, left),
    ensures
        ({
            let found = last_unsent(tasks, left);
            &&& found <= left
            &&& sent_from(tasks, found)
            &&& found > 0 ==> tasks[found - 1].1 is Fetch
        }),
    decreases left,
{
    if left > 0 && !(tasks[left - 1].1 is Fetch) {
        lemma_last_unsent(tasks, (left - 1) as nat);
    }
}

impl<S, F> BlockState<S, F> {
    /// Whether there is room for one more request in flight.
    pub open spec fn has_room(self) -> bool {
        self.in_flight.len() < concurrency(self.max_requests)
    }

    /// Whether no request that is held lies deeper than allowed.
    pub open spec fn within_depth(self) -> bool {
        &&& queued_within(self.queue.queued, self.max_depth)
        &&& flying_within(self.in_flight, self.max_depth)
        &&& self.phase matches BlockPhaseView::Advance(_, ticket) ==> ticket.depth
            <= self.max_depth
    }

    /// The number of requests in flight, the one that is being looked after included.
    pub open spec fn flying(self) -> nat {
        self.in_flight.len() + if self.phase is Advance {
            1nat
        } else {
            0nat
        }
    }

    /// Whether the state is one that a list can be in. No more requests are in flight than may be
    /// at once.
    pub open spec fn well_formed(self) -> bool {
        &&& self.phase !is Timer ==> self.queue.armed()
        &&& all_well_formed(self.robots_map)
        &&& match self.phase {
            BlockPhaseView::Idle => true,
            BlockPhaseView::Robots(left, _) => left <= self.robots_tasks.len(),
            BlockPhaseView::Asked(left, _, _) => {
                &&& left <= self.robots_tasks.len()
                &&& sent_from(self.robots_tasks, left)
            },
            BlockPhaseView::Timer(_) => self.has_room(),
            BlockPhaseView::Advance(left, _) => {
                &&& left <= self.in_flight.len()
                &&& running_from(self.in_flight, left)
                &&& sent_from(self.robots_tasks, 0)
            },
        }
        &&& self.within_depth()
        &&& self.flying() <= concurrency(self.max_requests)
    }

    /// Whether the list is waiting for such a signal.
    pub open spec fn expects<E>(self, signal: Signal<S, F, E>) -> bool {
        match (self.phase, signal) {
            (BlockPhaseView::Idle, Signal::Poll) => true,
            (BlockPhaseView::Robots(_, _), Signal::Robots(news)) => news matches RobotsNews::Ready(
                Ok(data),
            ) ==> data@.well_formed(),
            (BlockPhaseView::Asked(_, _, _), Signal::Robots(
                news,
            )) => news matches RobotsNews::Ready(Ok(data)) ==> data@.well_formed(),
            (BlockPhaseView::Timer(_), Signal::Timer(_, elapsed)) => elapsed
                ==> self.queue.delay_is_valid(),
            (BlockPhaseView::Advance(_, _), Signal::Fetch(_)) => true,
            _ => false,
        }
    }

    /// The list in another phase.
    pub open spec fn entering(self, phase: BlockPhaseView<S>) -> Self {
        BlockState { phase, ..self }
    }

    /// The list when a request is put in: one that lies too deep, names no host or goes to a
    /// blocked domain is refused, any other waits to be sent.
    pub open spec fn add_request(self, request: QueuedRequest<S>) -> (
        Self,
        Result<(), CrawlError<S>>,
    ) {
        if request.depth > self.max_depth {
            (self, Err(too_deep(request)))
        } else {
            match request.request.host() {
                None => (self, Err(invalid(request))),
                Some(host) => if self.blocked.contains(host) {
                    (self, Err(disallowed(request, DisallowReason::User)))
                } else {
                    (BlockState { queue: self.queue.push(request), ..self }, Ok(()))
                },
            }
        }
    }

    /// The first `left` requests for a `robots.txt` are looked after, the last of them first; then
    /// every waiting request is looked at.
    pub open spec fn visit_robots<E>(self, left: nat) -> (Self, DemandView<S, F, E>) {
        if left == 0 {
            self.pull(self.queue.queued.len())
        } else {
            let (host, task) = self.robots_tasks[left - 1];
            (
                BlockState {
                    robots_tasks: swap_removed(self.robots_tasks, left - 1),
                    ..self
                }.entering(BlockPhaseView::Robots((left - 1) as nat, host)),
                DemandView::PollRobots(task),
            )
        }
    }

    /// The `robots.txt` of a host is there, it failed, or it is still on its way.
    pub open spec fn hear_robots<E>(
        self,
        left: nat,
        host: String,
        news: RobotsNews<S, F, E>,
    ) -> (Self, DemandView<S, F, E>) {
        match news {
            RobotsNews::Pending(task) => self.awaiting(host, task).visit_robots(left),
            RobotsNews::Ready(Ok(data)) => self.knowing(host, data@).visit_robots(left),
            RobotsNews::Ready(Err(_)) => self.lose_robots(host),
        }
    }

    /// Of the first `left` requests for a `robots.txt`, those that were not sent yet are, the last
    /// of them first; then the requests in flight are looked after.
    pub open spec fn ask<E>(self, left: nat) -> (Self, DemandView<S, F, E>) {
        let found = last_unsent(self.robots_tasks, left);
        if found == 0 {
            self.advance(self.in_flight.len())
        } else {
            self.hand_out(found, false)
        }
    }

    /// Of the first `left` requests for a `robots.txt`, those that were not sent yet are, the last
    /// of them first; then every waiting request is looked at once more, as one of them came.
    pub open spec fn ask_again<E>(self, left: nat) -> (Self, DemandView<S, F, E>) {
        let found = last_unsent(self.robots_tasks, left);
        if found == 0 {
            self.pull(self.queue.queued.len())
        } else {
            self.hand_out(found, true)
        }
    }

    /// The request for a `robots.txt` before the place `found` is sent.
    pub open spec fn hand_out<E>(self, found: nat, came: bool) -> (Self, DemandView<S, F, E>) {
        let (host, task) = self.robots_tasks[found - 1];
        (
            BlockState {
                robots_tasks: swap_removed(self.robots_tasks, found - 1),
                ..self
            }.entering(BlockPhaseView::Asked((found - 1) as nat, host, came)),
            DemandView::PollRobots(task),
        )
    }

    /// The list with a request for the `robots.txt` of a host that is on its way.
    pub open spec fn awaiting(self, host: String, task: F) -> Self {
        BlockState {
            robots_tasks: self.robots_tasks.push((host, RobotsTaskView::Running(task))),
            ..self
        }
    }

    /// The list that knows the `robots.txt` of a host.
    pub open spec fn knowing(self, host: String, data: RobotsView) -> Self {
        BlockState {
            robots_hosts: self.robots_hosts.remove(host@),
            robots_map: self.robots_map.insert(host@, data),
            ..self
        }
    }

    /// News of the `robots.txt` of a host that was just asked for.
    pub open spec fn hear_asked<E>(
        self,
        left: nat,
        host: String,
        came: bool,
        news: RobotsNews<S, F, E>,
    ) -> (Self, DemandView<S, F, E>) {
        match news {
            RobotsNews::Pending(task) => if came {
                self.awaiting(host, task).ask_again(left)
            } else {
                self.awaiting(host, task).ask(left)
            },
            RobotsNews::Ready(Ok(data)) => self.knowing(host, data@).ask_again(left),
            RobotsNews::Ready(Err(_)) => self.lose_robots(host),
        }
    }

    /// The `robots.txt` of a host failed.
    pub open spec fn lose_robots<E>(self, host: String) -> (Self, DemandView<S, F, E>) {
        (
            BlockState {
                robots_hosts: self.robots_hosts.remove(host@),
                ..self
            }.entering(BlockPhaseView::Idle),
            DemandView::Yield(
                Progress::Item(Err(Failure::Crawl(CrawlError::RobotsTxtError { host }))),
            ),
        )
    }

    /// A request is started.
    pub open spec fn start(self, request: QueuedRequest<S>) -> Self {
        BlockState {
            in_flight: self.in_flight.push(in_flight(request, self.client)),
            ..self
        }
    }

    /// A request that may go by the timer: it is started, or it is refused and given back. While
    /// the `robots.txt` of its host is respected and not there, that is asked for, and the request
    /// waits on.
    pub open spec fn take_up(self, request: QueuedRequest<S>) -> (Self, Option<CrawlError<S>>) {
        if !self.respect_robots_txt {
            (self.start(request), None)
        } else {
            match request.request.host_name() {
                None => (self, Some(invalid(request))),
                Some(host) => if self.robots_map.contains_key(host@) {
                    if self.robots_map[host@].permits(
                        request.request.url(),
                        request.request.headers(),
                    ) {
                        (self.start(request), None)
                    } else {
                        (self, Some(disallowed(request, DisallowReason::RobotsTxt)))
                    }
                } else {
                    let url = robots_txt_url(request.request.url());
                    (
                        BlockState {
                            robots_tasks: self.robots_tasks.push(
                                (host, RobotsTaskView::Fetch(self.client, url)),
                            ),
                            robots_hosts: self.robots_hosts.insert(host@),
                            queue: self.queue.push(request),
                            ..self
                        },
                        None,
                    )
                },
            }
        }
    }

    /// What follows on a request that may go by the timer, while `left` waiting requests are still
    /// to be looked at.
    pub open spec fn dispatch<E>(self, request: QueuedRequest<S>, left: nat) -> (
        Self,
        DemandView<S, F, E>,
    )
        decreases left, 1nat,
    {
        match self.take_up(request) {
            (rest, None) => rest.pull(left),
            (rest, Some(error)) => (
                rest.entering(BlockPhaseView::Idle),
                DemandView::Yield(Progress::Item(Err(Failure::Crawl(error)))),
            ),
        }
    }

    /// As many as `left` waiting requests are looked at, while there is room for more in flight;
    /// then every `robots.txt` that is wanted is asked for.
    pub open spec fn pull<E>(self, left: nat) -> (Self, DemandView<S, F, E>)
        decreases left, 0nat,
    {
        if left == 0 || !self.has_room() {
            self.ask(self.robots_tasks.len())
        } else {
            let (queue, next) = self.queue.poll_next();
            let rest = BlockState { queue, ..self };
            match next {
                NextRequest::Empty => rest.pull((left - 1) as nat),
                NextRequest::Wait(timer) => (
                    rest.entering(BlockPhaseView::Timer((left - 1) as nat)),
                    DemandView::PollTimer(timer),
                ),
                NextRequest::Send(request) => rest.dispatch(request, (left - 1) as nat),
            }
        }
    }

    /// The timer is back; if it has run out the next request may go, and it runs on as
    /// `restarted`.
    pub open spec fn hear_timer<E>(
        self,
        left: nat,
        timer: Timer,
        elapsed: bool,
        restarted: Timer,
    ) -> (Self, DemandView<S, F, E>) {
        let (queue, next) = self.queue.resume(timer, elapsed, restarted);
        let rest = BlockState { queue, ..self };
        match next {
            None => rest.pull(left),
            Some(request) => rest.dispatch(request, left),
        }
    }

    /// News of a request that was in flight: if it is not done, the one before it is next.
    pub open spec fn hear_next<E>(self, left: nat, ticket: Ticket<S>, news: FetchNews<F>) -> (
        Self,
        DemandView<S, F, E>,
    ) {
        match fetched(ticket, news, self.skip_non_successful_responses) {
            Fetched::Waiting(flight) => BlockState {
                in_flight: self.in_flight.push(flight),
                ..self
            }.advance(left),
            Fetched::Reading(ticket, response) => (
                self.entering(BlockPhaseView::Advance(left, ticket)),
                DemandView::PollFetch(FetchTask::Read(response)),
            ),
            Fetched::Finished(result) => (
                self.entering(BlockPhaseView::Idle),
                DemandView::Yield(Progress::Item(result)),
            ),
        }
    }

    /// The first `left` requests in flight are looked after, the last of them first.
    pub open spec fn advance<E>(self, left: nat) -> (Self, DemandView<S, F, E>) {
        if left == 0 {
            (
                self.entering(BlockPhaseView::Idle),
                DemandView::Yield(
                    if self.in_flight.len() == 0 && self.queue.queued.len() == 0
                        && self.robots_tasks.len() == 0 {
                        Progress::Done
                    } else {
                        Progress::Pending
                    },
                ),
            )
        } else {
            let flight = self.in_flight[left - 1];
            (
                BlockState {
                    in_flight: swap_removed(self.in_flight, left - 1),
                    ..self
                }.entering(BlockPhaseView::Advance((left - 1) as nat, flight.ticket)),
                DemandView::PollFetch(flight.task),
            )
        }
    }

    /// What a signal does; a timer that has run out runs on as `restarted`.
    pub open spec fn step<E>(self, signal: Signal<S, F, E>, restarted: Timer) -> (
        Self,
        DemandView<S, F, E>,
    ) {
        match (self.phase, signal) {
            (BlockPhaseView::Robots(left, host), Signal::Robots(news)) => self.hear_robots(
                left,
                host,
                news,
            ),
            (BlockPhaseView::Asked(left, host, came), Signal::Robots(news)) => self.hear_asked(
                left,
                host,
                came,
                news,
            ),
            (BlockPhaseView::Timer(left), Signal::Timer(timer, elapsed)) => self.hear_timer(
                left,
                timer,
                elapsed,
                restarted,
            ),
            (BlockPhaseView::Advance(left, ticket), Signal::Fetch(news)) => self.hear_next(
                left,
                ticket,
                news,
            ),
            _ => self.visit_robots(self.robots_tasks.len()),
        }
    }

    /// Whether a timer may run on as `restarted` after that signal.
    pub open spec fn may_restart<E>(self, signal: Signal<S, F, E>, restarted: Timer) -> bool {
        signal matches Signal::Timer(_, elapsed) ==> self.queue.may_restart(elapsed, restarted)
    }
}

/// Looking at the waiting requests does not depend on the phase.
proof fn lemma_pull_overwrites_phase<S, F, E>(
    state: BlockState<S, F>,
    phase: BlockPhaseView<S>,
    left: nat,
)
    ensures
        state.entering(phase).pull::<E>(left) == state.pull::<E>(left),
    decreases left, 0nat,
{
    if left > 0 && state.has_room() {
        let (queue, next) = state.queue.poll_next();
        let rest = BlockState { queue, ..state };
        match next {
            NextRequest::Empty => {
                assert(rest.entering(phase) == BlockState { queue, ..state.entering(phase) });
                lemma_pull_overwrites_phase::<S, F, E>(rest, phase, (left - 1) as nat);
            },
            NextRequest::Wait(_) => {},
            NextRequest::Send(request) => {
                assert(rest.entering(phase) == BlockState { queue, ..state.entering(phase) });
                lemma_dispatch_overwrites_phase::<S, F, E>(rest, phase, request, (left - 1) as nat);
            },
        }
    }
}

/// What follows on a request that may go does not depend on the phase.
proof fn lemma_dispatch_overwrites_phase<S, F, E>(
    state: BlockState<S, F>,
    phase: BlockPhaseView<S>,
    request: QueuedRequest<S>,
    left: nat,
)
    ensures
        state.entering(phase).dispatch::<E>(request, left) == state.dispatch::<E>(request, left),
    decreases left, 1nat,
{
    let (rest, refused) = state.take_up(request);
    assert(state.entering(phase).take_up(request) == (rest.entering(phase), refused));
    if refused is None {
        lemma_pull_overwrites_phase::<S, F, E>(rest, phase, left);
    }
}

/// What a signal does is what the step that goes with the phase does once the list is idle.
proof fn lemma_step_overwrites_phase<S, F, E>(
    state: BlockState<S, F>,
    signal: Signal<S, F, E>,
    restarted: Timer,
)
    ensures
        ({
            let idle = state.entering(BlockPhaseView::Idle);
            state.step(signal, restarted) == match (state.phase, signal) {
                (BlockPhaseView::Robots(left, host), Signal::Robots(news)) => idle.hear_robots(
                    left,
                    host,
                    news,
                ),
                (BlockPhaseView::Asked(left, host, came), Signal::Robots(news)) => idle.hear_asked(
                    left,
                    host,
                    came,
                    news,
                ),
                (BlockPhaseView::Timer(left), Signal::Timer(timer, elapsed)) => idle.hear_timer(
                    left,
                    timer,
                    elapsed,
                    restarted,
                ),
                (BlockPhaseView::Advance(left, ticket), Signal::Fetch(news)) => idle.hear_next(
                    left,
                    ticket,
                    news,
                ),
                _ => idle.visit_robots(idle.robots_tasks.len()),
            }
        }),
{
    let idle = BlockPhaseView::<S>::Idle;
    match (state.phase, signal) {
        (BlockPhaseView::Robots(_, host), Signal::Robots(news))
        | (BlockPhaseView::Asked(_, host, _), Signal::Robots(news)) => {
            let rest = match news {
                RobotsNews::Pending(task) => state.awaiting(host, task),
                RobotsNews::Ready(Ok(data)) => state.knowing(host, data@),
                RobotsNews::Ready(Err(_)) => state,
            };
            lemma_pull_overwrites_phase::<S, F, E>(rest, idle, rest.queue.queued.len());
        },
        (BlockPhaseView::Timer(left), Signal::Timer(timer, elapsed)) => {
            let (queue, next) = state.queue.resume(timer, elapsed, restarted);
            let rest = BlockState { queue, ..state };
            match next {
                None => {
                    lemma_pull_overwrites_phase::<S, F, E>(rest, idle, left);
                },
                Some(request) => {
                    lemma_dispatch_overwrites_phase::<S, F, E>(rest, idle, request, left);
                },
            }
        },
        (BlockPhaseView::Advance(_, _), Signal::Fetch(_)) => {},
        _ => {
            lemma_pull_overwrites_phase::<S, F, E>(state, idle, state.queue.queued.len());
        },
    }
}

impl<S, F> View for BlockList<S, F> {
    type V = BlockState<S, F>;

    closed spec fn view(&self) -> BlockState<S, F> {
        BlockState {
            client: self.client,
            blocked: self.blocked_domains@,
            in_flight: self.in_progress_crawl_requests@,
            robots_map: robots_views(self.robots_map@),
            robots_tasks: task_views(self.in_progress_robots_txt_crawls@),
            robots_hosts: self.in_progress_robots_txt_crawl_hosts@,
            respect_robots_txt: self.respect_robots_txt,
            skip_non_successful_responses: self.skip_non_successful_responses,
            max_depth: self.max_depth,
            queue: self.request_queue@,
            max_requests: self.max_requests,
            phase: self.phase@,
        }
    }
}

impl<S, F> BlockList<S, F> {
    /// A list with nothing to do yet.
    pub fn new(
        blocked_domains: StringHashSet,
        client: ClientWithMiddleware,
        respect_robots_txt: bool,
        skip_non_successful_responses: bool,
        max_depth: usize,
        max_requests: usize,
    ) -> (list: Self)
        ensures
            list@ == (BlockState::<S, F> {
                client,
                blocked: blocked_domains@,
                in_flight: Seq::empty(),
                robots_map: Map::empty(),
                robots_tasks: Seq::empty(),
                robots_hosts: Set::empty(),
                respect_robots_txt,
                skip_non_successful_responses,
                max_depth,
                queue: QueueState { timer: None, delay: None, queued: Seq::empty() },
                max_requests,
                phase: BlockPhaseView::Idle,
            }),
            list@.well_formed(),
    {
        BlockList {
            client,
            blocked_domains,
            in_progress_crawl_requests: Vec::new(),
            robots_map: StringHashMap::new(),
            in_progress_robots_txt_crawls: Vec::new(),
            in_progress_robots_txt_crawl_hosts: StringHashSet::new(),
            respect_robots_txt,
            skip_non_successful_responses,
            max_depth,
            request_queue: RequestQueue::default(),
            max_requests,
            phase: BlockPhase::Idle,
        }
    }

    /// Puts a request in: one that lies too deep, names no host or goes to a blocked domain is
    /// refused, any other waits to be sent.
    pub fn add_request(&mut self, request: QueuedRequest<S>) -> (added: Result<(), CrawlError<S>>)
        ensures
            (final(self)@, added) == old(self)@.add_request(request),
            old(self)@.well_formed() ==> final(self)@.well_formed(),
    {
        if request.depth > self.max_depth {
            return Err(reject_depth(request));
        }
        let blocked = match request.request.host_str() {
            Some(host) => self.blocked_domains.contains(host.as_str()),
            None => {
                return Err(reject(request));
            },
        };
        if blocked {
            Err(disallow(request, DisallowReason::User))
        } else {
            self.request_queue.push_back(request);
            Ok(())
        }
    }

    /// Blocks requests to that domain.
    pub fn disallow(&mut self, domain: &str)
        ensures
            final(self)@ == (BlockState {
                blocked: old(self)@.blocked.insert(domain@),
                ..old(self)@
            }),
            old(self)@.well_formed() ==> final(self)@.well_formed(),
    {
        self.blocked_domains.insert(domain.to_owned());
    }

    /// Removes a domain from the block list.
    pub fn allow(&mut self, domain: &str)
        ensures
            final(self)@ == (BlockState {
                blocked: old(self)@.blocked.remove(domain@),
                ..old(self)@
            }),
            old(self)@.well_formed() ==> final(self)@.well_formed(),
    {
        self.blocked_domains.remove(domain);
    }

    /// Removes the configured delay.
    pub fn remove_delay(&mut self) -> (delay: Option<RequestDelay>)
        ensures
            delay == old(self)@.queue.delay,
            final(self)@ == (BlockState {
                queue: QueueState { timer: None, delay: None, ..old(self)@.queue },
                ..old(self)@
            }),
            old(self)@.well_formed() ==> final(self)@.well_formed(),
    {
        self.request_queue.remove_delay()
    }

    /// Sets a delay between requests.
    ///
    /// A timer that is running runs on; without one a timer is started that runs out at once.
    pub fn set_delay(&mut self, delay: RequestDelay) -> (before: Option<RequestDelay>)
        ensures
            before == old(self)@.queue.delay,
            final(self)@ == (BlockState {
                queue: QueueState {
                    timer: final(self)@.queue.timer,
                    delay: Some(delay),
                    ..old(self)@.queue
                },
                ..old(self)@
            }),
            old(self)@.queue.delay is Some ==> final(self)@.queue.timer
                == old(self)@.queue.timer,
            old(self)@.queue.delay is None ==> (final(self)@.queue.timer matches Some(timer)
                && timer.runs_out_at_once()),
            old(self)@.well_formed() ==> final(self)@.well_formed(),
    {
        self.request_queue.set_delay(delay)
    }

    /// Whether the list is waiting for such a signal.
    pub fn accepts<E>(&self, signal: &Signal<S, F, E>) -> (accepted: bool)
        ensures
            accepted == self@.expects(*signal),
    {
        match (&self.phase, signal) {
            (BlockPhase::Idle, Signal::Poll) => true,
            (BlockPhase::Robots(_, _), Signal::Robots(news)) => match news {
                RobotsNews::Ready(Ok(data)) => data.is_well_formed(),
                _ => true,
            },
            (BlockPhase::Asked(_, _, _), Signal::Robots(news)) => match news {
                RobotsNews::Ready(Ok(data)) => data.is_well_formed(),
                _ => true,
            },
            (BlockPhase::Timer(_), Signal::Timer(_, elapsed)) => !*elapsed
                || self.request_queue.has_valid_delay(),
            (BlockPhase::Advance(_, _), Signal::Fetch(_)) => true,
            _ => false,
        }
    }

    /// Takes a signal in and says what is to be done next. The timer has run out only where the
    /// delay can be kept.
    ///
    /// Every request for a `robots.txt` is looked after once. Then every waiting request is looked
    /// at once, and started if the delay, the limit and its `robots.txt` allow it; where the
    /// `robots.txt` is required and not there it is asked for, and the request goes back to the end
    /// of the queue. At last every request in flight is looked after once. The first result that
    /// turns up is given out.
    pub fn step<E>(&mut self, signal: Signal<S, F, E>) -> (demand: Demand<S, F, E>)
        requires
            old(self)@.well_formed(),
            old(self)@.expects(signal),
        ensures
            exists|restarted: Timer|
                old(self)@.may_restart(signal, restarted) && (final(self)@, demand@)
                    == #[trigger] old(self)@.step(signal, restarted),
            final(self)@.well_formed(),
            final(self)@.phase is Idle <==> demand@ is Yield,
    {
        let mut phase = BlockPhase::Idle;
        std::mem::swap(&mut phase, &mut self.phase);
        let ghost idle = self@;
        assert(idle == old(self)@.entering(BlockPhaseView::Idle));
        let ghost mut restarted: Timer = arbitrary();
        let demand = match (phase, signal) {
            (BlockPhase::Robots(left, host), Signal::Robots(news)) => self.hear_robots(
                left,
                host,
                news,
            ),
            (BlockPhase::Asked(left, host, came), Signal::Robots(news)) => self.hear_asked(
                left,
                host,
                came,
                news,
            ),
            (BlockPhase::Timer(left), Signal::Timer(timer, elapsed)) => {
                let demand = self.hear_timer(left, timer, elapsed);
                proof {
                    restarted = choose|restarted: Timer|
                        idle.queue.may_restart(elapsed, restarted) && (self@, demand@)
                            == #[trigger] idle.hear_timer::<E>(
                            left as nat,
                            timer,
                            elapsed,
                            restarted,
                        );
                }
                demand
            },
            (BlockPhase::Advance(left, ticket), Signal::Fetch(news)) => self.hear_next(
                left,
                ticket,
                news,
            ),
            _ => self.visit_robots(self.in_progress_robots_txt_crawls.len()),
        };
        proof {
            lemma_step_overwrites_phase::<S, F, E>(old(self)@, signal, restarted);
        }
        assert((self@, demand@) == old(self)@.step(signal, restarted));
        demand
    }

    fn visit_robots<E>(&mut self, left: usize) -> (demand: Demand<S, F, E>)
        requires
            old(self)@.entering(BlockPhaseView::Idle).well_formed(),
            left <= old(self)@.robots_tasks.len(),
        ensures
            (final(self)@, demand@) == old(self)@.visit_robots::<E>(left as nat),
            final(self)@.well_formed(),
            final(self)@.phase is Idle <==> demand@ is Yield,
    {
        if left == 0 {
            self.pull(self.request_queue.len())
        } else {
            let (host, task) = self.in_progress_robots_txt_crawls.swap_remove(left - 1);
            self.phase = BlockPhase::Robots(left - 1, host);
            proof {
                assert(self@.robots_tasks =~= swap_removed(old(self)@.robots_tasks, left - 1));
            }
            Demand::PollRobots(task)
        }
    }

    fn hear_robots<E>(&mut self, left: usize, host: String, news: RobotsNews<S, F, E>) -> (demand:
        Demand<S, F, E>)
        requires
            old(self)@.entering(BlockPhaseView::Idle).well_formed(),
            left <= old(self)@.robots_tasks.len(),
            news matches RobotsNews::Ready(Ok(data)) ==> data@.well_formed(),
        ensures
            (final(self)@, demand@) == old(self)@.hear_robots(left as nat, host, news),
            final(self)@.well_formed(),
            final(self)@.phase is Idle <==> demand@ is Yield,
    {
        match news {
            RobotsNews::Pending(task) => {
                self.put_back(host, task);
                self.visit_robots(left)
            },
            RobotsNews::Ready(Ok(data)) => {
                self.learn(host, data);
                self.visit_robots(left)
            },
            RobotsNews::Ready(Err(_)) => self.lose_robots(host),
        }
    }

    fn put_back(&mut self, host: String, task: F)
        ensures
            final(self)@ == old(self)@.awaiting(host, task),
    {
        self.in_progress_robots_txt_crawls.push((host, RobotsTask::Running(task)));
        proof {
            assert(self@.robots_tasks =~= old(self)@.robots_tasks.push(
                (host, RobotsTaskView::Running(task)),
            ));
        }
    }

    fn learn(&mut self, host: String, data: RobotsData)
        ensures
            final(self)@ == old(self)@.knowing(host, data@),
    {
        self.in_progress_robots_txt_crawl_hosts.remove(host.as_str());
        let ghost (key, view) = (host@, data@);
        self.robots_map.insert(host, data);
        proof {
            assert(self@.robots_map =~= old(self)@.robots_map.insert(key, view));
        }
    }

    fn lose_robots<E>(&mut self, host: String) -> (demand: Demand<S, F, E>)
        requires
            old(self)@.entering(BlockPhaseView::Idle).well_formed(),
        ensures
            (final(self)@, demand@) == old(self)@.lose_robots::<E>(host),
            final(self)@.well_formed(),
            final(self)@.phase is Idle <==> demand@ is Yield,
    {
        self.in_progress_robots_txt_crawl_hosts.remove(host.as_str());
        self.phase = BlockPhase::Idle;
        Demand::Yield(Progress::Item(Err(Failure::Crawl(CrawlError::RobotsTxtError { host }))))
    }

    fn hear_asked<E>(
        &mut self,
        left: usize,
        host: String,
        came: bool,
        news: RobotsNews<S, F, E>,
    ) -> (demand: Demand<S, F, E>)
        requires
            old(self)@.entering(BlockPhaseView::Idle).well_formed(),
            left <= old(self)@.robots_tasks.len(),
            sent_from(old(self)@.robots_tasks, left as nat),
            news matches RobotsNews::Ready(Ok(data)) ==> data@.well_formed(),
        ensures
            (final(self)@, demand@) == old(self)@.hear_asked(left as nat, host, came, news),
            final(self)@.well_formed(),
            final(self)@.phase is Idle <==> demand@ is Yield,
    {
        match news {
            RobotsNews::Pending(task) => {
                self.put_back(host, task);
                if came {
                    self.ask_again(left)
                } else {
                    self.ask(left)
                }
            },
            RobotsNews::Ready(Ok(data)) => {
                self.learn(host, data);
                self.ask_again(left)
            },
            RobotsNews::Ready(Err(_)) => self.lose_robots(host),
        }
    }

    /// How many of the first `left` requests for a `robots.txt` there are up to the last one that
    /// was not sent yet.
    fn find_unsent(&self, left: usize) -> (found: usize)
        requires
            left <= self@.robots_tasks.len(),
        ensures
            found == last_unsent(self@.robots_tasks, left as nat),
            found <= left,
    {
        let mut found: usize = left;
        while found > 0
            invariant
                found <= left <= self@.robots_tasks.len(),
                last_unsent(self@.robots_tasks, found as nat) == last_unsent(
                    self@.robots_tasks,
                    left as nat,
                ),
            decreases found,
        {
            assert(self@.robots_tasks[found - 1].1
                == self.in_progress_robots_txt_crawls@[found - 1].1@);
            match &self.in_progress_robots_txt_crawls[found - 1].1 {
                RobotsTask::Fetch(_, _) => {
                    return found;
                },
                RobotsTask::Running(_) => {
                    found = found - 1;
                },
            }
        }
        found
    }

    fn hand_out<E>(&mut self, found: usize, came: bool) -> (demand: Demand<S, F, E>)
        requires
            old(self)@.entering(BlockPhaseView::Idle).well_formed(),
            0 < found <= old(self)@.robots_tasks.len(),
            sent_from(old(self)@.robots_tasks, found as nat),
        ensures
            (final(self)@, demand@) == old(self)@.hand_out::<E>(found as nat, came),
            final(self)@.well_formed(),
            final(self)@.phase is Idle <==> demand@ is Yield,
    {
        let (host, task) = self.in_progress_robots_txt_crawls.swap_remove(found - 1);
        self.phase = BlockPhase::Asked(found - 1, host, came);
        proof {
            assert(self@.robots_tasks =~= swap_removed(old(self)@.robots_tasks, found - 1));
        }
        Demand::PollRobots(task)
    }

    fn ask<E>(&mut self, left: usize) -> (demand: Demand<S, F, E>)
        requires
            old(self)@.entering(BlockPhaseView::Idle).well_formed(),
            left <= old(self)@.robots_tasks.len(),
            sent_from(old(self)@.robots_tasks, left as nat),
        ensures
            (final(self)@, demand@) == old(self)@.ask::<E>(left as nat),
            final(self)@.well_formed(),
            final(self)@.phase is Idle <==> demand@ is Yield,
    {
        let found: usize = self.find_unsent(left);
        proof {
            lemma_last_unsent(self@.robots_tasks, left as nat);
        }
        if found == 0 {
            self.advance(self.in_progress_crawl_requests.len())
        } else {
            self.hand_out(found, false)
        }
    }

    fn ask_again<E>(&mut self, left: usize) -> (demand: Demand<S, F, E>)
        requires
            old(self)@.entering(BlockPhaseView::Idle).well_formed(),
            left <= old(self)@.robots_tasks.len(),
            sent_from(old(self)@.robots_tasks, left as nat),
        ensures
            (final(self)@, demand@) == old(self)@.ask_again::<E>(left as nat),
            final(self)@.well_formed(),
            final(self)@.phase is Idle <==> demand@ is Yield,
    {
        let found: usize = self.find_unsent(left);
        proof {
            lemma_last_unsent(self@.robots_tasks, left as nat);
        }
        if found == 0 {
            self.pull(self.request_queue.len())
        } else {
            self.hand_out(found, true)
        }
    }

    /// Starts a request that may go by the timer, gives it back, or lets it wait for a
    /// `robots.txt`.
    fn take_up(&mut self, request: QueuedRequest<S>) -> (refused: Option<CrawlError<S>>)
        requires
            old(self)@.entering(BlockPhaseView::Idle).well_formed(),
            old(self)@.has_room(),
            request.depth <= old(self)@.max_depth,
        ensures
            (final(self)@, refused) == old(self)@.take_up(request),
            final(self)@.entering(BlockPhaseView::Idle).well_formed(),
            final(self)@.phase == old(self)@.phase,
    {
        if self.respect_robots_txt {
            let host = match request.request.host_str() {
                Some(host) => host.clone(),
                None => {
                    return Some(reject(request));
                },
            };
            match self.robots_map.get(host.as_str()) {
                Some(robots) => {
                    assert(robots_views(self.robots_map@)[host@] == robots@);
                    if !robots.is_not_disallowed(&request.request) {
                        return Some(disallow(request, DisallowReason::RobotsTxt));
                    }
                },
                None => {
                    let url = request.request.address().robots_txt();
                    let task = RobotsTask::Fetch(self.client.clone(), url);
                    let ghost entry = (host, task@);
                    self.in_progress_robots_txt_crawl_hosts.insert(host.clone());
                    self.in_progress_robots_txt_crawls.push((host, task));
                    self.request_queue.push_back(request);
                    proof {
                        assert(self@.robots_tasks =~= old(self)@.robots_tasks.push(entry));
                    }
                    return None;
                },
            }
        }
        let flight = start_request(request, &self.client);
        self.in_progress_crawl_requests.push(flight);
        None
    }

    fn dispatch<E>(&mut self, request: QueuedRequest<S>, left: usize) -> (demand: Demand<S, F, E>)
        requires
            old(self)@.entering(BlockPhaseView::Idle).well_formed(),
            old(self)@.has_room(),
            request.depth <= old(self)@.max_depth,
        ensures
            (final(self)@, demand@) == old(self)@.dispatch::<E>(request, left as nat),
            final(self)@.well_formed(),
            final(self)@.phase is Idle <==> demand@ is Yield,
    {
        match self.take_up(request) {
            None => self.pull(left),
            Some(error) => {
                self.phase = BlockPhase::Idle;
                Demand::Yield(Progress::Item(Err(Failure::Crawl(error))))
            },
        }
    }

    fn pull<E>(&mut self, left: usize) -> (demand: Demand<S, F, E>)
        requires
            old(self)@.entering(BlockPhaseView::Idle).well_formed(),
        ensures
            (final(self)@, demand@) == old(self)@.pull::<E>(left as nat),
            final(self)@.well_formed(),
            final(self)@.phase is Idle <==> demand@ is Yield,
    {
        let mut due: usize = left;
        while due > 0 && is_below(self.in_progress_crawl_requests.len(), self.max_requests)
            invariant
                self@.entering(BlockPhaseView::Idle).well_formed(),
                self@.pull::<E>(due as nat) == old(self)@.pull::<E>(left as nat),
            decreases due,
        {
            due = due - 1;
            proof {
                reveal_with_fuel(BlockState::pull, 2);
                reveal_with_fuel(BlockState::dispatch, 2);
            }
            match self.request_queue.poll_next() {
                NextRequest::Empty => {},
                NextRequest::Wait(timer) => {
                    self.phase = BlockPhase::Timer(due);
                    return Demand::PollTimer(timer);
                },
                NextRequest::Send(request) => match self.take_up(request) {
                    None => {},
                    Some(error) => {
                        self.phase = BlockPhase::Idle;
                        return Demand::Yield(Progress::Item(Err(Failure::Crawl(error))));
                    },
                },
            }
        }
        self.ask(self.in_progress_robots_txt_crawls.len())
    }

    fn hear_timer<E>(&mut self, left: usize, timer: Timer, elapsed: bool) -> (demand: Demand<
        S,
        F,
        E,
    >)
        requires
            old(self)@.entering(BlockPhaseView::Timer(left as nat)).well_formed(),
            elapsed ==> old(self)@.queue.delay_is_valid(),
            old(self)@.has_room(),
        ensures
            exists|restarted: Timer|
                old(self)@.queue.may_restart(elapsed, restarted) && (final(self)@, demand@)
                    == #[trigger] old(self)@.hear_timer::<E>(
                    left as nat,
                    timer,
                    elapsed,
                    restarted,
                ),
            final(self)@.well_formed(),
            final(self)@.phase is Idle <==> demand@ is Yield,
    {
        let next = self.request_queue.resume(timer, elapsed);
        let ghost restarted = choose|restarted: Timer|
            old(self)@.queue.may_restart(elapsed, restarted) && (self.request_queue@, next)
                == #[trigger] old(self)@.queue.resume(timer, elapsed, restarted);
        let demand = match next {
            None => self.pull(left),
            Some(request) => self.dispatch(request, left),
        };
        assert((self@, demand@) == old(self)@.hear_timer::<E>(
            left as nat,
            timer,
            elapsed,
            restarted,
        ));
        demand
    }

    fn hear_next<E>(&mut self, left: usize, ticket: Ticket<S>, news: FetchNews<F>) -> (demand:
        Demand<S, F, E>)
        requires
            old(self)@.entering(BlockPhaseView::Advance(left as nat, ticket)).well_formed(),
        ensures
            (final(self)@, demand@) == old(self)@.hear_next::<E>(left as nat, ticket, news),
            final(self)@.well_formed(),
            final(self)@.phase is Idle <==> demand@ is Yield,
    {
        match get_response(ticket, news, self.skip_non_successful_responses) {
            Fetched::Waiting(flight) => {
                self.in_progress_crawl_requests.push(flight);
                self.advance(left)
            },
            Fetched::Reading(ticket, response) => {
                self.phase = BlockPhase::Advance(left, ticket);
                Demand::PollFetch(FetchTask::Read(response))
            },
            Fetched::Finished(result) => {
                self.phase = BlockPhase::Idle;
                Demand::Yield(Progress::Item(result))
            },
        }
    }

    fn advance<E>(&mut self, left: usize) -> (demand: Demand<S, F, E>)
        requires
            old(self)@.entering(BlockPhaseView::Idle).well_formed(),
            left <= old(self)@.in_flight.len(),
            running_from(old(self)@.in_flight, left as nat),
            sent_from(old(self)@.robots_tasks, 0),
        ensures
            (final(self)@, demand@) == old(self)@.advance::<E>(left as nat),
            final(self)@.well_formed(),
            final(self)@.phase is Idle <==> demand@ is Yield,
    {
        if left == 0 {
            self.phase = BlockPhase::Idle;
            if self.in_progress_crawl_requests.len() == 0 && self.request_queue.is_empty()
                && self.in_progress_robots_txt_crawls.len() == 0 {
                Demand::Yield(Progress::Done)
            } else {
                Demand::Yield(Progress::Pending)
            }
        } else {
            let InFlight { ticket, task } = self.in_progress_crawl_requests.swap_remove(left - 1);
            self.phase = BlockPhase::Advance(left - 1, ticket);
            Demand::PollFetch(task)
        }
    }
}

/// Looking at the waiting requests makes no more of them, and one that is given back is used up. A
/// list that gives something out is idle.
proof fn lemma_pull_uses_up<S, F, E>(state: BlockState<S, F>, left: nat)
    ensures
        ({
            let (after, demand) = state.pull::<E>(left);
            &&& demand is Yield ==> after.phase is Idle
            &&& after.queue.queued.len() <= state.queue.queued.len()
            &&& demand matches DemandView::Yield(Progress::Item(_)) ==> after.queue.queued.len()
                < state.queue.queued.len()
        }),
    decreases left, 0nat,
{
    if left > 0 && state.has_room() {
        let (queue, next) = state.queue.poll_next();
        let rest = BlockState { queue, ..state };
        match next {
            NextRequest::Empty => {
                lemma_pull_uses_up::<S, F, E>(rest, (left - 1) as nat);
            },
            NextRequest::Wait(_) => {},
            NextRequest::Send(request) => {
                lemma_dispatch_uses_up::<S, F, E>(rest, request, (left - 1) as nat);
            },
        }
    }
}

/// A request that may go waits on at most, and one that is given back is used up.
proof fn lemma_dispatch_uses_up<S, F, E>(
    state: BlockState<S, F>,
    request: QueuedRequest<S>,
    left: nat,
)
    ensures
        ({
            let (after, demand) = state.dispatch::<E>(request, left);
            &&& demand is Yield ==> after.phase is Idle
            &&& after.queue.queued.len() <= state.queue.queued.len() + 1
            &&& demand matches DemandView::Yield(Progress::Item(_)) ==> after.queue.queued.len()
                <= state.queue.queued.len()
        }),
    decreases left, 1nat,
{
    let (rest, refused) = state.take_up(request);
    if refused is None {
        lemma_pull_uses_up::<S, F, E>(rest, left);
    }
}

/// No signal makes the number of waiting requests grow, and where a wish for the next result is
/// answered at once, one of them is used up.
pub proof fn lemma_block_uses_up<S, F, E>(
    state: BlockState<S, F>,
    signal: Signal<S, F, E>,
    restarted: Timer,
)
    ensures
        ({
            let (after, demand) = state.step(signal, restarted);
            &&& after.queue.queued.len() <= state.queue.queued.len()
            &&& demand matches DemandView::Yield(Progress::Item(_)) ==> after.phase is Idle
                && after.queue.queued.len() < state.queue.queued.len() + if signal is Poll {
                0nat
            } else {
                1nat
            }
        }),
{
    match (state.phase, signal) {
        (BlockPhaseView::Robots(_, host), Signal::Robots(news))
        | (BlockPhaseView::Asked(_, host, _), Signal::Robots(news)) => {
            let rest = match news {
                RobotsNews::Pending(task) => state.awaiting(host, task),
                RobotsNews::Ready(Ok(data)) => state.knowing(host, data@),
                RobotsNews::Ready(Err(_)) => state,
            };
            lemma_pull_uses_up::<S, F, E>(rest, rest.queue.queued.len());
        },
        (BlockPhaseView::Timer(left), Signal::Timer(timer, elapsed)) => {
            let (queue, next) = state.queue.resume(timer, elapsed, restarted);
            let rest = BlockState { queue, ..state };
            match next {
                None => {
                    lemma_pull_uses_up::<S, F, E>(rest, left);
                },
                Some(request) => {
                    lemma_dispatch_uses_up::<S, F, E>(rest, request, left);
                },
            }
        },
        (BlockPhaseView::Advance(_, _), Signal::Fetch(_)) => {},
        _ => {
            lemma_pull_uses_up::<S, F, E>(state, state.queue.queued.len());
        },
    }
}

} // verus!
