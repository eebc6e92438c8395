//! Requests in flight: what is kept of them, what is to be done for them outside, and what comes
//! back.
//!
//! The lists of domains do no input or output. They hand out a [Demand], whoever drives them does
//! what it asks for, and the outcome goes back in as a [Signal].
use crate::error::{CrawlError, DisallowReason, Failure};
use crate::requests::QueuedRequest;
use crate::response::{Reply, Response};
use crate::robots::RobotsData;
use crate::time::Timer;
use crate::web::Url;
use reqwest::Response as HttpResponse;
use reqwest_middleware::ClientWithMiddleware;
use vstd::prelude::*;

verus! {

/// What is to be done next for a request; `F` is the handle of work that is already under way.
pub enum FetchTask<F> {
    /// Send the request.
    Send(ClientWithMiddleware, reqwest::Request),
    /// Read the rest of the response, of which the head has come.
    Read(HttpResponse),
    /// Look after the work again.
    Running(F),
}

/// What is to be done next for the `robots.txt` of a host.
pub enum RobotsTask<F> {
    /// Ask for the file at this address.
    Fetch(ClientWithMiddleware, Url),
    /// Look after the work again.
    Running(F),
}

/// What a [RobotsTask] asks for.
pub enum RobotsTaskView<F> {
    /// The file at this address.
    Fetch(ClientWithMiddleware, Seq<char>),
    /// Work that is already under way.
    Running(F),
}

impl<F> View for RobotsTask<F> {
    type V = RobotsTaskView<F>;

    open spec fn view(&self) -> RobotsTaskView<F> {
        match *self {
            RobotsTask::Fetch(client, url) => RobotsTaskView::Fetch(client, url@),
            RobotsTask::Running(task) => RobotsTaskView::Running(task),
        }
    }
}

/// What an optional [RobotsTask] asks for.
pub open spec fn optional_task<F>(task: Option<RobotsTask<F>>) -> Option<RobotsTaskView<F>> {
    match task {
        Some(task) => Some(task@),
        None => None,
    }
}

/// What is kept of a request until its response is there.
pub struct Ticket<S> {
    /// The address that was asked for.
    pub request_url: Url,
    /// The attached state.
    pub state: Option<S>,
    /// The depth of the request.
    pub depth: usize,
}

/// A request in flight.
pub struct InFlight<S, F> {
    /// What is kept of the request.
    pub ticket: Ticket<S>,
    /// What is to be done next for it.
    pub task: FetchTask<F>,
}

/// What became of the work on a request.
pub enum FetchNews<F> {
    /// It is not done yet.
    Pending(F),
    /// The head of the response came, with this status.
    Head(u16, HttpResponse),
    /// The response was read to its end.
    Text(Reply),
    /// It failed: no response came, or it could not be read to its end.
    Failed(reqwest_middleware::Error),
}

/// What became of the work on a `robots.txt`.
pub enum RobotsNews<S, F, E> {
    /// It is not done yet.
    Pending(F),
    /// It is done.
    Ready(Result<RobotsData, Failure<S, E>>),
}

/// What a list of domains is told.
pub enum Signal<S, F, E> {
    /// Somebody wants the next result.
    Poll,
    /// What became of a [Demand::PollRobots].
    Robots(RobotsNews<S, F, E>),
    /// What became of a [Demand::PollFetch].
    Fetch(FetchNews<F>),
    /// The timer of a [Demand::PollTimer], and whether it has run out.
    Timer(Timer, bool),
}

/// What whoever wants the next result gets.
pub enum Progress<S, E> {
    /// A result.
    Item(Result<Response<S>, Failure<S, E>>),
    /// There is nothing left to do.
    Done,
    /// There is no result yet.
    Pending,
}

/// What a list of domains wants done.
pub enum Demand<S, F, E> {
    /// Look after a `robots.txt`.
    PollRobots(RobotsTask<F>),
    /// Look after a request.
    PollFetch(FetchTask<F>),
    /// See whether the timer has run out.
    PollTimer(Timer),
    /// Pass this on to whoever wants the next result; the next signal is a [Signal::Poll].
    Yield(Progress<S, E>),
}

/// What a [Demand] asks for.
pub enum DemandView<S, F, E> {
    /// To look after a `robots.txt`.
    PollRobots(RobotsTaskView<F>),
    /// To look after a request.
    PollFetch(FetchTask<F>),
    /// To see whether the timer has run out.
    PollTimer(Timer),
    /// To pass this on.
    Yield(Progress<S, E>),
}

impl<S, F, E> View for Demand<S, F, E> {
    type V = DemandView<S, F, E>;

    open spec fn view(&self) -> DemandView<S, F, E> {
        match *self {
            Demand::PollRobots(task) => DemandView::PollRobots(task@),
            Demand::PollFetch(task) => DemandView::PollFetch(task),
            Demand::PollTimer(timer) => DemandView::PollTimer(timer),
            Demand::Yield(progress) => DemandView::Yield(progress),
        }
    }
}

/// Whether a demand has a request sent: for a page, or for a `robots.txt`.
pub open spec fn sends<S, F, E>(demand: DemandView<S, F, E>) -> bool {
    match demand {
        DemandView::PollFetch(FetchTask::Send(_, _)) => true,
        DemandView::PollRobots(RobotsTaskView::Fetch(_, _)) => true,
        _ => false,
    }
}

/// How far a request has come.
pub enum Fetched<S, F, E> {
    /// It is still in flight.
    Waiting(InFlight<S, F>),
    /// The head of its response is there, the rest is to be read.
    Reading(Ticket<S>, HttpResponse),
    /// It is done.
    Finished(Result<Response<S>, Failure<S, E>>),
}

/// Whether a status says that the request was successful: 2xx.
pub open spec fn is_success(status: u16) -> bool {
    200 <= status < 300
}

/// What is kept of a request until its response is there.
pub open spec fn ticket_of<S>(request: QueuedRequest<S>) -> Ticket<S> {
    Ticket {
        request_url: request.request.target(),
        state: request.state,
        depth: request.depth,
    }
}

/// What is kept of a request, and that it is to be sent.
pub open spec fn in_flight<S, F>(request: QueuedRequest<S>, client: ClientWithMiddleware) -> InFlight<
    S,
    F,
> {
    InFlight {
        ticket: ticket_of(request),
        task: FetchTask::Send(client, request.request.inner()),
    }
}

/// The response to a request, made of what was kept of it and of what the server answered.
pub open spec fn response_for<S>(ticket: Ticket<S>, reply: Reply) -> Response<S> {
    Response {
        depth: ticket.depth,
        request_url: ticket.request_url,
        response_url: reply.url,
        response_status: reply.status,
        response_headers: reply.headers,
        text: reply.text,
        state: ticket.state,
    }
}

/// How far a request has come, by what became of the work on it.
pub open spec fn fetched<S, F, E>(
    ticket: Ticket<S>,
    news: FetchNews<F>,
    skip_non_successful_responses: bool,
) -> Fetched<S, F, E> {
    match news {
        FetchNews::Pending(task) => Fetched::Waiting(
            InFlight { ticket, task: FetchTask::Running(task) },
        ),
        FetchNews::Head(status, response) => if !is_success(status)
            && skip_non_successful_responses {
            Fetched::Finished(
                Err(
                    Failure::Crawl(
                        CrawlError::NoSuccessResponse {
                            request_url: Some(ticket.request_url),
                            response,
                            state: ticket.state,
                        },
                    ),
                ),
            )
        } else {
            Fetched::Reading(ticket, response)
        },
        FetchNews::Text(reply) => Fetched::Finished(Ok(response_for(ticket, reply))),
        FetchNews::Failed(cause) => Fetched::Finished(Err(Failure::Crawl(failed(ticket, cause)))),
    }
}

/// The error for a request that was not answered.
pub open spec fn failed<S>(ticket: Ticket<S>, cause: reqwest_middleware::Error) -> CrawlError<S> {
    CrawlError::FailedRequest {
        request_url: Some(ticket.request_url),
        cause,
        state: ticket.state,
    }
}

/// The error for a request that is not allowed.
pub open spec fn disallowed<S>(request: QueuedRequest<S>, reason: DisallowReason) -> CrawlError<S> {
    CrawlError::DisallowedRequest { reason, request: request.request, state: request.state }
}

/// The error for a request that names no host to ask.
pub open spec fn invalid<S>(request: QueuedRequest<S>) -> CrawlError<S> {
    CrawlError::InvalidRequest { request: request.request, state: request.state }
}

/// The error for a request that lies too deep.
pub open spec fn too_deep<S>(request: QueuedRequest<S>) -> CrawlError<S> {
    CrawlError::ReachedMaxDepth {
        request: request.request,
        state: request.state,
        depth: request.depth,
    }
}

/// `sequence` without the element at `i`, whose place the last one takes.
pub open spec fn swap_removed<A>(sequence: Seq<A>, i: int) -> Seq<A> {
    sequence.update(i, sequence.last()).drop_last()
}

impl<S, F, E> Demand<S, F, E> {
    /// Whether the demand has a request sent: for a page, or for a `robots.txt`.
    pub fn is_send(&self) -> (send: bool)
        ensures
            send == sends(self@),
    {
        match self {
            Demand::PollFetch(FetchTask::Send(_, _)) => true,
            Demand::PollRobots(RobotsTask::Fetch(_, _)) => true,
            _ => false,
        }
    }
}

/// Starts a request: keeps its address, state and depth, and has it sent.
pub fn start_request<S, F>(request: QueuedRequest<S>, client: &ClientWithMiddleware) -> (started:
    InFlight<S, F>)
    ensures
        started == in_flight::<S, F>(request, *client),
{
    let QueuedRequest { request, state, depth } = request;
    let (inner, request_url) = request.into_parts();
    InFlight {
        ticket: Ticket { request_url, state, depth },
        task: FetchTask::Send(client.clone(), inner),
    }
}

/// Takes a request one step further: a response that was not successful is dropped once its head
/// is there, if such responses are to be skipped; any other is read to its end. Whatever a request
/// comes to, its state is handed on.
pub fn get_response<S, F, E>(
    ticket: Ticket<S>,
    news: FetchNews<F>,
    skip_non_successful_responses: bool,
) -> (step: Fetched<S, F, E>)
    ensures
        step == fetched::<S, F, E>(ticket, news, skip_non_successful_responses),
{
    match news {
        FetchNews::Pending(task) => Fetched::Waiting(
            InFlight { ticket, task: FetchTask::Running(task) },
        ),
        FetchNews::Head(status, response) => {
            let success: bool = 200 <= status && status < 300;
            if !success && skip_non_successful_responses {
                let error = CrawlError::NoSuccessResponse {
                    request_url: Some(ticket.request_url),
                    response,
                    state: ticket.state,
                };
                Fetched::Finished(Err(Failure::Crawl(error)))
            } else {
                Fetched::Reading(ticket, response)
            }
        },
        FetchNews::Text(reply) => {
            let Ticket { request_url, state, depth } = ticket;
            let Reply { url, status, headers, text } = reply;
            Fetched::Finished(
                Ok(
                    Response {
                        depth,
                        request_url,
                        response_url: url,
                        response_status: status,
                        response_headers: headers,
                        text,
                        state,
                    },
                ),
            )
        },
        FetchNews::Failed(cause) => {
            let Ticket { request_url, state, .. } = ticket;
            let request_url = Some(request_url);
            let error = CrawlError::FailedRequest { request_url, cause, state };
            Fetched::Finished(Err(Failure::Crawl(error)))
        },
    }
}

/// The error for a request that is not allowed.
pub fn disallow<S>(request: QueuedRequest<S>, reason: DisallowReason) -> (error: CrawlError<S>)
    ensures
        error == disallowed(request, reason),
{
    CrawlError::DisallowedRequest { reason, request: request.request, state: request.state }
}

/// The error for a request that names no host to ask.
pub fn reject<S>(request: QueuedRequest<S>) -> (error: CrawlError<S>)
    ensures
        error == invalid(request),
{
    CrawlError::InvalidRequest { request: request.request, state: request.state }
}

/// The error for a request that lies too deep.
pub fn reject_depth<S>(request: QueuedRequest<S>) -> (error: CrawlError<S>)
    ensures
        error == too_deep(request),
{
    CrawlError::ReachedMaxDepth {
        request: request.request,
        state: request.state,
        depth: request.depth,
    }
}

} // verus!
