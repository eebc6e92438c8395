//! What goes in is what comes out: requests, responses and errors carry what they were made of.
use crate::allowed_domain::{DomainState, PhaseView};
use crate::block_list::{BlockPhaseView, BlockState};
use crate::crawler::{
    crawled, CrawlNews, CrawlResult, CrawlerDemandView, CrawlerPhaseView, CrawlerSignal,
    CrawlerState, OutputNews,
};
use crate::domain::ListingState;
use crate::error::{CrawlError, DisallowReason, Failure, UnexpectedStatusError};
use crate::fetch::{
    disallowed, get_response, invalid, start_request, too_deep, Demand, DemandView, FetchNews,
    FetchTask, Fetched, InFlight, Progress, RobotsTask, RobotsTaskView, Signal, Ticket,
};
use crate::laws::conservation::{
    given_out, job_results, law_crawler_loses_no_result, list_loses_nothing, list_signal,
};
use crate::requests::QueuedRequest;
use crate::response::{Reply, Response};
use crate::time::Timer;
use crate::web::{
    first_mark, robots_txt_url, url_path, url_text, url_with_path, PageRequest, Url,
};
use reqwest_middleware::ClientWithMiddleware;
use vstd::prelude::*;

verus! {

/// Whether a response holds just what a server answered, and what was kept of the request.
pub open spec fn is_answer<S>(response: Response<S>, ticket: Ticket<S>, reply: Reply) -> bool {
    &&& response.response_status == reply.status
    &&& response.response_url == reply.url
    &&& response.response_headers == reply.headers
    &&& response.text == reply.text
    &&& response.request_url == ticket.request_url
    &&& response.state == ticket.state
    &&& response.depth == ticket.depth
}

/// Once a response is read to its end, a response is given out that carries what the server
/// answered: its status, its address, its headers and its text, whatever they are, and the address,
/// the state and the depth of the request.
pub proof fn law_responses_carry_what_was_answered<S, F, E>(
    ticket: Ticket<S>,
    reply: Reply,
    skip: bool,
    step: Fetched<S, F, E>,
)
    requires
        call_ensures(
            get_response::<S, F, E>,
            (ticket, FetchNews::<F>::Text(reply), skip),
            step,
        ),
    ensures
        step matches Fetched::Finished(Ok(response)) && is_answer(response, ticket, reply),
{
}

/// A response whose head has come is read, whatever its status, unless responses that were not
/// successful are skipped and its status is none from 200 to 299. A response that is skipped is
/// handed back in an error that carries the address and the state of the request.
pub proof fn law_heads_are_read_or_skipped<S, F, E>(
    ticket: Ticket<S>,
    status: u16,
    response: reqwest::Response,
    skip: bool,
    step: Fetched<S, F, E>,
)
    requires
        call_ensures(
            get_response::<S, F, E>,
            (ticket, FetchNews::<F>::Head(status, response), skip),
            step,
        ),
    ensures
        skip && (status < 200 || status >= 300) ==> step == Fetched::<S, F, E>::Finished(
            Err(
                Failure::Crawl(
                    CrawlError::NoSuccessResponse {
                        request_url: Some(ticket.request_url),
                        response,
                        state: ticket.state,
                    },
                ),
            ),
        ),
        !skip || 200 <= status < 300 ==> step == Fetched::<S, F, E>::Reading(ticket, response),
{
}

/// A request that is not done stays in flight with what was kept of it and the work that is under
/// way. One that failed ends in an error with its address, what went wrong and its state.
pub proof fn law_requests_wait_or_fail<S, F, E>(
    ticket: Ticket<S>,
    task: F,
    cause: reqwest_middleware::Error,
    skip: bool,
    waiting: Fetched<S, F, E>,
    failing: Fetched<S, F, E>,
)
    requires
        call_ensures(
            get_response::<S, F, E>,
            (ticket, FetchNews::<F>::Pending(task), skip),
            waiting,
        ),
        call_ensures(
            get_response::<S, F, E>,
            (ticket, FetchNews::<F>::Failed(cause), skip),
            failing,
        ),
    ensures
        waiting == Fetched::<S, F, E>::Waiting(
            InFlight { ticket, task: FetchTask::Running(task) },
        ),
        failing == Fetched::<S, F, E>::Finished(
            Err(
                Failure::Crawl(
                    CrawlError::FailedRequest {
                        request_url: Some(ticket.request_url),
                        cause,
                        state: ticket.state,
                    },
                ),
            ),
        ),
{
}

/// A request that is started is sent as it is, with the client of the list; its address, its state
/// and its depth are kept for the response.
pub proof fn law_requests_are_sent_as_they_are<S, F>(
    request: QueuedRequest<S>,
    client: &ClientWithMiddleware,
    started: InFlight<S, F>,
)
    requires
        call_ensures(start_request::<S, F>, (request, client), started),
    ensures
        started.task == FetchTask::<F>::Send(*client, request.request.inner()),
        started.ticket.request_url == request.request.target(),
        started.ticket.state == request.state,
        started.ticket.depth == request.depth,
{
}

/// What a domain gives out for a request that was read to its end carries what the server answered,
/// and a head that is to be read is read.
pub proof fn law_domain_passes_answers_on<S, F, E>(
    domain: DomainState<S, F>,
    ticket: Ticket<S>,
    reply: Reply,
    status: u16,
    head: reqwest::Response,
    cause: reqwest_middleware::Error,
    restarted: Timer,
)
    requires
        domain.phase == PhaseView::First(ticket) || (domain.phase matches PhaseView::Advance(_, out)
            && out == ticket),
    ensures
        domain.step::<E>(Signal::Fetch(FetchNews::Text(reply)), restarted).1 matches DemandView::Yield(
            Progress::Item(Ok(response)),
        ) && is_answer(response, ticket, reply),
        !domain.skip_non_successful_responses || 200 <= status < 300 ==> domain.step::<E>(
            Signal::Fetch(FetchNews::Head(status, head)),
            restarted,
        ) == (domain, DemandView::<S, F, E>::PollFetch(FetchTask::Read(head))),
        domain.skip_non_successful_responses && !(200 <= status < 300) ==> (domain.step::<E>(
            Signal::Fetch(FetchNews::Head(status, head)),
            restarted,
        ).1 matches DemandView::Yield(
            Progress::Item(
                Err(
                    Failure::Crawl(CrawlError::NoSuccessResponse { request_url, response, state }),
                ),
            ),
        ) && request_url == Some(ticket.request_url) && response == head && state == ticket.state),
        domain.step::<E>(Signal::Fetch(FetchNews::Failed(cause)), restarted).1
            matches DemandView::Yield(
            Progress::Item(
                Err(
                    Failure::Crawl(
                        CrawlError::FailedRequest { request_url, cause: reported, state },
                    ),
                ),
            ),
        ) && request_url == Some(ticket.request_url) && reported == cause && state == ticket.state,
{
}

/// What a block list gives out for a request that was read to its end carries what the server
/// answered, and a head that is to be read is read.
pub proof fn law_block_list_passes_answers_on<S, F, E>(
    list: BlockState<S, F>,
    left: nat,
    ticket: Ticket<S>,
    reply: Reply,
    status: u16,
    head: reqwest::Response,
    cause: reqwest_middleware::Error,
    restarted: Timer,
)
    requires
        list.phase == BlockPhaseView::Advance(left, ticket),
    ensures
        list.step::<E>(Signal::Fetch(FetchNews::Text(reply)), restarted).1 matches DemandView::Yield(
            Progress::Item(Ok(response)),
        ) && is_answer(response, ticket, reply),
        !list.skip_non_successful_responses || 200 <= status < 300 ==> list.step::<E>(
            Signal::Fetch(FetchNews::Head(status, head)),
            restarted,
        ) == (list, DemandView::<S, F, E>::PollFetch(FetchTask::Read(head))),
        list.skip_non_successful_responses && !(200 <= status < 300) ==> (list.step::<E>(
            Signal::Fetch(FetchNews::Head(status, head)),
            restarted,
        ).1 matches DemandView::Yield(
            Progress::Item(
                Err(
                    Failure::Crawl(CrawlError::NoSuccessResponse { request_url, response, state }),
                ),
            ),
        ) && request_url == Some(ticket.request_url) && response == head && state == ticket.state),
        list.step::<E>(Signal::Fetch(FetchNews::Failed(cause)), restarted).1
            matches DemandView::Yield(
            Progress::Item(
                Err(
                    Failure::Crawl(
                        CrawlError::FailedRequest { request_url, cause: reported, state },
                    ),
                ),
            ),
        ) && request_url == Some(ticket.request_url) && reported == cause && state == ticket.state,
{
}

/// A job that ends in a response comes to a result behind those that nobody has taken yet. A
/// response carries what the server answered, the state of the job and its depth; one that could
/// not be read to its end is an error with that state; a job that failed is reported as it failed.
pub proof fn law_injected_jobs_are_passed_on<O, S, F, E>(
    crawler: CrawlerState<O, S, F, E>,
    left: nat,
    depth: usize,
    news: CrawlNews<S, F, E>,
    restarted: Timer,
)
    requires
        crawler.well_formed(),
        crawler.phase == CrawlerPhaseView::Crawl(left, depth),
        !(news is Pending),
    ensures
        ({
            let (after, demand) = crawler.step(CrawlerSignal::Crawl(news), restarted);
            let results = given_out(demand) + after.results;
            let place = crawler.results.len() as int;
            &&& place < results.len()
            &&& forall|i: int|
                0 <= i < place ==> #[trigger] results[i] == crawler.results[i]
            &&& match news {
                CrawlNews::Ready(Ok((reply, state))) => {
                    &&& results[place] matches CrawlResult::Crawled(Ok(response))
                    &&& is_answer(
                        response,
                        Ticket { request_url: reply.url, state, depth },
                        reply,
                    )
                },
                CrawlNews::Ready(Err(error)) => results[place] == CrawlResult::<O, S, E>::Crawled(
                    Err(Failure::Outside(error)),
                ),
                CrawlNews::Unread(url, cause, state) => results[place] == CrawlResult::<
                    O,
                    S,
                    E,
                >::Crawled(
                    Err(
                        Failure::Crawl(
                            CrawlError::FailedRequest { request_url: Some(url), cause, state },
                        ),
                    ),
                ),
                CrawlNews::Pending(_) => true,
            }
        }),
{
    let signal = CrawlerSignal::<O, S, F, E>::Crawl(news);
    law_crawler_loses_no_result(crawler, signal, restarted);
    let (after, demand) = crawler.step(signal, restarted);
    let results = given_out(demand) + after.results;
    let gained = crawler.results + job_results(crawler.phase, signal);
    assert(gained.len() == crawler.results.len() + 1);
    let told = list_signal(signal);
    let taken = choose|taken: Seq<Result<Response<S>, Failure<S, E>>>|
        results == gained + crawled::<O, S, E>(taken)
            && #[trigger] list_loses_nothing(
            crawler.list,
            told,
            after.list,
            taken,
        );
    assert(results == gained + crawled::<O, S, E>(taken));
    assert forall|i: int| 0 <= i < gained.len() implies #[trigger] results[i] == gained[i] by {}
}

/// A job that ends in an output comes to a result behind those that nobody has taken yet, as it
/// ended: an output, or what it failed with. A job that ends in nothing comes to none.
pub proof fn law_finished_jobs_are_passed_on<O, S, F, E>(
    crawler: CrawlerState<O, S, F, E>,
    left: nat,
    outcome: Result<Option<O>, E>,
    restarted: Timer,
)
    requires
        crawler.well_formed(),
        crawler.phase == CrawlerPhaseView::Output(left),
    ensures
        ({
            let signal = CrawlerSignal::<O, S, F, E>::Output(OutputNews::Ready(outcome));
            let (after, demand) = crawler.step(signal, restarted);
            let results = given_out(demand) + after.results;
            let place = crawler.results.len() as int;
            &&& forall|i: int|
                0 <= i < place ==> #[trigger] results[i] == crawler.results[i]
            &&& match outcome {
                Ok(Some(output)) => {
                    &&& place < results.len()
                    &&& results[place] == CrawlResult::<O, S, E>::Finished(Ok(output))
                },
                Err(error) => {
                    &&& place < results.len()
                    &&& results[place] == CrawlResult::<O, S, E>::Finished(
                        Err(Failure::Outside(error)),
                    )
                },
                Ok(None) => forall|i: int|
                    place <= i < results.len() ==> #[trigger] results[i] is Crawled,
            }
        }),
{
    let signal = CrawlerSignal::<O, S, F, E>::Output(OutputNews::Ready(outcome));
    law_crawler_loses_no_result(crawler, signal, restarted);
    let (after, demand) = crawler.step(signal, restarted);
    let results = given_out(demand) + after.results;
    let gained = crawler.results + job_results(crawler.phase, signal);
    let told = list_signal(signal);
    let taken = choose|taken: Seq<Result<Response<S>, Failure<S, E>>>|
        results == gained + crawled::<O, S, E>(taken)
            && #[trigger] list_loses_nothing(
            crawler.list,
            told,
            after.list,
            taken,
        );
    assert(results == gained + crawled::<O, S, E>(taken));
    assert forall|i: int| 0 <= i < gained.len() implies #[trigger] results[i] == gained[i] by {}
    assert forall|i: int| gained.len() <= i < results.len() implies #[trigger] results[i] is Crawled by {
        assert(results[i] == crawled::<O, S, E>(taken)[i - gained.len()]);
    }
}

/// A crawler counts one sent request more just if it has a request for a page or for a `robots.txt`
/// sent; the count goes on from zero once a `usize` holds no more. Responses are counted where they
/// are handed to the scraper only.
pub proof fn law_sends_are_counted<O, S, F, E>(
    crawler: CrawlerState<O, S, F, E>,
    signal: CrawlerSignal<O, S, F, E>,
    restarted: Timer,
    depth: usize,
)
    ensures
        ({
            let (after, demand) = crawler.step(signal, restarted);
            let sent = match demand {
                CrawlerDemandView::List(DemandView::PollFetch(FetchTask::Send(_, _))) => true,
                CrawlerDemandView::List(DemandView::PollRobots(RobotsTaskView::Fetch(_, _))) => {
                    true
                },
                _ => false,
            };
            let count = crawler.stats.request_count + if sent {
                1int
            } else {
                0int
            };
            &&& after.stats.request_count == if count <= usize::MAX {
                count
            } else {
                0
            }
            &&& after.stats.response_count == crawler.stats.response_count
        }),
        ({
            let handed = crawler.scraping(depth);
            let count = crawler.stats.response_count + 1;
            &&& handed.stats.response_count == if count <= usize::MAX {
                count
            } else {
                0
            }
            &&& handed.stats.request_count == crawler.stats.request_count
            &&& handed.current_depth == depth
            &&& handed.list == crawler.list
            &&& handed.results == crawler.results
            &&& handed.scraped().current_depth == 0
            &&& handed.scraped().stats == handed.stats
            &&& handed.scraped().list == handed.list
            &&& handed.scraped().results == handed.results
            &&& handed.scraped().outputs == crawler.outputs
            &&& handed.scraped().crawls == crawler.crawls
        }),
{
}

/// Every error hands back the state of the request that it is about, whatever went wrong; only the
/// failure of a `robots.txt` is about none.
pub proof fn law_errors_hand_back_the_state<T>(
    state: Option<T>,
    url: Option<Url>,
    response: reqwest::Response,
    cause: reqwest_middleware::Error,
    error: reqwest::Error,
    request: PageRequest,
    reason: DisallowReason,
    depth: usize,
    host: String,
)
    ensures
        (CrawlError::NoSuccessResponse { request_url: url, response, state }).carried() == state,
        (CrawlError::FailedRequest { request_url: url, cause, state }).carried() == state,
        (CrawlError::FailedToBuildRequest { error, state, depth }).carried() == state,
        (CrawlError::InvalidRequest { request, state }).carried() == state,
        (CrawlError::ReachedMaxDepth { request, state, depth }).carried() == state,
        (CrawlError::DisallowedRequest { reason, request, state }).carried() == state,
        (CrawlError::<T>::RobotsTxtError { host }).carried() is None,
{
}

/// A failure hands back the state that the error in it does; one from outside has none.
pub proof fn law_failures_hand_back_the_state<T, E>(
    error: CrawlError<T>,
    status: UnexpectedStatusError,
    outside: E,
)
    ensures
        Failure::<T, E>::Crawl(error).carried() == error.carried(),
        Failure::<T, E>::UnexpectedStatus(status).carried() is None,
        Failure::<T, E>::Outside(outside).carried() is None,
{
}

/// A request that is refused is handed back in an error of the kind that says why, with its state
/// and, where it lies too deep, its depth.
pub proof fn law_refusals_name_the_request<S>(request: QueuedRequest<S>, reason: DisallowReason)
    ensures
        too_deep(request) == (CrawlError::ReachedMaxDepth {
            request: request.request,
            state: request.state,
            depth: request.depth,
        }),
        invalid(request) == (CrawlError::InvalidRequest {
            request: request.request,
            state: request.state,
        }),
        disallowed(request, reason) == (CrawlError::DisallowedRequest {
            reason,
            request: request.request,
            state: request.state,
        }),
{
}

/// A request that could not be put together is refused with what went wrong, its state and its
/// depth, and nothing changes. One that could is put in as it is.
pub proof fn law_built_requests_are_put_in<S, F, E>(
    list: ListingState<S, F, E>,
    request: PageRequest,
    error: reqwest::Error,
    state: Option<S>,
    depth: usize,
)
    ensures
        list.add_built(Err(error), state, depth) == (
            list,
            Err::<(), _>(CrawlError::FailedToBuildRequest { error, state, depth }),
        ),
        list.add_built(Ok(request), state, depth) == list.add_request(
            QueuedRequest { request, state, depth },
        ),
{
}

/// What a demand is seen as asks for the very thing that the demand asks for.
pub proof fn law_demands_are_seen_as_they_are<S, F, E>(
    demand: Demand<S, F, E>,
    task: RobotsTask<F>,
)
    ensures
        match demand {
            Demand::PollRobots(task) => demand@ == DemandView::<S, F, E>::PollRobots(task@),
            Demand::PollFetch(task) => demand@ == DemandView::<S, F, E>::PollFetch(task),
            Demand::PollTimer(timer) => demand@ == DemandView::<S, F, E>::PollTimer(timer),
            Demand::Yield(progress) => demand@ == DemandView::<S, F, E>::Yield(progress),
        },
        match task {
            RobotsTask::Fetch(client, url) => task@ == RobotsTaskView::<F>::Fetch(client, url@),
            RobotsTask::Running(work) => task@ == RobotsTaskView::<F>::Running(work),
        },
{
}

/// The `robots.txt` of an address is asked for at the address with the path `robots.txt` in place
/// of its own, on every address that is not of a length beyond what a `u32` counts.
pub proof fn law_robots_txt_lies_at_its_path(text: Seq<char>, whole: Seq<char>, changed: Seq<char>)
    requires
        url_text(text) == Some(whole),
        url_path(text) is Some,
        url_with_path(text, "robots.txt"@) == Some(changed),
        whole.len() + 10 < 0xffff_ffff,
    ensures
        robots_txt_url(text) == changed,
{
    reveal_strlit("robots.txt");
    lemma_marks_are_within(whole, true, 0);
    lemma_marks_are_within(whole, false, 0);
}

proof fn lemma_marks_are_within(text: Seq<char>, query: bool, i: int)
    requires
        0 <= i,
    ensures
        first_mark(text, query, i) <= text.len(),
    decreases text.len() - i,
{
    if i < text.len() {
        lemma_marks_are_within(text, query, i + 1);
    }
}

} // verus!
