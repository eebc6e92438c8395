//! The crawler: it queues requests, drives them to completion and gathers what comes of them.
use crate::allow_list::{AllowList, AllowState};
use crate::allowed_domain::AllowListConfig;
use crate::block_list::{BlockList, BlockPhaseView, BlockState};
use crate::config::{lemma_push_contains, ConfigState, CrawlerConfig, CrawlerSettings};
use crate::domain::{lemma_drain_needs_no_timer, DomainListing, ListDrained, ListingState};
use crate::error::{CrawlError, Failure};
use crate::fetch::{sends, swap_removed, Demand, DemandView, Progress, Signal};
use crate::requests::{QueueState, QueuedRequestBuilder, RequestDelay};
use crate::response::{Reply, Response};
use crate::time::Timer;
use crate::web::{
    builds_page, get_request, is_standard_client, new_client, starts_get, PageRequest, Url,
};
use reqwest_middleware::ClientWithMiddleware;
use std::collections::VecDeque;
use vstd::prelude::*;

verus! {

/// Stats about sent requests and received responses.
#[derive(Debug, Clone, Copy)]
pub struct Stats {
    /// Number of sent requests.
    pub request_count: usize,
    /// Number of received successful responses.
    pub response_count: usize,
}

impl Stats {
    /// The stats with one more request.
    pub open spec fn with_request(self) -> Stats {
        Stats { request_count: self.request_count.wrapping_add(1), ..self }
    }

    /// The stats with one more response.
    pub open spec fn with_response(self) -> Stats {
        Stats { response_count: self.response_count.wrapping_add(1), ..self }
    }
}

impl Default for Stats {
    fn default() -> (stats: Self)
        ensures
            stats == (Stats { request_count: 0, response_count: 0 }),
    {
        Stats { request_count: 0, response_count: 0 }
    }
}

/// The result type a `Crawler` produces.
pub enum CrawlResult<O, S, E> {
    /// A submitted request to produce the scraper's output has finished.
    Finished(Result<O, Failure<S, E>>),
    /// A page was crawled.
    Crawled(Result<Response<S>, Failure<S, E>>),
}

/// What became of a submitted job that ends in the scraper's output.
pub enum OutputNews<O, F, E> {
    /// It is not done yet.
    Pending(F),
    /// It is done.
    Ready(Result<Option<O>, E>),
}

/// What became of a submitted job that ends in a response for the scraper.
pub enum CrawlNews<S, F, E> {
    /// It is not done yet.
    Pending(F),
    /// It is done: the response was read to its end, and comes with a state.
    Ready(Result<(Reply, Option<S>), E>),
    /// A response came from this address, with a state, but could not be read to its end.
    Unread(Url, reqwest_middleware::Error, Option<S>),
}

/// What a crawler is told.
pub enum CrawlerSignal<O, S, F, E> {
    /// Somebody wants the next result.
    Poll,
    /// What became of a [CrawlerDemand::PollOutput].
    Output(OutputNews<O, F, E>),
    /// What became of a [CrawlerDemand::PollCrawl].
    Crawl(CrawlNews<S, F, E>),
    /// What became of a [CrawlerDemand::List].
    List(Signal<S, F, E>),
}

/// What whoever wants the next result gets.
pub enum CrawlerProgress<O, S, E> {
    /// A result.
    Item(CrawlResult<O, S, E>),
    /// There is nothing left to do.
    Done,
    /// There is no result yet.
    Pending,
}

/// What a crawler wants done.
pub enum CrawlerDemand<O, S, F, E> {
    /// Look after a submitted job that ends in the scraper's output.
    PollOutput(F),
    /// Look after a submitted job that ends in a response for the scraper.
    PollCrawl(F),
    /// What the list of domains wants done; it is never a [Demand::Yield].
    List(Demand<S, F, E>),
    /// Pass this on to whoever wants the next result; the next signal is a [CrawlerSignal::Poll].
    Yield(CrawlerProgress<O, S, E>),
}

/// What a [CrawlerDemand] asks for.
pub enum CrawlerDemandView<O, S, F, E> {
    /// To look after a submitted job that ends in the scraper's output.
    PollOutput(F),
    /// To look after a submitted job that ends in a response for the scraper.
    PollCrawl(F),
    /// What the list of domains wants done.
    List(DemandView<S, F, E>),
    /// To pass this on.
    Yield(CrawlerProgress<O, S, E>),
}

impl<O, S, F, E> View for CrawlerDemand<O, S, F, E> {
    type V = CrawlerDemandView<O, S, F, E>;

    open spec fn view(&self) -> CrawlerDemandView<O, S, F, E> {
        match *self {
            CrawlerDemand::PollOutput(task) => CrawlerDemandView::PollOutput(task),
            CrawlerDemand::PollCrawl(task) => CrawlerDemandView::PollCrawl(task),
            CrawlerDemand::List(demand) => CrawlerDemandView::List(demand@),
            CrawlerDemand::Yield(progress) => CrawlerDemandView::Yield(progress),
        }
    }
}

/// What a crawler is waiting for.
pub enum CrawlerPhase {
    /// For somebody to want the next result.
    Idle,
    /// For news of a job that ends in the scraper's output, while the given number of others are
    /// still to be looked after.
    Output(usize),
    /// For news of a job that ends in a response of the given depth, while the given number of
    /// others are still to be looked after.
    Crawl(usize, usize),
    /// For news for the list of domains.
    List,
}

/// What a [CrawlerPhase] says.
pub enum CrawlerPhaseView {
    /// Somebody has to want the next result.
    Idle,
    /// A job that ends in the scraper's output is out, and so many others are still to be looked
    /// after.
    Output(nat),
    /// A job that ends in a response of the given depth is out, and so many others are still to be
    /// looked after.
    Crawl(nat, usize),
    /// The list of domains wants something done.
    List,
}

impl View for CrawlerPhase {
    type V = CrawlerPhaseView;

    open spec fn view(&self) -> CrawlerPhaseView {
        match *self {
            CrawlerPhase::Idle => CrawlerPhaseView::Idle,
            CrawlerPhase::Output(left) => CrawlerPhaseView::Output(left as nat),
            CrawlerPhase::Crawl(left, depth) => CrawlerPhaseView::Crawl(left as nat, depth),
            CrawlerPhase::List => CrawlerPhaseView::List,
        }
    }
}

/// The crawler that is responsible for driving the requests to completion and providing the crawl
/// response for the `Scraper`.
///
/// `O` is what the scraper eventually produces, `S` the state it drags along, `F` the handle of
/// work that is under way and `E` what such work fails with.
pub struct Crawler<O, S, F, E> {
    /// Jobs that eventually result in the scraper's output and are piped directly to the caller.
    in_progress_complete_requests: Vec<F>,
    /// All injected jobs that create a new state, with the depth of their responses.
    in_progress_crawl_requests: Vec<(usize, F)>,
    queued_results: VecDeque<CrawlResult<O, S, E>>,
    /// The client that issues all the requests.
    client: ClientWithMiddleware,
    /// Used to track the depth of submitted requests.
    current_depth: usize,
    /// Either a list that only allows a set of domains or disallows a set of domains.
    list: DomainListing<S, F, E>,
    /// Stats about requests.
    stats: Stats,
    /// The maximum depth of a request.
    max_depth: usize,
    /// Respect any restrictions set by the target host's robots.txt file.
    respect_robots_txt: bool,
    /// Whether to ignore responses with a non 2xx response code.
    skip_non_successful_responses: bool,
    /// What the crawler is waiting for.
    phase: CrawlerPhase,
}

/// What a [Crawler] holds.
#[verifier::ext_equal]
pub struct CrawlerState<O, S, F, E> {
    /// The jobs that end in the scraper's output.
    pub outputs: Seq<F>,
    /// The jobs that end in a response, with its depth.
    pub crawls: Seq<(usize, F)>,
    /// Results that nobody has taken yet.
    pub results: Seq<CrawlResult<O, S, E>>,
    /// The client that sends the requests.
    pub client: ClientWithMiddleware,
    /// The depth of the response that is being scraped; 0 while none is.
    pub current_depth: usize,
    /// The list of domains.
    pub list: ListingState<S, F, E>,
    /// Stats about requests.
    pub stats: Stats,
    /// The maximum depth of a request.
    pub max_depth: usize,
    /// Whether the `robots.txt` is respected.
    pub respect_robots_txt: bool,
    /// Whether responses that were not successful are skipped.
    pub skip_non_successful_responses: bool,
    /// What the crawler is waiting for.
    pub phase: CrawlerPhaseView,
}

/// The response that an injected job ends in. The address that was asked for is not known, so the
/// one that the response came from takes its place.
pub open spec fn injected_response<S>(depth: usize, reply: Reply, state: Option<S>) -> Response<S> {
    Response {
        depth,
        request_url: reply.url,
        response_url: reply.url,
        response_status: reply.status,
        response_headers: reply.headers,
        text: reply.text,
        state,
    }
}

/// The error for a response of an injected job that could not be read to its end.
pub open spec fn unread<S>(
    url: Url,
    cause: reqwest_middleware::Error,
    state: Option<S>,
) -> CrawlError<S> {
    CrawlError::FailedRequest { request_url: Some(url), cause, state }
}

/// The results of crawled pages.
pub open spec fn crawled<O, S, E>(items: Seq<Result<Response<S>, Failure<S, E>>>) -> Seq<
    CrawlResult<O, S, E>,
> {
    items.map_values(
        |item: Result<Response<S>, Failure<S, E>>| CrawlResult::<O, S, E>::Crawled(item),
    )
}

impl<O, S, F, E> CrawlerState<O, S, F, E> {
    /// Whether the state is one that a crawler can be in.
    pub open spec fn well_formed(self) -> bool {
        &&& self.list.well_formed()
        &&& self.phase is List <==> !self.list.is_idle()
        &&& match self.phase {
            CrawlerPhaseView::Output(left) => left <= self.outputs.len(),
            CrawlerPhaseView::Crawl(left, _) => left <= self.crawls.len(),
            _ => true,
        }
    }

    /// Whether the crawler is waiting for such a signal.
    pub open spec fn expects(self, signal: CrawlerSignal<O, S, F, E>) -> bool {
        match (self.phase, signal) {
            (CrawlerPhaseView::Idle, CrawlerSignal::Poll) => true,
            (CrawlerPhaseView::Output(_), CrawlerSignal::Output(_)) => true,
            (CrawlerPhaseView::Crawl(_, _), CrawlerSignal::Crawl(_)) => true,
            (CrawlerPhaseView::List, CrawlerSignal::List(signal)) => self.list.expects(signal),
            _ => false,
        }
    }

    /// The crawler in another phase.
    pub open spec fn entering(self, phase: CrawlerPhaseView) -> Self {
        CrawlerState { phase, ..self }
    }

    /// The crawler with one more result.
    pub open spec fn gaining(self, result: CrawlResult<O, S, E>) -> Self {
        CrawlerState { results: self.results.push(result), ..self }
    }

    /// The crawler when a request is queued that may have failed to come about: it lies one deeper
    /// than the response that is being scraped, and if the list refuses it, the refusal is a
    /// result.
    pub open spec fn queue_built(
        self,
        built: Result<PageRequest, reqwest::Error>,
        state: Option<S>,
    ) -> Self {
        let (list, added) = self.list.add_built(built, state, (self.current_depth + 1) as usize);
        let rest = CrawlerState { list, ..self };
        match added {
            Ok(()) => rest,
            Err(error) => rest.gaining(CrawlResult::Crawled(Err(Failure::Crawl(error)))),
        }
    }

    /// The crawler while a response of that depth is being scraped: it is counted.
    pub open spec fn scraping(self, depth: usize) -> Self {
        CrawlerState {
            current_depth: depth,
            stats: self.stats.with_response(),
            ..self
        }
    }

    /// The crawler once a response has been scraped.
    pub open spec fn scraped(self) -> Self {
        CrawlerState { current_depth: 0, ..self }
    }

    /// The first result is given out.
    pub open spec fn deliver(self) -> (Self, CrawlerDemandView<O, S, F, E>) {
        (
            CrawlerState {
                results: self.results.drop_first(),
                ..self
            }.entering(CrawlerPhaseView::Idle),
            CrawlerDemandView::Yield(CrawlerProgress::Item(self.results[0])),
        )
    }

    /// The next result is wanted: if there is none yet, all work is looked after.
    pub open spec fn begin(self, restarted: Timer) -> (Self, CrawlerDemandView<O, S, F, E>) {
        if self.results.len() > 0 {
            self.deliver()
        } else {
            self.visit_outputs(self.outputs.len(), restarted)
        }
    }

    /// The first `left` jobs that end in the scraper's output are looked after, the last of them
    /// first.
    pub open spec fn visit_outputs(self, left: nat, restarted: Timer) -> (
        Self,
        CrawlerDemandView<O, S, F, E>,
    ) {
        if left == 0 {
            self.visit_crawls(self.crawls.len(), restarted)
        } else {
            (
                CrawlerState {
                    outputs: swap_removed(self.outputs, left - 1),
                    ..self
                }.entering(CrawlerPhaseView::Output((left - 1) as nat)),
                CrawlerDemandView::PollOutput(self.outputs[left - 1]),
            )
        }
    }

    /// News of a job that ends in the scraper's output.
    pub open spec fn hear_output(
        self,
        left: nat,
        news: OutputNews<O, F, E>,
        restarted: Timer,
    ) -> (Self, CrawlerDemandView<O, S, F, E>) {
        let rest = match news {
            OutputNews::Pending(task) => CrawlerState { outputs: self.outputs.push(task), ..self },
            OutputNews::Ready(Ok(Some(output))) => self.gaining(CrawlResult::Finished(Ok(output))),
            OutputNews::Ready(Ok(None)) => self,
            OutputNews::Ready(Err(error)) => self.gaining(
                CrawlResult::Finished(Err(Failure::Outside(error))),
            ),
        };
        rest.visit_outputs(left, restarted)
    }

    /// The first `left` jobs that end in a response are looked after, the last of them first; then
    /// the list of domains is.
    pub open spec fn visit_crawls(self, left: nat, restarted: Timer) -> (
        Self,
        CrawlerDemandView<O, S, F, E>,
    ) {
        if left == 0 {
            self.ask_list(Signal::Poll, restarted)
        } else {
            let (depth, task) = self.crawls[left - 1];
            (
                CrawlerState {
                    crawls: swap_removed(self.crawls, left - 1),
                    ..self
                }.entering(CrawlerPhaseView::Crawl((left - 1) as nat, depth)),
                CrawlerDemandView::PollCrawl(task),
            )
        }
    }

    /// News of a job that ends in a response.
    pub open spec fn hear_crawl(
        self,
        left: nat,
        depth: usize,
        news: CrawlNews<S, F, E>,
        restarted: Timer,
    ) -> (Self, CrawlerDemandView<O, S, F, E>) {
        let rest = match news {
            CrawlNews::Pending(task) => CrawlerState {
                crawls: self.crawls.push((depth, task)),
                ..self
            },
            CrawlNews::Ready(Ok((reply, state))) => self.gaining(
                CrawlResult::Crawled(Ok(injected_response(depth, reply, state))),
            ),
            CrawlNews::Ready(Err(error)) => self.gaining(
                CrawlResult::Crawled(Err(Failure::Outside(error))),
            ),
            CrawlNews::Unread(url, cause, state) => self.gaining(
                CrawlResult::Crawled(Err(Failure::Crawl(unread(url, cause, state)))),
            ),
        };
        rest.visit_crawls(left, restarted)
    }

    /// The list of domains is told something, and every result that it has at hand is taken. A
    /// request that it has sent is counted. Once it has no more to give, the first result is given
    /// out, if there is one.
    pub open spec fn ask_list(self, signal: Signal<S, F, E>, restarted: Timer) -> (
        Self,
        CrawlerDemandView<O, S, F, E>,
    ) {
        let drained = self.list.drain(signal, restarted);
        let rest = CrawlerState {
            list: drained.list,
            results: self.results + crawled(drained.items),
            stats: if sends(drained.demand) {
                self.stats.with_request()
            } else {
                self.stats
            },
            ..self
        };
        match drained.demand {
            DemandView::Yield(progress) => if rest.results.len() > 0 {
                rest.deliver()
            } else {
                (
                    rest.entering(CrawlerPhaseView::Idle),
                    CrawlerDemandView::Yield(
                        if progress !is Pending && rest.crawls.len() == 0 && rest.outputs.len()
                            == 0 {
                            CrawlerProgress::Done
                        } else {
                            CrawlerProgress::Pending
                        },
                    ),
                )
            },
            demand => (rest.entering(CrawlerPhaseView::List), CrawlerDemandView::List(demand)),
        }
    }

    /// What a signal does; a timer that has run out runs on as `restarted`.
    pub open spec fn step(self, signal: CrawlerSignal<O, S, F, E>, restarted: Timer) -> (
        Self,
        CrawlerDemandView<O, S, F, E>,
    ) {
        match (self.phase, signal) {
            (CrawlerPhaseView::Output(left), CrawlerSignal::Output(news)) => self.hear_output(
                left,
                news,
                restarted,
            ),
            (CrawlerPhaseView::Crawl(left, depth), CrawlerSignal::Crawl(news)) => self.hear_crawl(
                left,
                depth,
                news,
                restarted,
            ),
            (CrawlerPhaseView::List, CrawlerSignal::List(signal)) => self.ask_list(
                signal,
                restarted,
            ),
            _ => self.begin(restarted),
        }
    }

    /// Whether a timer may run on as `restarted` after that signal.
    pub open spec fn may_restart(self, signal: CrawlerSignal<O, S, F, E>, restarted: Timer) -> bool {
        signal matches CrawlerSignal::List(signal) ==> self.list.may_restart(signal, restarted)
    }
}

/// How an allowed domain is to be treated by a config: the limit on concurrent requests is shared
/// out evenly among the allowed domains. Where there are more domains than that, the share is 0,
/// which leaves room for one request in each.
pub open spec fn domain_config(
    config: ConfigState,
    name: Seq<char>,
    client: ClientWithMiddleware,
) -> AllowListConfig {
    AllowListConfig {
        delay: config.allowed[name],
        respect_robots_txt: config.respect_robots_txt,
        client,
        skip_non_successful_responses: config.skip_non_successful_responses,
        max_depth: config.depth_limit(),
        max_requests: (config.request_limit() as nat / config.allowed.dom().len()) as usize,
    }
}

impl<S, F, E> AllowState<S, F, E> {
    /// Whether this is a list of the domains that the config allows, with nothing to do yet.
    pub open spec fn follows(self, config: ConfigState, client: ClientWithMiddleware) -> bool {
        &&& self.results.len() == 0
        &&& self.phase is Idle
        &&& self.domains.no_duplicates()
        &&& forall|name: Seq<char>|
            self.domains.contains(name) <==> #[trigger] config.allowed.contains_key(name)
        &&& forall|name: Seq<char>| #[trigger]
            self.allowed.contains_key(name) <==> config.allowed.contains_key(name)
        &&& forall|name: Seq<char>|
            config.allowed.contains_key(name) ==> {
                &&& (#[trigger] self.allowed[name]).host@ == name
                &&& self.allowed[name].follows(domain_config(config, name, client))
            }
    }
}

impl<O, S, F, E> CrawlerState<O, S, F, E> {
    /// Whether this is a crawler as the config describes it that has nothing to do yet: where the
    /// config allows domains, requests may go to those only, and otherwise to any domain but those
    /// that it disallows.
    pub open spec fn follows(self, config: ConfigState) -> bool {
        &&& self.outputs.len() == 0
        &&& self.crawls.len() == 0
        &&& self.results.len() == 0
        &&& match config.client {
            Some(client) => self.client == client,
            None => is_standard_client(self.client),
        }
        &&& self.current_depth == 0
        &&& self.stats == Stats { request_count: 0, response_count: 0 }
        &&& self.max_depth == config.depth_limit()
        &&& self.respect_robots_txt == config.respect_robots_txt
        &&& self.skip_non_successful_responses == config.skip_non_successful_responses
        &&& self.phase is Idle
        &&& match self.list {
            ListingState::AllowList(list) => {
                &&& config.allowed != Map::<Seq<char>, Option<RequestDelay>>::empty()
                &&& list.follows(config, self.client)
            },
            ListingState::BlockList(list) => {
                &&& config.allowed == Map::<Seq<char>, Option<RequestDelay>>::empty()
                &&& list == BlockState::<S, F> {
                    client: self.client,
                    blocked: config.disallowed,
                    in_flight: Seq::empty(),
                    robots_map: Map::empty(),
                    robots_tasks: Seq::empty(),
                    robots_hosts: Set::empty(),
                    respect_robots_txt: config.respect_robots_txt,
                    skip_non_successful_responses: config.skip_non_successful_responses,
                    max_depth: config.depth_limit(),
                    queue: QueueState { timer: None, delay: None, queued: Seq::empty() },
                    max_requests: config.request_limit(),
                    phase: BlockPhaseView::Idle,
                }
            },
        }
    }
}

impl<O, S, F, E> View for Crawler<O, S, F, E> {
    type V = CrawlerState<O, S, F, E>;

    closed spec fn view(&self) -> CrawlerState<O, S, F, E> {
        CrawlerState {
            outputs: self.in_progress_complete_requests@,
            crawls: self.in_progress_crawl_requests@,
            results: self.queued_results@,
            client: self.client,
            current_depth: self.current_depth,
            list: self.list@,
            stats: self.stats,
            max_depth: self.max_depth,
            respect_robots_txt: self.respect_robots_txt,
            skip_non_successful_responses: self.skip_non_successful_responses,
            phase: self.phase@,
        }
    }
}

impl<O, S, F, E> Crawler<O, S, F, E> {
    /// Create a new crawler following the config.
    pub fn new(config: CrawlerConfig) -> (crawler: Self)
        ensures
            crawler@.follows(config@),
            crawler@.well_formed(),
    {
        let ghost wanted = config@;
        let settings = config.into_settings();
        let CrawlerSettings {
            max_depth,
            max_requests,
            skip_non_successful_responses,
            allowed_domains,
            disallowed_domains,
            respect_robots_txt,
            client,
        } = settings;
        let client = match client {
            Some(client) => client,
            None => new_client(),
        };
        let list = if allowed_domains.is_empty() {
            DomainListing::BlockList(
                BlockList::new(
                    disallowed_domains,
                    client.clone(),
                    respect_robots_txt,
                    skip_non_successful_responses,
                    max_depth,
                    max_requests,
                ),
            )
        } else {
            let count: usize = allowed_domains.len();
            let mut list: AllowList<S, F, E> = AllowList::default();
            let ghost names = allowed_domains.keys();
            let mut i: usize = 0;
            while i < count
                invariant
                    i <= count,
                    0 < count,
                    count == names.len(),
                    count == wanted.allowed.dom().len(),
                    names == allowed_domains.keys(),
                    names.no_duplicates(),
                    allowed_domains@ == wanted.allowed,
                    max_depth == wanted.depth_limit(),
                    max_requests == wanted.request_limit(),
                    skip_non_successful_responses == wanted.skip_non_successful_responses,
                    respect_robots_txt == wanted.respect_robots_txt,
                    list@.results.len() == 0,
                    list@.phase is Idle,
                    list@.domains == names.take(i as int),
                    forall|name: Seq<char>| #[trigger]
                        list@.allowed.contains_key(name) <==> names.take(i as int).contains(name),
                    forall|name: Seq<char>|
                        names.take(i as int).contains(name) ==> {
                            &&& (#[trigger] list@.allowed[name]).host@ == name
                            &&& list@.allowed[name].follows(domain_config(wanted, name, client))
                        },
                    list@.well_formed(),
                decreases count - i,
            {
                let domain = allowed_domains.key_at(i).clone();
                let delay: Option<RequestDelay> = *allowed_domains.value_at(i);
                let config = AllowListConfig {
                    delay,
                    respect_robots_txt,
                    client: client.clone(),
                    skip_non_successful_responses,
                    max_depth,
                    max_requests: max_requests / count,
                };
                let ghost (name, before) = (domain@, list@);
                assert(config == domain_config(wanted, name, client));
                list.allow(domain, config);
                i = i + 1;
                proof {
                    assert(names.take(i as int) =~= names.take(i - 1).push(name));
                    assert forall|other: Seq<char>|
                        #[trigger] names.take(i as int).contains(other) == (names.take(
                            i - 1,
                        ).contains(other) || other == name) by {
                        lemma_push_contains(names.take(i - 1), name, other);
                    }
                }
            }
            proof {
                assert(names.take(i as int) =~= names);
                assert forall|name: Seq<char>|
                    list@.domains.contains(name) <==> #[trigger] wanted.allowed.contains_key(
                        name,
                    ) by {}
            }
            DomainListing::AllowList(list)
        };
        Crawler {
            in_progress_complete_requests: Vec::new(),
            in_progress_crawl_requests: Vec::new(),
            queued_results: VecDeque::new(),
            client,
            current_depth: 0,
            list,
            stats: Stats::default(),
            max_depth,
            respect_robots_txt,
            skip_non_successful_responses,
            phase: CrawlerPhase::Idle,
        }
    }

    /// Send a crawling request whose html response and context is returned to the scraper again.
    ///
    /// `fun` starts the job; the response lies one deeper than the one that is being scraped.
    pub fn crawl<G: FnOnce(&ClientWithMiddleware) -> F>(&mut self, fun: G)
        requires
            call_requires(fun, (&old(self)@.client,)),
            old(self)@.current_depth < usize::MAX,
        ensures
            exists|task: F| #[trigger]
                call_ensures(fun, (&old(self)@.client,), task) && final(self)@ == (CrawlerState {
                    crawls: old(self)@.crawls.push(
                        ((old(self)@.current_depth + 1) as usize, task),
                    ),
                    ..old(self)@
                }),
            old(self)@.well_formed() ==> final(self)@.well_formed(),
    {
        let depth: usize = self.current_depth + 1;
        let task = fun(&self.client);
        self.in_progress_crawl_requests.push((depth, task));
    }

    /// Submit a complete crawling job that is driven to completion and directly returned once
    /// finished.
    pub fn complete<G: FnOnce(&ClientWithMiddleware) -> F>(&mut self, fun: G)
        requires
            call_requires(fun, (&old(self)@.client,)),
        ensures
            exists|task: F| #[trigger]
                call_ensures(fun, (&old(self)@.client,), task) && final(self)@ == (CrawlerState {
                    outputs: old(self)@.outputs.push(task),
                    ..old(self)@
                }),
            old(self)@.well_formed() ==> final(self)@.well_formed(),
    {
        let task = fun(&self.client);
        self.in_progress_complete_requests.push(task);
    }

    /// This queues in a GET request for the `url`, without any state attached.
    pub fn visit(&mut self, url: &str)
        requires
            old(self)@.current_depth < usize::MAX,
        ensures
            exists|
                builder: reqwest_middleware::RequestBuilder,
                built: Result<PageRequest, reqwest::Error>,
            |
                starts_get(old(self)@.client, url@, builder) && #[trigger] builds_page(
                    builder,
                    built,
                ) && final(self)@ == old(self)@.queue_built(built, None),
            old(self)@.well_formed() ==> final(self)@.well_formed(),
    {
        let request = get_request(&self.client, url);
        self.request(request);
    }

    /// This queues in a GET request for the `url` with state attached.
    pub fn visit_with_state(&mut self, url: &str, state: S)
        requires
            old(self)@.current_depth < usize::MAX,
        ensures
            exists|
                builder: reqwest_middleware::RequestBuilder,
                built: Result<PageRequest, reqwest::Error>,
            |
                starts_get(old(self)@.client, url@, builder) && #[trigger] builds_page(
                    builder,
                    built,
                ) && final(self)@ == old(self)@.queue_built(built, Some(state)),
            old(self)@.well_formed() ==> final(self)@.well_formed(),
    {
        let request = get_request(&self.client, url);
        self.request_with_state(request, state);
    }

    /// This queues in a whole request with no state attached.
    pub fn request(&mut self, request: reqwest_middleware::RequestBuilder)
        requires
            old(self)@.current_depth < usize::MAX,
        ensures
            exists|built: Result<PageRequest, reqwest::Error>|
                #[trigger] builds_page(request, built) && final(self)@ == old(self)@.queue_built(built, None),
            old(self)@.well_formed() ==> final(self)@.well_formed(),
    {
        self.queue_request(request, None)
    }

    /// This queues in a whole request with a state attached.
    pub fn request_with_state(&mut self, request: reqwest_middleware::RequestBuilder, state: S)
        requires
            old(self)@.current_depth < usize::MAX,
        ensures
            exists|built: Result<PageRequest, reqwest::Error>|
                #[trigger] builds_page(request, built) && final(self)@ == old(self)@.queue_built(
                    built,
                    Some(state),
                ),
            old(self)@.well_formed() ==> final(self)@.well_formed(),
    {
        self.queue_request(request, Some(state))
    }

    fn queue_request(&mut self, request: reqwest_middleware::RequestBuilder, state: Option<S>)
        requires
            old(self)@.current_depth < usize::MAX,
        ensures
            exists|built: Result<PageRequest, reqwest::Error>|
                #[trigger] builds_page(request, built) && final(self)@ == old(self)@.queue_built(
                    built,
                    state,
                ),
            old(self)@.well_formed() ==> final(self)@.well_formed(),
    {
        let ghost builder = request;
        let request = QueuedRequestBuilder { request, state, depth: self.current_depth + 1 };
        let added = self.list.add_request(request);
        let ghost list = self.list@;
        let ghost built = choose|built: Result<PageRequest, reqwest::Error>|
            #[trigger] builds_page(builder, built) && (list, added) == old(self)@.list.add_built(
                built,
                state,
                (old(self)@.current_depth + 1) as usize,
            );
        if let Err(error) = added {
            self.queued_results.push_back(CrawlResult::Crawled(Err(Failure::Crawl(error))));
        }
        assert(self@ == old(self)@.queue_built(built, state));
    }

    /// Queues a request that may have failed to come about: it lies one deeper than the response
    /// that is being scraped, and if the list refuses it, the refusal is a result.
    pub fn queue_built(&mut self, built: Result<PageRequest, reqwest::Error>, state: Option<S>)
        requires
            old(self)@.current_depth < usize::MAX,
        ensures
            final(self)@ == old(self)@.queue_built(built, state),
            old(self)@.well_formed() ==> final(self)@.well_formed(),
    {
        let depth: usize = self.current_depth + 1;
        if let Err(error) = self.list.add_built(built, state, depth) {
            self.queued_results.push_back(CrawlResult::Crawled(Err(Failure::Crawl(error))));
        }
    }

    /// Whether a request can be queued: its depth has to be a number that there is.
    pub fn can_go_deeper(&self) -> (can: bool)
        ensures
            can == (self@.current_depth < usize::MAX),
    {
        self.current_depth < usize::MAX
    }

    /// A response of that depth is about to be scraped: it is counted, and requests that are queued
    /// from now on lie one deeper.
    pub(crate) fn begin_scrape(&mut self, depth: usize)
        ensures
            final(self)@ == old(self)@.scraping(depth),
    {
        self.current_depth = depth;
        self.stats.response_count = self.stats.response_count.wrapping_add(1);
    }

    /// A response has been scraped: no response is being scraped any more.
    pub(crate) fn end_scrape(&mut self)
        ensures
            final(self)@ == old(self)@.scraped(),
    {
        self.current_depth = 0;
    }

    /// The maximum allowed depth of requests.
    pub fn max_depth(&self) -> (max_depth: usize)
        ensures
            max_depth == self@.max_depth,
    {
        self.max_depth
    }

    /// Whether this crawler respects the domains robots.txt rules.
    pub fn respects_robots_txt(&self) -> (respects: bool)
        ensures
            respects == self@.respect_robots_txt,
    {
        self.respect_robots_txt
    }

    /// Whether non 2xx responses are treated as failures and are not being scraped.
    pub fn skips_non_successful_responses(&self) -> (skips: bool)
        ensures
            skips == self@.skip_non_successful_responses,
    {
        self.skip_non_successful_responses
    }

    /// The client that performs all requests.
    pub fn client(&self) -> (client: &ClientWithMiddleware)
        ensures
            *client == self@.client,
    {
        &self.client
    }

    /// Stats about the executed requests.
    pub fn stats(&self) -> (stats: &Stats)
        ensures
            *stats == self@.stats,
    {
        &self.stats
    }

    /// Whether the crawler is waiting for such a signal.
    pub fn accepts(&self, signal: &CrawlerSignal<O, S, F, E>) -> (accepted: bool)
        requires
            self@.well_formed(),
        ensures
            accepted == self@.expects(*signal),
    {
        match (&self.phase, signal) {
            (CrawlerPhase::Idle, CrawlerSignal::Poll) => true,
            (CrawlerPhase::Output(_), CrawlerSignal::Output(_)) => true,
            (CrawlerPhase::Crawl(_, _), CrawlerSignal::Crawl(_)) => true,
            (CrawlerPhase::List, CrawlerSignal::List(signal)) => self.list.accepts(signal),
            _ => false,
        }
    }

    /// Takes a signal in and says what is to be done next.
    ///
    /// Results that are already there are given out first. Then every submitted job and the list
    /// of domains are looked after, and the first result that has turned up is given out.
    pub fn poll(&mut self, signal: CrawlerSignal<O, S, F, E>) -> (demand: CrawlerDemand<O, S, F, E>)
        requires
            old(self)@.well_formed(),
            old(self)@.expects(signal),
        ensures
            exists|restarted: Timer|
                old(self)@.may_restart(signal, restarted) && (final(self)@, demand@)
                    == #[trigger] old(self)@.step(signal, restarted),
            final(self)@.well_formed(),
            final(self)@.phase is Idle <==> demand@ is Yield,
    {
        let mut phase = CrawlerPhase::Idle;
        std::mem::swap(&mut phase, &mut self.phase);
        let ghost idle = self@;
        let ghost heard = signal;
        assert(idle == old(self)@.entering(CrawlerPhaseView::Idle));
        let ghost mut restarted: Timer = arbitrary();
        let demand = match (phase, signal) {
            (CrawlerPhase::Output(left), CrawlerSignal::Output(news)) => {
                self.hear_output(left, news)
            },
            (CrawlerPhase::Crawl(left, depth), CrawlerSignal::Crawl(news)) => {
                self.hear_crawl(left, depth, news)
            },
            (CrawlerPhase::List, CrawlerSignal::List(signal)) => {
                let demand = self.ask_list(signal);
                proof {
                    restarted = choose|restarted: Timer|
                        idle.list.may_restart(signal, restarted) && (self@, demand@)
                            == #[trigger] idle.ask_list(signal, restarted);
                }
                demand
            },
            _ => self.begin(),
        };
        proof {
            let before = old(self)@;
            match (before.phase, heard) {
                (CrawlerPhaseView::Output(left), CrawlerSignal::Output(news)) => {
                    assert(before.hear_output(left, news, restarted) == idle.hear_output(
                        left,
                        news,
                        restarted,
                    ));
                },
                (CrawlerPhaseView::Crawl(left, depth), CrawlerSignal::Crawl(news)) => {
                    assert(before.hear_crawl(left, depth, news, restarted) == idle.hear_crawl(
                        left,
                        depth,
                        news,
                        restarted,
                    ));
                },
                (CrawlerPhaseView::List, CrawlerSignal::List(signal)) => {
                    assert(before.ask_list(signal, restarted) == idle.ask_list(signal, restarted));
                },
                _ => {
                    assert(before.begin(restarted) == idle.begin(restarted));
                },
            }
        }
        assert((self@, demand@) == old(self)@.step(signal, restarted));
        demand
    }

    fn deliver(&mut self) -> (demand: CrawlerDemand<O, S, F, E>)
        requires
            old(self)@.entering(CrawlerPhaseView::Idle).well_formed(),
            old(self)@.results.len() > 0,
        ensures
            (final(self)@, demand@) == old(self)@.deliver(),
            final(self)@.well_formed(),
    {
        let first = self.queued_results.pop_front().unwrap();
        self.phase = CrawlerPhase::Idle;
        assert(self@.results =~= old(self)@.results.drop_first());
        CrawlerDemand::Yield(CrawlerProgress::Item(first))
    }

    fn begin(&mut self) -> (demand: CrawlerDemand<O, S, F, E>)
        requires
            old(self)@.entering(CrawlerPhaseView::Idle).well_formed(),
        ensures
            forall|restarted: Timer|
                (final(self)@, demand@) == #[trigger] old(self)@.begin(restarted),
            final(self)@.well_formed(),
            final(self)@.phase is Idle <==> demand@ is Yield,
    {
        if self.queued_results.len() > 0 {
            self.deliver()
        } else {
            self.visit_outputs(self.in_progress_complete_requests.len())
        }
    }

    fn visit_outputs(&mut self, left: usize) -> (demand: CrawlerDemand<O, S, F, E>)
        requires
            old(self)@.entering(CrawlerPhaseView::Idle).well_formed(),
            left <= old(self)@.outputs.len(),
        ensures
            forall|restarted: Timer|
                (final(self)@, demand@) == #[trigger] old(self)@.visit_outputs(
                    left as nat,
                    restarted,
                ),
            final(self)@.well_formed(),
            final(self)@.phase is Idle <==> demand@ is Yield,
    {
        if left == 0 {
            self.visit_crawls(self.in_progress_crawl_requests.len())
        } else {
            let task = self.in_progress_complete_requests.swap_remove(left - 1);
            self.phase = CrawlerPhase::Output(left - 1);
            CrawlerDemand::PollOutput(task)
        }
    }

    fn hear_output(&mut self, left: usize, news: OutputNews<O, F, E>) -> (demand: CrawlerDemand<
        O,
        S,
        F,
        E,
    >)
        requires
            old(self)@.entering(CrawlerPhaseView::Idle).well_formed(),
            left <= old(self)@.outputs.len(),
        ensures
            forall|restarted: Timer|
                (final(self)@, demand@) == #[trigger] old(self)@.hear_output(
                    left as nat,
                    news,
                    restarted,
                ),
            final(self)@.well_formed(),
            final(self)@.phase is Idle <==> demand@ is Yield,
    {
        match news {
            OutputNews::Pending(task) => {
                self.in_progress_complete_requests.push(task);
            },
            OutputNews::Ready(Ok(Some(output))) => {
                self.queued_results.push_back(CrawlResult::Finished(Ok(output)));
            },
            OutputNews::Ready(Ok(None)) => {},
            OutputNews::Ready(Err(error)) => {
                self.queued_results.push_back(
                    CrawlResult::Finished(Err(Failure::Outside(error))),
                );
            },
        }
        self.visit_outputs(left)
    }

    fn visit_crawls(&mut self, left: usize) -> (demand: CrawlerDemand<O, S, F, E>)
        requires
            old(self)@.entering(CrawlerPhaseView::Idle).well_formed(),
            left <= old(self)@.crawls.len(),
        ensures
            forall|restarted: Timer|
                (final(self)@, demand@) == #[trigger] old(self)@.visit_crawls(
                    left as nat,
                    restarted,
                ),
            final(self)@.well_formed(),
            final(self)@.phase is Idle <==> demand@ is Yield,
    {
        if left == 0 {
            let demand = self.ask_list(Signal::Poll);
            proof {
                let used = choose|used: Timer|
                    (self@, demand@) == #[trigger] old(self)@.ask_list(Signal::Poll, used);
                assert forall|restarted: Timer|
                    (self@, demand@) == #[trigger] old(self)@.visit_crawls(0, restarted) by {
                    lemma_drain_needs_no_timer(old(self)@.list, used, restarted);
                }
            }
            demand
        } else {
            let (depth, task) = self.in_progress_crawl_requests.swap_remove(left - 1);
            self.phase = CrawlerPhase::Crawl(left - 1, depth);
            CrawlerDemand::PollCrawl(task)
        }
    }

    fn hear_crawl(&mut self, left: usize, depth: usize, news: CrawlNews<S, F, E>) -> (demand:
        CrawlerDemand<O, S, F, E>)
        requires
            old(self)@.entering(CrawlerPhaseView::Idle).well_formed(),
            left <= old(self)@.crawls.len(),
        ensures
            forall|restarted: Timer|
                (final(self)@, demand@) == #[trigger] old(self)@.hear_crawl(
                    left as nat,
                    depth,
                    news,
                    restarted,
                ),
            final(self)@.well_formed(),
            final(self)@.phase is Idle <==> demand@ is Yield,
    {
        match news {
            CrawlNews::Pending(task) => {
                self.in_progress_crawl_requests.push((depth, task));
            },
            CrawlNews::Ready(Ok((reply, state))) => {
                let Reply { url, status, headers, text } = reply;
                let response = Response {
                    depth,
                    request_url: url.clone(),
                    response_url: url,
                    response_status: status,
                    response_headers: headers,
                    text,
                    state,
                };
                self.queued_results.push_back(CrawlResult::Crawled(Ok(response)));
            },
            CrawlNews::Ready(Err(error)) => {
                self.queued_results.push_back(CrawlResult::Crawled(Err(Failure::Outside(error))));
            },
            CrawlNews::Unread(url, cause, state) => {
                let request_url = Some(url);
                let error = CrawlError::FailedRequest { request_url, cause, state };
                self.queued_results.push_back(CrawlResult::Crawled(Err(Failure::Crawl(error))));
            },
        }
        self.visit_crawls(left)
    }

    fn ask_list(&mut self, signal: Signal<S, F, E>) -> (demand: CrawlerDemand<O, S, F, E>)
        requires
            old(self)@.list.well_formed(),
            old(self)@.list.expects(signal),
        ensures
            exists|restarted: Timer|
                old(self)@.list.may_restart(signal, restarted) && (final(self)@, demand@)
                    == #[trigger] old(self)@.ask_list(signal, restarted),
            final(self)@.well_formed(),
            final(self)@.phase is Idle <==> demand@ is Yield,
    {
        let (mut items, demand) = self.list.drain(signal);
        let ghost (list, taken) = (self.list@, items@);
        let ghost restarted = choose|restarted: Timer|
            old(self)@.list.may_restart(signal, restarted) && #[trigger] old(self)@.list.drain(
                signal,
                restarted,
            ) == (ListDrained { list, items: taken, demand: demand@ });
        let ghost mut moved: int = 0;
        while items.len() > 0
            invariant
                0 <= moved <= taken.len(),
                items@ == taken.skip(moved),
                self@ == (CrawlerState {
                    list,
                    results: old(self)@.results + crawled::<O, S, E>(taken.take(moved)),
                    ..old(self)@
                }),
            decreases items@.len(),
        {
            let item = items.pop_front().unwrap();
            self.queued_results.push_back(CrawlResult::Crawled(item));
            proof {
                moved = moved + 1;
                assert(items@ =~= taken.skip(moved));
                assert(self@.results =~= old(self)@.results + crawled::<O, S, E>(
                    taken.take(moved),
                ));
            }
        }
        assert(taken.take(moved) =~= taken);
        if demand.is_send() {
            self.stats.request_count = self.stats.request_count.wrapping_add(1);
        }
        let asked = match demand {
            Demand::Yield(progress) => {
                self.phase = CrawlerPhase::Idle;
                if self.queued_results.len() > 0 {
                    self.deliver()
                } else {
                    let busy: bool = match progress {
                        Progress::Pending => true,
                        _ => false,
                    };
                    if !busy && self.in_progress_crawl_requests.len() == 0
                        && self.in_progress_complete_requests.len() == 0 {
                        CrawlerDemand::Yield(CrawlerProgress::Done)
                    } else {
                        CrawlerDemand::Yield(CrawlerProgress::Pending)
                    }
                }
            },
            other => {
                self.phase = CrawlerPhase::List;
                CrawlerDemand::List(other)
            },
        };
        assert((self@, asked@) == old(self)@.ask_list(signal, restarted));
        asked
    }
}

} // verus!
