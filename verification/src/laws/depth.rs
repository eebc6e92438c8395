//! How deep the pages lie that a scraper is handed.
use crate::allow_list::lemma_request_put_in;
use crate::allowed_domain::DomainState;
use crate::collector::{CollectorDemandView, CollectorState, Scraper};
use crate::config::ConfigState;
use crate::crawler::{
    crawled, domain_config, CrawlResult, CrawlerDemandView, CrawlerProgress, CrawlerSignal,
    CrawlerState,
};
use crate::domain::ListingState;
use crate::error::Failure;
use crate::fetch::{ticket_of, InFlight, RobotsNews, Signal, Ticket};
use crate::laws::conservation::{
    answer_signal, answers, flying_tickets, given_out, held_in, job_results,
    law_allow_list_holds_what_it_takes, law_block_list_holds_what_it_takes,
    law_crawler_loses_no_result, list_loses_nothing, list_signal, waiting_tickets,
};
use crate::laws::invariants::law_crawler_stays_well_formed;
use crate::laws::limits::{
    law_crawler_keeps_the_depth, law_listing_keeps_the_depth_on_requests,
    law_new_crawler_keeps_the_depth, pages_within,
};
use crate::requests::QueuedRequest;
use crate::response::Response;
use crate::time::Timer;
use crate::web::PageRequest;
use vstd::multiset::Multiset;
use vstd::prelude::*;
use vstd::seq_lib::*;

verus! {

/// Whether a depth is one that a page can lie at: a start page lies at depth 1.
pub open spec fn is_page_depth(depth: usize, max_depth: usize) -> bool {
    1 <= depth <= max_depth
}

/// Whether a result, if it is a response, comes from such a depth.
pub open spec fn is_in_range<S, E>(
    result: Result<Response<S>, Failure<S, E>>,
    max_depth: usize,
) -> bool {
    result matches Ok(response) ==> is_page_depth(response.depth, max_depth)
}

/// Whether all responses among these results come from such a depth.
pub open spec fn all_in_range<S, E>(
    results: Seq<Result<Response<S>, Failure<S, E>>>,
    max_depth: usize,
) -> bool {
    forall|i: int| 0 <= i < results.len() ==> is_in_range(#[trigger] results[i], max_depth)
}

/// Whether all pages among these results come from such a depth.
pub open spec fn pages_in_range<O, S, E>(
    results: Seq<CrawlResult<O, S, E>>,
    max_depth: usize,
) -> bool {
    forall|i: int|
        0 <= i < results.len() ==> ((#[trigger] results[i]) matches CrawlResult::Crawled(result)
            ==> is_in_range(result, max_depth))
}

impl<S, F, E> ListingState<S, F, E> {
    /// Whether all requests that are not answered yet, and all responses that nobody has taken yet,
    /// are for pages at such a depth, and whether the list takes no deeper ones.
    pub open spec fn keeps_range(self, max_depth: usize) -> bool {
        &&& self.keeps_depth(max_depth)
        &&& forall|ticket: Ticket<S>| #[trigger]
            self.held().contains(ticket) ==> is_page_depth(ticket.depth, max_depth)
        &&& all_in_range(self.pending(), max_depth)
    }
}

/// What is taken from a list that loses nothing comes from the requests that it held.
proof fn lemma_taken_in_range<S, F, E>(
    before: ListingState<S, F, E>,
    signal: Signal<S, F, E>,
    after: ListingState<S, F, E>,
    taken: Seq<Result<Response<S>, Failure<S, E>>>,
    max_depth: usize,
)
    requires
        before.keeps_range(max_depth),
        after.keeps_depth(max_depth),
        list_loses_nothing(before, signal, after, taken),
    ensures
        after.keeps_range(max_depth),
        all_in_range(taken, max_depth),
{
    broadcast use group_to_multiset_ensures;

    let (items, tickets) = choose|
        items: Seq<Result<Response<S>, Failure<S, E>>>,
        tickets: Seq<Ticket<S>>,
    | #[trigger]
        answer_signal(signal, tickets, items) && taken + after.pending() == before.pending() + items
            && before.held() == after.held().add(tickets.to_multiset());
    assert forall|i: int| 0 <= i < items.len() implies is_in_range(
        #[trigger] items[i],
        max_depth,
    ) by {
        let shift: int = if signal matches Signal::Robots(RobotsNews::Ready(Err(_))) {
            1
        } else {
            0
        };
        if i >= shift {
            let j = i - shift;
            if shift == 1 {
                assert(items.drop_first()[j] == items[i]);
            }
            assert(answers(tickets[j], items[i]));
            assert(tickets.to_multiset().contains(tickets[j]));
            assert(before.held().contains(tickets[j]));
        }
    }
    assert forall|ticket: Ticket<S>| #[trigger] after.held().contains(ticket) implies is_page_depth(
        ticket.depth,
        max_depth,
    ) by {
        assert(before.held().contains(ticket));
    }
    let all = before.pending() + items;
    assert forall|i: int| 0 <= i < all.len() implies is_in_range(#[trigger] all[i], max_depth) by {
        if i < before.pending().len() {
            assert(all[i] == before.pending()[i]);
        } else {
            assert(all[i] == items[i - before.pending().len()]);
        }
    }
    assert forall|i: int| 0 <= i < taken.len() implies is_in_range(
        #[trigger] taken[i],
        max_depth,
    ) by {
        assert((taken + after.pending())[i] == all[i]);
    }
    assert forall|i: int| 0 <= i < after.pending().len() implies is_in_range(
        #[trigger] after.pending()[i],
        max_depth,
    ) by {
        assert((taken + after.pending())[taken.len() + i] == all[taken.len() + i]);
    }
}

/// Putting in a request for a page at depth 1 or deeper leaves all pages in range: the list refuses
/// what lies too deep.
proof fn lemma_request_in_range<S, F, E>(
    list: ListingState<S, F, E>,
    request: QueuedRequest<S>,
    max_depth: usize,
)
    requires
        list.well_formed(),
        list.keeps_range(max_depth),
        request.depth >= 1,
    ensures
        list.add_request(request).0.well_formed(),
        list.add_request(request).0.keeps_range(max_depth),
        list.add_request(request).0.is_idle() == list.is_idle(),
{
    let (after, added) = list.add_request(request);
    law_listing_keeps_the_depth_on_requests(list, request, max_depth);
    match list {
        ListingState::AllowList(allow) => {
            lemma_request_put_in(allow, request);
            law_allow_list_holds_what_it_takes(allow, request);
        },
        ListingState::BlockList(block) => {
            law_block_list_holds_what_it_takes(block, request);
        },
    }
    assert(after.pending() == list.pending());
    assert forall|ticket: Ticket<S>| #[trigger] after.held().contains(ticket) implies is_page_depth(
        ticket.depth,
        max_depth,
    ) by {
        if ticket != ticket_of(request) {
            assert(list.held().contains(ticket));
        } else if !list.held().contains(ticket) {
            assert(added is Ok);
        }
    }
}

impl<O, S, F, E> CrawlerState<O, S, F, E> {
    /// Whether all pages that were or will be crawled lie at such a depth: all were asked for by
    /// requests, and no job that ends in a response is left.
    pub open spec fn keeps_range(self, max_depth: usize) -> bool {
        &&& self.list.keeps_range(max_depth)
        &&& pages_in_range(self.results, max_depth)
        &&& self.crawls.len() == 0
        &&& self.phase !is Crawl
    }

    /// The crawler when some requests are queued, one after the other.
    pub open spec fn queue_all(
        self,
        requests: Seq<(Result<PageRequest, reqwest::Error>, Option<S>)>,
    ) -> Self
        decreases requests.len(),
    {
        if requests.len() == 0 {
            self
        } else {
            let (built, state) = requests.last();
            self.queue_all(requests.drop_last()).queue_built(built, state)
        }
    }
}

/// A request that is queued while no response is being scraped is for a start page, at depth 1.
pub proof fn law_start_pages_lie_at_depth_one<O, S, F, E>(
    crawler: CrawlerState<O, S, F, E>,
    request: PageRequest,
    state: Option<S>,
)
    requires
        crawler.current_depth == 0,
    ensures
        crawler.queue_built(Ok(request), state).list == crawler.list.add_request(
            QueuedRequest { request, state, depth: 1 },
        ).0,
{
}

/// Whatever requests are queued, all pages that will be crawled lie at depth 1 or deeper, and no
/// deeper than allowed.
pub proof fn law_queued_pages_are_in_range<O, S, F, E>(
    crawler: CrawlerState<O, S, F, E>,
    requests: Seq<(Result<PageRequest, reqwest::Error>, Option<S>)>,
    max_depth: usize,
)
    requires
        crawler.well_formed(),
        crawler.keeps_range(max_depth),
        crawler.current_depth < usize::MAX,
    ensures
        ({
            let after = crawler.queue_all(requests);
            &&& after.well_formed()
            &&& after.keeps_range(max_depth)
            &&& after.phase == crawler.phase
            &&& after.current_depth == crawler.current_depth
            &&& after.outputs == crawler.outputs
        }),
    decreases requests.len(),
{
    if requests.len() > 0 {
        law_queued_pages_are_in_range(crawler, requests.drop_last(), max_depth);
        let between = crawler.queue_all(requests.drop_last());
        let (built, state) = requests.last();
        let depth = (between.current_depth + 1) as usize;
        if let Ok(request) = built {
            lemma_request_in_range(
                between.list,
                QueuedRequest { request, state, depth },
                max_depth,
            );
        }
        let after = between.queue_built(built, state);
        assert forall|i: int| 0 <= i < after.results.len() implies ((
        #[trigger] after.results[i]) matches CrawlResult::Crawled(result) ==> is_in_range(
            result,
            max_depth,
        )) by {
            if i < between.results.len() {
                assert(after.results[i] == between.results[i]);
            }
        }
    }
}

/// Whatever a crawler is told, all pages that it gives out, and all that it will, lie at depth 1 or
/// deeper, and no deeper than allowed.
pub proof fn law_crawled_pages_are_in_range<O, S, F, E>(
    crawler: CrawlerState<O, S, F, E>,
    signal: CrawlerSignal<O, S, F, E>,
    restarted: Timer,
    max_depth: usize,
)
    requires
        crawler.well_formed(),
        crawler.expects(signal),
        crawler.keeps_range(max_depth),
    ensures
        ({
            let (after, demand) = crawler.step(signal, restarted);
            &&& after.keeps_range(max_depth)
            &&& pages_in_range(given_out(demand), max_depth)
        }),
{
    let (after, demand) = crawler.step(signal, restarted);
    let none = Seq::<CrawlResult<O, S, E>>::empty();
    assert(pages_within(crawler.results, none, max_depth));
    law_crawler_keeps_the_depth(crawler, signal, restarted, none, max_depth);
    law_crawler_loses_no_result(crawler, signal, restarted);
    let jobs = job_results(crawler.phase, signal);
    let told = list_signal(signal);
    let taken = choose|taken: Seq<Result<Response<S>, Failure<S, E>>>|
        given_out(demand) + after.results == crawler.results + jobs + crawled::<O, S, E>(taken)
            && #[trigger] list_loses_nothing(crawler.list, told, after.list, taken);
    lemma_taken_in_range(crawler.list, told, after.list, taken, max_depth);
    let all = crawler.results + jobs + crawled::<O, S, E>(taken);
    assert forall|i: int| 0 <= i < all.len() implies ((
    #[trigger] all[i]) matches CrawlResult::Crawled(result) ==> is_in_range(result, max_depth)) by {
        if i < crawler.results.len() {
            assert(all[i] == crawler.results[i]);
        } else if i >= crawler.results.len() + jobs.len() {
            let j = i - crawler.results.len() - jobs.len();
            assert(all[i] == CrawlResult::<O, S, E>::Crawled(taken[j]));
        } else {
            assert(all[i] == jobs[i - crawler.results.len()]);
        }
    }
    let given = given_out(demand);
    assert forall|i: int| 0 <= i < given.len() implies ((
    #[trigger] given[i]) matches CrawlResult::Crawled(result) ==> is_in_range(
        result,
        max_depth,
    )) by {
        assert((given + after.results)[i] == all[i]);
    }
    assert forall|i: int| 0 <= i < after.results.len() implies ((
    #[trigger] after.results[i]) matches CrawlResult::Crawled(result) ==> is_in_range(
        result,
        max_depth,
    )) by {
        assert((given + after.results)[given.len() + i] == all[given.len() + i]);
    }
}

/// Whether a crawler may come from `before` to `after` by requests that are queued, and by jobs that
/// end in an output.
pub open spec fn is_requested<O, S, F, E>(
    before: CrawlerState<O, S, F, E>,
    after: CrawlerState<O, S, F, E>,
) -> bool {
    exists|requests: Seq<(Result<PageRequest, reqwest::Error>, Option<S>)>|
        {
            &&& after == CrawlerState {
                outputs: after.outputs,
                ..#[trigger] before.queue_all(requests)
            }
            &&& requests.len() > 0 ==> before.current_depth < usize::MAX
        }
}

/// Whether a scraper asks for further pages by requests only.
pub open spec fn scrapes_by_requests<T: Scraper>(scraper: T) -> bool {
    forall|
        response: Response<T::State>,
        crawler: CrawlerState<T::Output, T::State, T::Task, T::Error>,
        scraper_after: T,
        crawler_after: CrawlerState<T::Output, T::State, T::Task, T::Error>,
        output: Result<Option<T::Output>, Failure<T::State, T::Error>>,
    | #[trigger]
        scraper.may_scrape(response, crawler, scraper_after, crawler_after, output)
            ==> is_requested(crawler, crawler_after)
}

/// A collector whose pages are asked for by requests only hands its scraper pages that lie at depth
/// 1 or deeper, and no deeper than allowed. This stays so whatever happens, and once a response has
/// been scraped, also in vain, the next request is for a start page again.
pub proof fn law_scraped_pages_are_in_range<T: Scraper>(
    collector: CollectorState<T>,
    signal: CrawlerSignal<T::Output, T::State, T::Task, T::Error>,
    restarted: Timer,
    after: CollectorState<T>,
    demand: CollectorDemandView<T::Output, T::State, T::Task, T::Error>,
    max_depth: usize,
)
    requires
        collector.crawler.well_formed(),
        collector.crawler.expects(signal),
        collector.crawler.keeps_range(max_depth),
        collector.crawler.current_depth == 0,
        scrapes_by_requests(collector.scraper),
        ({
            let (crawler, asked) = collector.crawler.step(signal, restarted);
            collector.proceeds(crawler, asked, after, demand)
        }),
    ensures
        after.crawler.keeps_range(max_depth),
        after.crawler.current_depth == 0,
        collector.crawler.step(signal, restarted).1 matches CrawlerDemandView::Yield(
            CrawlerProgress::Item(CrawlResult::Crawled(Ok(response))),
        ) ==> is_page_depth(response.depth, max_depth),
{
    let (crawler, asked) = collector.crawler.step(signal, restarted);
    law_crawled_pages_are_in_range(collector.crawler, signal, restarted, max_depth);
    law_crawler_stays_well_formed(collector.crawler, signal, restarted);
    if let CrawlerDemandView::Yield(CrawlerProgress::Item(result)) = asked {
        assert(given_out(asked)[0] == result);
        if let CrawlResult::Crawled(Ok(response)) = result {
            let handed = crawler.scraping(response.depth);
            let (scraped, output) = choose|
                scraped: CrawlerState<T::Output, T::State, T::Task, T::Error>,
                output: Result<Option<T::Output>, Failure<T::State, T::Error>>,
            | #[trigger]
                collector.scraper.may_scrape(response, handed, after.scraper, scraped, output)
                    && after.crawler == scraped.scraped();
            assert(is_requested(handed, scraped));
            let requests = choose|
                requests: Seq<(Result<PageRequest, reqwest::Error>, Option<T::State>)>,
            |
                {
                    &&& scraped == CrawlerState {
                        outputs: scraped.outputs,
                        ..#[trigger] handed.queue_all(requests)
                    }
                    &&& requests.len() > 0 ==> handed.current_depth < usize::MAX
                };
            if requests.len() > 0 {
                law_queued_pages_are_in_range(handed, requests, max_depth);
            }
        }
    }
}

proof fn lemma_new_domain_holds_nothing<S, F>(domain: DomainState<S, F>)
    requires
        domain.queue.queued.len() == 0,
        domain.buffer is None,
        domain.in_flight.len() == 0,
        domain.phase is Idle,
    ensures
        domain.held() == Multiset::<Ticket<S>>::empty(),
{
    lemma_nothing_held::<S, F>(domain.queue.queued, domain.in_flight);
    assert(domain.held() =~= Multiset::empty());
}

proof fn lemma_nothing_held<S, F>(queued: Seq<QueuedRequest<S>>, flying: Seq<InFlight<S, F>>)
    requires
        queued.len() == 0,
        flying.len() == 0,
    ensures
        waiting_tickets(queued) == Multiset::<Ticket<S>>::empty(),
        flying_tickets(flying) == Multiset::<Ticket<S>>::empty(),
{
    broadcast use group_to_multiset_ensures;

    let none = Seq::<Ticket<S>>::empty();
    assert(none.to_multiset() =~= Multiset::empty());
    assert(queued.map_values(|request: QueuedRequest<S>| ticket_of(request)) =~= none);
    assert(flying.map_values(|request: InFlight<S, F>| request.ticket) =~= none);
}

proof fn lemma_nothing_held_in<S, F>(
    allowed: Map<Seq<char>, DomainState<S, F>>,
    hosts: Set<Seq<char>>,
)
    requires
        hosts.finite(),
        forall|host: Seq<char>| #[trigger]
            hosts.contains(host) ==> allowed[host].held() == Multiset::<Ticket<S>>::empty(),
    ensures
        held_in(allowed, hosts) == Multiset::<Ticket<S>>::empty(),
    decreases hosts.len(),
{
    broadcast use vstd::set_lib::group_set_properties;

    if hosts.len() > 0 {
        let host = hosts.choose();
        assert(hosts.contains(host));
        lemma_nothing_held_in(allowed, hosts.remove(host));
        assert(held_in(allowed, hosts) =~= Multiset::empty());
    }
}

/// A crawler that follows a config, and has nothing to do yet, keeps all pages in the range that the
/// depth of the config sets.
pub proof fn law_new_crawler_keeps_the_range<O, S, F, E>(
    config: ConfigState,
    crawler: CrawlerState<O, S, F, E>,
)
    requires
        crawler.follows(config),
        config.allowed.dom().finite(),
    ensures
        crawler.keeps_range(config.depth_limit()),
        crawler.current_depth == 0,
{
    law_new_crawler_keeps_the_depth(config, crawler);
    match crawler.list {
        ListingState::AllowList(list) => {
            assert(list.allowed.dom() =~= config.allowed.dom());
            assert forall|host: Seq<char>| #[trigger]
                list.allowed.dom().contains(host) implies list.allowed[host].held()
                == Multiset::<Ticket<S>>::empty() by {
                assert(config.allowed.contains_key(host));
                assert(list.allowed[host].follows(domain_config(config, host, crawler.client)));
                lemma_new_domain_holds_nothing(list.allowed[host]);
            }
            lemma_nothing_held_in(list.allowed, list.allowed.dom());
        },
        ListingState::BlockList(list) => {
            lemma_nothing_held::<S, F>(list.queue.queued, list.in_flight);
            assert(list.held() =~= Multiset::empty());
        },
    }
}

} // verus!
