//! What is counted, and what stays as it is.
use crate::allow_list::{lemma_taken_out, AllowPhaseView, AllowState};
use crate::collector::{CollectorDemandView, CollectorState, Scraper};
use crate::crawler::{CrawlResult, CrawlerDemandView, CrawlerState, CrawlerSignal};
use crate::error::Failure;
use crate::fetch::{sends, swap_removed, Signal};
use crate::laws::invariants::{lemma_hear_is_sound, lemma_visited_attends};
use crate::requests::QueuedRequest;
use crate::time::Timer;
use crate::web::PageRequest;
use vstd::multiset::Multiset;
use vstd::prelude::*;
use vstd::seq_lib::*;

verus! {

/// A crawler counts a request exactly when it has one sent, for a page or for a `robots.txt`;
/// nothing else that it does by itself changes the stats. Its settings stay as they are.
pub proof fn law_sent_requests_are_counted<O, S, F, E>(
    crawler: CrawlerState<O, S, F, E>,
    signal: CrawlerSignal<O, S, F, E>,
    restarted: Timer,
)
    ensures
        ({
            let (after, demand) = crawler.step(signal, restarted);
            &&& after.stats == if (demand matches CrawlerDemandView::List(asked) && sends(asked)) {
                crawler.stats.with_request()
            } else {
                crawler.stats
            }
            &&& after.client == crawler.client
            &&& after.current_depth == crawler.current_depth
            &&& after.max_depth == crawler.max_depth
            &&& after.respect_robots_txt == crawler.respect_robots_txt
            &&& after.skip_non_successful_responses == crawler.skip_non_successful_responses
        }),
{
}

/// Every response is handed to the scraper, together with a crawler that has counted it and knows
/// its depth; what the scraper returns decides what is given out. Anything but a response is given
/// out as it is, and the scraper is not asked.
pub proof fn law_every_response_is_scraped<T: Scraper>(
    collector: CollectorState<T>,
    result: CrawlResult<T::Output, T::State, T::Error>,
    after: CollectorState<T>,
    demand: CollectorDemandView<T::Output, T::State, T::Task, T::Error>,
)
    requires
        collector.receives(result, after, demand),
    ensures
        match result {
            CrawlResult::Crawled(Ok(response)) => {
                let handed = collector.crawler.scraping(response.depth);
                &&& handed.stats.response_count
                    == collector.crawler.stats.response_count.wrapping_add(1)
                &&& handed.current_depth == response.depth
                &&& after.crawler.current_depth == 0
                &&& exists|
                    crawler: CrawlerState<T::Output, T::State, T::Task, T::Error>,
                    output: Result<Option<T::Output>, Failure<T::State, T::Error>>,
                | #[trigger]
                    collector.scraper.may_scrape(
                        response,
                        handed,
                        after.scraper,
                        crawler,
                        output,
                    ) && (demand is Again <==> output == Ok::<
                        Option<T::Output>,
                        Failure<T::State, T::Error>,
                    >(None))
            },
            _ => after == collector && demand is Yield,
        },
{
}

/// A request that is queued while a response is being scraped lies one deeper than the response.
pub proof fn law_followups_lie_one_deeper<O, S, F, E>(
    crawler: CrawlerState<O, S, F, E>,
    depth: usize,
    request: PageRequest,
    state: Option<S>,
)
    requires
        depth < usize::MAX,
    ensures
        crawler.scraping(depth).queue_built(Ok(request), state).list == crawler.list.add_request(
            QueuedRequest { request, state, depth: (depth + 1) as usize },
        ).0,
{
}

impl<S, F, E> AllowState<S, F, E> {
    /// The names of all domains, the one that is being looked after included.
    pub open spec fn names(self) -> Multiset<Seq<char>> {
        match self.phase {
            AllowPhaseView::Idle => self.domains.to_multiset(),
            AllowPhaseView::Visit { host, .. } => self.domains.to_multiset().insert(host),
        }
    }
}

proof fn lemma_hear_keeps_names<S, F, E>(
    list: AllowState<S, F, E>,
    left: nat,
    host: Seq<char>,
    busy: bool,
    signal: Signal<S, F, E>,
    restarted: Timer,
)
    requires
        list.attends(left, host),
    ensures
        ({
            let (after, _) = list.hear(left, host, busy, signal, restarted);
            &&& after.names() == list.domains.to_multiset().insert(host)
            &&& after.allowed.dom() == list.allowed.dom()
        }),
{
    broadcast use group_to_multiset_ensures;

    let visit = list.entering(AllowPhaseView::Visit { left, host, busy: false });
    assert(visit.allowed.contains_key(host));
    let (after, _) = list.hear(left, host, busy, signal, restarted);
    assert(after.allowed.dom() =~= list.allowed.dom());
}

proof fn lemma_visit_keeps_names<S, F, E>(
    list: AllowState<S, F, E>,
    left: nat,
    busy: bool,
    restarted: Timer,
)
    requires
        list.well_formed(),
        list.phase is Idle,
        left <= list.domains.len(),
    ensures
        ({
            let (after, _) = list.visit(left, busy, restarted);
            &&& after.names() == list.names()
            &&& after.allowed.dom() == list.allowed.dom()
        }),
    decreases left,
{
    broadcast use group_to_multiset_ensures;

    if left > 0 {
        let last = left - 1;
        let host = list.domains[last];
        let rest = AllowState { domains: swap_removed(list.domains, last), ..list };
        let changed = list.domains.update(last, list.domains.last());
        assert(rest.domains =~= changed.remove(changed.len() - 1));
        assert(list.domains.to_multiset().contains(host));
        assert(changed.to_multiset().contains(changed[changed.len() - 1]));
        assert(rest.domains.to_multiset().insert(host) =~= list.domains.to_multiset());
        lemma_taken_out(list, rest, last);
        assert(list.allowed.contains_key(list.domains[last]));
        assert(list.allowed[host].well_formed());
        lemma_hear_is_sound(rest, last as nat, host, busy, Signal::Poll, restarted);
        lemma_hear_keeps_names(rest, last as nat, host, busy, Signal::Poll, restarted);
        let (after, answer) = rest.hear(last as nat, host, busy, Signal::Poll, restarted);
        if let Ok(busy) = answer {
            lemma_visit_keeps_names(after, last as nat, busy, restarted);
        }
    }
}

/// Looking after the domains of an allow list changes their order at most: none is lost, and none
/// is added.
pub proof fn law_allow_list_keeps_its_domains<S, F, E>(
    list: AllowState<S, F, E>,
    signal: Signal<S, F, E>,
    restarted: Timer,
)
    requires
        list.well_formed(),
        list.expects(signal),
    ensures
        list.step(signal, restarted).0.names() == list.names(),
        list.step(signal, restarted).0.allowed.dom() == list.allowed.dom(),
{
    match list.phase {
        AllowPhaseView::Idle => {
            if list.results.len() == 0 {
                lemma_visit_keeps_names(list, list.domains.len(), false, restarted);
            }
        },
        AllowPhaseView::Visit { left, host, busy } => {
            lemma_visited_attends(list, left, host, busy);
            lemma_hear_is_sound(list, left, host, busy, signal, restarted);
            lemma_hear_keeps_names(list, left, host, busy, signal, restarted);
            let (after, answer) = list.hear(left, host, busy, signal, restarted);
            if let Ok(busy) = answer {
                lemma_visit_keeps_names(after, left, busy, restarted);
            }
        },
    }
}

} // verus!
