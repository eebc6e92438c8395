//! What a collector gives out: every result as it is, and the end only at the end.
use crate::collector::{
    scraped, Collector, CollectorDemand, CollectorDemandView, CollectorProgress, CollectorState,
    Scraper,
};
use crate::crawler::{
    CrawlResult, CrawlerDemandView, CrawlerProgress, CrawlerSignal, CrawlerState,
};
use crate::error::Failure;
use crate::laws::completion::law_done_crawler_is_drained;
use crate::laws::ending::law_drained_crawler_is_done;
use crate::response::Response;
use crate::time::Timer;
use vstd::prelude::*;

verus! {

/// Every result of a job that has finished is given out as that very item, be it an output or an
/// error, and so is every page that failed. The scraper is not asked, and nothing changes.
pub proof fn law_collector_gives_out_every_result<T: Scraper>(
    collector: CollectorState<T>,
    result: CrawlResult<T::Output, T::State, T::Error>,
    after: CollectorState<T>,
    demand: CollectorDemandView<T::Output, T::State, T::Task, T::Error>,
)
    requires
        collector.receives(result, after, demand),
    ensures
        result matches CrawlResult::Finished(outcome) ==> (demand matches CollectorDemandView::Yield(
            CollectorProgress::Item(item),
        ) && item == outcome && after == collector),
        result matches CrawlResult::Crawled(Err(failure)) ==> (demand
            matches CollectorDemandView::Yield(CollectorProgress::Item(item))
            && item == Err::<T::Output, _>(failure) && after == collector),
        demand matches CollectorDemandView::Yield(progress) ==> progress is Item,
        demand is Again ==> (result matches CrawlResult::Crawled(page) && page is Ok),
        demand !is Crawler,
{
}

/// Whether a scraper may have returned `output` for a response: it was handed that response and a
/// crawler that knows its depth and has counted it, and is otherwise as it was.
pub open spec fn may_return<T: Scraper>(
    collector: CollectorState<T>,
    response: Response<T::State>,
    after: CollectorState<T>,
    left: CrawlerState<T::Output, T::State, T::Task, T::Error>,
    output: Result<Option<T::Output>, Failure<T::State, T::Error>>,
) -> bool {
    exists|handed: CrawlerState<T::Output, T::State, T::Task, T::Error>|
        {
            let counted = collector.crawler.stats.response_count + 1;
            &&& #[trigger] collector.scraper.may_scrape(
                response,
                handed,
                after.scraper,
                left,
                output,
            )
            &&& handed.current_depth == response.depth
            &&& handed.stats.response_count == if counted <= usize::MAX {
                counted
            } else {
                0
            }
            &&& handed.stats.request_count == collector.crawler.stats.request_count
            &&& handed.list == collector.crawler.list
            &&& handed.results == collector.crawler.results
            &&& handed.outputs == collector.crawler.outputs
            &&& handed.crawls == collector.crawler.crawls
            &&& handed.client == collector.crawler.client
        }
}

/// What the scraper returns for a response decides what is given out: its output, its failure, or
/// nothing, and then the next result is wanted. What it did to the crawler stays, but no response
/// is being scraped any more.
pub proof fn law_collector_gives_out_what_was_scraped<T: Scraper>(
    collector: CollectorState<T>,
    response: Response<T::State>,
    after: CollectorState<T>,
    demand: CollectorDemandView<T::Output, T::State, T::Task, T::Error>,
)
    requires
        collector.receives(CrawlResult::Crawled(Ok(response)), after, demand),
    ensures
        exists|
            left: CrawlerState<T::Output, T::State, T::Task, T::Error>,
            output: Result<Option<T::Output>, Failure<T::State, T::Error>>,
        |
            {
                &&& #[trigger] may_return(collector, response, after, left, output)
                &&& after.crawler.current_depth == 0
                &&& after.crawler.list == left.list
                &&& after.crawler.results == left.results
                &&& after.crawler.outputs == left.outputs
                &&& after.crawler.crawls == left.crawls
                &&& after.crawler.stats == left.stats
                &&& after.crawler.phase == left.phase
                &&& after.crawler.client == left.client
                &&& match output {
                    Ok(Some(output)) => demand matches CollectorDemandView::Yield(
                        CollectorProgress::Item(Ok(item)),
                    ) && item == output,
                    Err(failure) => demand matches CollectorDemandView::Yield(
                        CollectorProgress::Item(Err(item)),
                    ) && item == failure,
                    Ok(None) => demand is Again,
                }
            },
{
    let handed = collector.crawler.scraping(response.depth);
    let (left, output) = choose|
        left: CrawlerState<T::Output, T::State, T::Task, T::Error>,
        output: Result<Option<T::Output>, Failure<T::State, T::Error>>,
    | #[trigger]
        collector.scraper.may_scrape(response, handed, after.scraper, left, output)
            && after.crawler == left.scraped() && demand == scraped::<
            T::Output,
            T::State,
            T::Task,
            T::Error,
        >(output);
    assert(collector.scraper.may_scrape(response, handed, after.scraper, left, output));
    assert(may_return(collector, response, after, left, output));
}

/// A collector says that it is done exactly if its crawler does, and that there is nothing yet
/// exactly if its crawler does; what the crawler wants done is what the collector wants done. In
/// all of these the scraper is not asked, and the crawler is what it has come to.
pub proof fn law_collector_is_done_with_the_crawler<T: Scraper>(
    collector: CollectorState<T>,
    crawler: CrawlerState<T::Output, T::State, T::Task, T::Error>,
    asked: CrawlerDemandView<T::Output, T::State, T::Task, T::Error>,
    after: CollectorState<T>,
    demand: CollectorDemandView<T::Output, T::State, T::Task, T::Error>,
)
    requires
        collector.proceeds(crawler, asked, after, demand),
    ensures
        demand matches CollectorDemandView::Yield(progress) && progress is Done <==> (asked
            matches CrawlerDemandView::Yield(progress) && progress is Done),
        demand matches CollectorDemandView::Yield(progress) && progress is Pending <==> (asked
            matches CrawlerDemandView::Yield(progress) && progress is Pending),
        demand is Crawler <==> !(asked is Yield),
        demand matches CollectorDemandView::Crawler(wanted) ==> wanted == asked,
        !(asked matches CrawlerDemandView::Yield(progress) && progress is Item) ==> after.scraper
            == collector.scraper && after.crawler == crawler,
{
}

/// Whatever the crawler gives out, the collector passes on: a result of a finished job, output or
/// error, becomes the item that it is, and so does a page that failed.
pub proof fn law_collector_passes_results_on<T: Scraper>(
    collector: CollectorState<T>,
    crawler: CrawlerState<T::Output, T::State, T::Task, T::Error>,
    result: CrawlResult<T::Output, T::State, T::Error>,
    after: CollectorState<T>,
    demand: CollectorDemandView<T::Output, T::State, T::Task, T::Error>,
)
    requires
        collector.proceeds(
            crawler,
            CrawlerDemandView::Yield(CrawlerProgress::Item(result)),
            after,
            demand,
        ),
    ensures
        match result {
            CrawlResult::Finished(outcome) => {
                &&& demand matches CollectorDemandView::Yield(CollectorProgress::Item(item))
                &&& item == outcome
                &&& after.crawler == crawler
                &&& after.scraper == collector.scraper
            },
            CrawlResult::Crawled(Err(failure)) => {
                &&& demand matches CollectorDemandView::Yield(CollectorProgress::Item(Err(item)))
                &&& item == failure
                &&& after.crawler == crawler
                &&& after.scraper == collector.scraper
            },
            CrawlResult::Crawled(Ok(response)) => (CollectorState {
                crawler,
                ..collector
            }).receives(result, after, demand),
        },
{
}

/// A collector that is asked for the next output says that it is done only if no job is left, no
/// result is left and the list of domains has nothing left to do; and if that is so when it is
/// asked, it says it.
pub proof fn law_done_collector_is_drained<T: Scraper>(
    collector: &mut Collector<T>,
    signal: CrawlerSignal<T::Output, T::State, T::Task, T::Error>,
    demand: CollectorDemand<T::Output, T::State, T::Task, T::Error>,
)
    requires
        old(collector)@.crawler.well_formed(),
        old(collector)@.crawler.expects(signal),
        old(collector)@.crawler.list.round_is_kept(),
        call_ensures(Collector::<T>::poll_next, (collector, signal), demand),
    ensures
        demand@ matches CollectorDemandView::Yield(progress) && progress is Done ==> {
            &&& final(collector)@.crawler.outputs.len() == 0
            &&& final(collector)@.crawler.crawls.len() == 0
            &&& final(collector)@.crawler.results.len() == 0
            &&& final(collector)@.crawler.list.is_drained()
            &&& final(collector)@.scraper == old(collector)@.scraper
        },
        signal is Poll && old(collector)@.crawler.outputs.len() == 0
            && old(collector)@.crawler.crawls.len() == 0 && old(collector)@.crawler.results.len()
            == 0 && old(collector)@.crawler.list.is_drained() ==> (demand@
            matches CollectorDemandView::Yield(progress) && progress is Done),
        signal is Poll && old(collector)@.crawler.results.len() > 0 ==> match old(
            collector,
        )@.crawler.results[0] {
            CrawlResult::Finished(outcome) => demand@ matches CollectorDemandView::Yield(
                CollectorProgress::Item(item),
            ) && item == outcome,
            CrawlResult::Crawled(Err(failure)) => demand@ matches CollectorDemandView::Yield(
                CollectorProgress::Item(Err(item)),
            ) && item == failure,
            CrawlResult::Crawled(Ok(_)) => true,
        },
{
    let before = old(collector)@;
    let restarted = choose|restarted: Timer|
        before.crawler.may_restart(signal, restarted) && ({
            let (crawler, asked) = #[trigger] before.crawler.step(signal, restarted);
            before.proceeds(crawler, asked, final(collector)@, demand@)
        });
    let (crawler, asked) = before.crawler.step(signal, restarted);
    law_done_crawler_is_drained(before.crawler, signal, restarted);
    law_collector_is_done_with_the_crawler(before, crawler, asked, final(collector)@, demand@);
    if signal is Poll && before.crawler.outputs.len() == 0 && before.crawler.crawls.len() == 0
        && before.crawler.results.len() == 0 && before.crawler.list.is_drained() {
        law_drained_crawler_is_done(before.crawler, restarted);
    }
}

} // verus!
