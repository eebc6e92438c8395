//! The collector: it drives the crawler, and hands what was crawled to the scraper.
use crate::config::CrawlerConfig;
use crate::crawler::{
    CrawlResult, Crawler, CrawlerDemand, CrawlerDemandView, CrawlerProgress, CrawlerSignal,
    CrawlerState, Stats,
};
use crate::error::Failure;
use crate::response::Response;
use crate::time::Timer;
use vstd::prelude::*;

verus! {

/// Takes in successfully fetched responses, scrapes the valuable content from their html document,
/// and provides the crawler with additional requests to visit, which drive the scraper's model to
/// completion.
pub trait Scraper: Sized {
    /// The type this scraper eventually produces.
    type Output;

    /// The type used to track the progress of a scraping task that needs several consecutive
    /// requests.
    type State;

    /// The handle of work that is under way.
    type Task;

    /// What such work fails with.
    type Error;

    /// What scraping may do: to the scraper, to the crawler, and what may come out. Unless a scraper
    /// says more, it may do anything.
    open spec fn may_scrape(
        self,
        response: Response<Self::State>,
        crawler: CrawlerState<Self::Output, Self::State, Self::Task, Self::Error>,
        scraper_after: Self,
        crawler_after: CrawlerState<Self::Output, Self::State, Self::Task, Self::Error>,
        output: Result<Option<Self::Output>, Failure<Self::State, Self::Error>>,
    ) -> bool {
        true
    }

    /// Is called after the `Crawler` successfully receives a response for an issued request.
    ///
    /// This function can return a finished `Output` object. The crawler accepts additional
    /// requests. To advance the scraper's `State`, pass the state of the `response` along with the
    /// request to the `Crawler`.
    fn scrape(
        &mut self,
        response: Response<Self::State>,
        crawler: &mut Crawler<Self::Output, Self::State, Self::Task, Self::Error>,
    ) -> (output: Result<Option<Self::Output>, Failure<Self::State, Self::Error>>)
        requires
            old(crawler)@.well_formed(),
            old(crawler)@.phase is Idle,
        ensures
            old(self).may_scrape(
                response,
                old(crawler)@,
                *final(self),
                final(crawler)@,
                output,
            ),
            final(crawler)@.well_formed(),
            final(crawler)@.phase is Idle,
    ;
}

/// What whoever wants the next output gets.
pub enum CollectorProgress<O, S, E> {
    /// An output of the scraper, or a failure.
    Item(Result<O, Failure<S, E>>),
    /// There is nothing left to do.
    Done,
    /// There is no output yet.
    Pending,
}

/// What a collector wants done.
pub enum CollectorDemand<O, S, F, E> {
    /// What the crawler wants done; it is never a [CrawlerDemand::Yield].
    Crawler(CrawlerDemand<O, S, F, E>),
    /// Nothing came of the last response: want the next output again.
    Again,
    /// Pass this on to whoever wants the next output.
    Yield(CollectorProgress<O, S, E>),
}

/// What a [CollectorDemand] asks for.
pub enum CollectorDemandView<O, S, F, E> {
    /// What the crawler wants done.
    Crawler(CrawlerDemandView<O, S, F, E>),
    /// To want the next output again.
    Again,
    /// To pass this on.
    Yield(CollectorProgress<O, S, E>),
}

impl<O, S, F, E> View for CollectorDemand<O, S, F, E> {
    type V = CollectorDemandView<O, S, F, E>;

    open spec fn view(&self) -> CollectorDemandView<O, S, F, E> {
        match *self {
            CollectorDemand::Crawler(demand) => CollectorDemandView::Crawler(demand@),
            CollectorDemand::Again => CollectorDemandView::Again,
            CollectorDemand::Yield(progress) => CollectorDemandView::Yield(progress),
        }
    }
}

/// What follows on what the scraper returned for a response.
pub open spec fn scraped<O, S, F, E>(output: Result<Option<O>, Failure<S, E>>) -> CollectorDemandView<
    O,
    S,
    F,
    E,
> {
    match output {
        Ok(Some(output)) => CollectorDemandView::Yield(CollectorProgress::Item(Ok(output))),
        Ok(None) => CollectorDemandView::Again,
        Err(failure) => CollectorDemandView::Yield(CollectorProgress::Item(Err(failure))),
    }
}

/// Collector controls the `Crawler` and forwards the successful requests to the `Scraper`, and
/// reports the `Scraper`'s `Output` back to the user.
#[must_use]
pub struct Collector<T: Scraper> {
    /// The crawler that requests all the pages.
    crawler: Crawler<T::Output, T::State, T::Task, T::Error>,
    /// The scraper that extracts the information from a `Response`.
    pub scraper: T,
}

/// What a [Collector] holds.
#[verifier::ext_equal]
pub struct CollectorState<T: Scraper> {
    /// The crawler.
    pub crawler: CrawlerState<T::Output, T::State, T::Task, T::Error>,
    /// The scraper.
    pub scraper: T,
}

impl<T: Scraper> View for Collector<T> {
    type V = CollectorState<T>;

    closed spec fn view(&self) -> CollectorState<T> {
        CollectorState { crawler: self.crawler@, scraper: self.scraper }
    }
}

impl<T: Scraper> CollectorState<T> {
    /// Whether the collector may be `after` once it has received a result of the crawler, with
    /// that demand. A response is counted and handed to the scraper, while the crawler knows its
    /// depth; anything else is passed on.
    pub open spec fn receives(
        self,
        result: CrawlResult<T::Output, T::State, T::Error>,
        after: Self,
        demand: CollectorDemandView<T::Output, T::State, T::Task, T::Error>,
    ) -> bool {
        match result {
            CrawlResult::Finished(output) => {
                &&& after == self
                &&& demand == CollectorDemandView::<T::Output, T::State, T::Task, T::Error>::Yield(
                    CollectorProgress::Item(output),
                )
            },
            CrawlResult::Crawled(Err(failure)) => {
                &&& after == self
                &&& demand == CollectorDemandView::<T::Output, T::State, T::Task, T::Error>::Yield(
                    CollectorProgress::Item(Err(failure)),
                )
            },
            CrawlResult::Crawled(Ok(response)) => exists|
                crawler: CrawlerState<T::Output, T::State, T::Task, T::Error>,
                output: Result<Option<T::Output>, Failure<T::State, T::Error>>,
            | #[trigger]
                self.scraper.may_scrape(
                    response,
                    self.crawler.scraping(response.depth),
                    after.scraper,
                    crawler,
                    output,
                ) && after.crawler == crawler.scraped() && demand == scraped::<
                    T::Output,
                    T::State,
                    T::Task,
                    T::Error,
                >(output),
        }
    }

    /// Whether the collector may be `after` once the crawler has come to `crawler` and wants
    /// `asked` done, with that demand.
    pub open spec fn proceeds(
        self,
        crawler: CrawlerState<T::Output, T::State, T::Task, T::Error>,
        asked: CrawlerDemandView<T::Output, T::State, T::Task, T::Error>,
        after: Self,
        demand: CollectorDemandView<T::Output, T::State, T::Task, T::Error>,
    ) -> bool {
        let between = CollectorState { crawler, ..self };
        match asked {
            CrawlerDemandView::Yield(CrawlerProgress::Item(result)) => between.receives(
                result,
                after,
                demand,
            ),
            CrawlerDemandView::Yield(CrawlerProgress::Done) => {
                &&& after == between
                &&& demand == CollectorDemandView::<T::Output, T::State, T::Task, T::Error>::Yield(
                    CollectorProgress::Done,
                )
            },
            CrawlerDemandView::Yield(CrawlerProgress::Pending) => {
                &&& after == between
                &&& demand == CollectorDemandView::<T::Output, T::State, T::Task, T::Error>::Yield(
                    CollectorProgress::Pending,
                )
            },
            asked => {
                &&& after == between
                &&& demand == CollectorDemandView::<
                    T::Output,
                    T::State,
                    T::Task,
                    T::Error,
                >::Crawler(asked)
            },
        }
    }
}

impl<T: Scraper> Collector<T> {
    /// Create a new `Collector` that uses the `scraper` for content extraction.
    pub fn new(scraper: T, config: CrawlerConfig) -> (collector: Self)
        ensures
            collector@.scraper == scraper,
            collector@.crawler.follows(config@),
            collector@.crawler.well_formed(),
    {
        Collector { crawler: Crawler::new(config), scraper }
    }

    /// The scraper of this collector.
    pub fn scraper(&self) -> (scraper: &T)
        ensures
            *scraper == self@.scraper,
    {
        &self.scraper
    }

    /// Mutable access to the inner scraper.
    pub fn scraper_mut(&mut self) -> (scraper: &mut T)
        ensures
            *scraper == old(self)@.scraper,
            final(self)@ == (CollectorState { scraper: *final(scraper), ..old(self)@ }),
    {
        &mut self.scraper
    }

    /// The crawler that handles the requests.
    pub fn crawler(&self) -> (crawler: &Crawler<T::Output, T::State, T::Task, T::Error>)
        ensures
            crawler@ == self@.crawler,
    {
        &self.crawler
    }

    /// Mutable access to the crawler that handles the requests.
    pub fn crawler_mut(&mut self) -> (crawler: &mut Crawler<
        T::Output,
        T::State,
        T::Task,
        T::Error,
    >)
        ensures
            crawler@ == old(self)@.crawler,
            final(self)@ == (CollectorState { crawler: final(crawler)@, ..old(self)@ }),
    {
        &mut self.crawler
    }

    /// Stats about the executed requests.
    pub fn stats(&self) -> (stats: &Stats)
        ensures
            *stats == self@.crawler.stats,
    {
        self.crawler.stats()
    }

    /// Takes a signal in and says what is to be done next: results of the crawler go to the
    /// scraper, and what comes of them is given out.
    pub fn poll_next(
        &mut self,
        signal: CrawlerSignal<T::Output, T::State, T::Task, T::Error>,
    ) -> (demand: CollectorDemand<T::Output, T::State, T::Task, T::Error>)
        requires
            old(self)@.crawler.well_formed(),
            old(self)@.crawler.expects(signal),
        ensures
            exists|restarted: Timer|
                old(self)@.crawler.may_restart(signal, restarted) && ({
                    let (crawler, asked) = #[trigger] old(self)@.crawler.step(signal, restarted);
                    old(self)@.proceeds(crawler, asked, final(self)@, demand@)
                }),
            final(self)@.crawler.well_formed(),
            final(self)@.crawler.phase is Idle <==> demand@ !is Crawler,
    {
        let asked = self.crawler.poll(signal);
        let ghost (crawler, wanted) = (self@.crawler, asked@);
        let ghost restarted = choose|restarted: Timer|
            old(self)@.crawler.may_restart(signal, restarted) && (crawler, wanted)
                == #[trigger] old(self)@.crawler.step(signal, restarted);
        assert(old(self)@.crawler.step(signal, restarted) == (crawler, wanted));
        assert(self@ == (CollectorState { crawler, ..old(self)@ }));
        match asked {
            CrawlerDemand::Yield(CrawlerProgress::Item(result)) => self.receive(result),
            CrawlerDemand::Yield(CrawlerProgress::Done) => CollectorDemand::Yield(
                CollectorProgress::Done,
            ),
            CrawlerDemand::Yield(CrawlerProgress::Pending) => CollectorDemand::Yield(
                CollectorProgress::Pending,
            ),
            asked => CollectorDemand::Crawler(asked),
        }
    }

    /// Takes in a result of the crawler: a response is counted and handed to the scraper, while
    /// the crawler knows its depth; anything else is passed on.
    pub fn receive(&mut self, result: CrawlResult<T::Output, T::State, T::Error>) -> (demand:
        CollectorDemand<T::Output, T::State, T::Task, T::Error>)
        requires
            old(self)@.crawler.well_formed(),
            old(self)@.crawler.phase is Idle,
        ensures
            old(self)@.receives(result, final(self)@, demand@),
            final(self)@.crawler.well_formed(),
            final(self)@.crawler.phase is Idle,
            demand@ !is Crawler,
    {
        match result {
            CrawlResult::Finished(output) => CollectorDemand::Yield(
                CollectorProgress::Item(output),
            ),
            CrawlResult::Crawled(Err(failure)) => CollectorDemand::Yield(
                CollectorProgress::Item(Err(failure)),
            ),
            CrawlResult::Crawled(Ok(response)) => {
                self.crawler.begin_scrape(response.depth);
                let output = self.scraper.scrape(response, &mut self.crawler);
                let ghost (crawler, returned) = (self@.crawler, output);
                self.crawler.end_scrape();
                let demand = match output {
                    Ok(Some(output)) => CollectorDemand::Yield(
                        CollectorProgress::Item(Ok(output)),
                    ),
                    Ok(None) => CollectorDemand::Again,
                    Err(failure) => CollectorDemand::Yield(CollectorProgress::Item(Err(failure))),
                };
                proof {
                    assert(old(self)@.scraper.may_scrape(
                        response,
                        old(self)@.crawler.scraping(response.depth),
                        self@.scraper,
                        crawler,
                        returned,
                    ));
                    assert(self@.crawler == crawler.scraped());
                    assert(demand@ == scraped::<T::Output, T::State, T::Task, T::Error>(returned));
                }
                demand
            },
        }
    }
}

} // verus!
