use std::sync::Arc;
use voyager::collector::{CollectorDemand, CollectorProgress};
use voyager::crawler::{
    CrawlNews, CrawlResult, CrawlerDemand, CrawlerProgress, CrawlerSignal, OutputNews,
};
use voyager::error::{CrawlError, DisallowReason, Failure};
use voyager::fetch::{Demand, FetchNews, FetchTask, RobotsTask, Signal};
use voyager::response::Reply;
use voyager::time::Duration;
use voyager::web::{PageRequest, Url};
use voyager::{Collector, Crawler, CrawlerConfig, RequestDelay, Response, Scraper};

type Page = Crawler<String, u32, u8, String>;
type Asked = CrawlerDemand<String, u32, u8, String>;
type Heard = CrawlerSignal<String, u32, u8, String>;

fn client() -> reqwest_middleware::ClientWithMiddleware {
    reqwest_middleware::ClientBuilder::new(reqwest::Client::new()).build()
}

fn reply(url: &str, text: &str) -> Reply {
    Reply {
        url: Url::new(url.to_string()),
        status: 200,
        headers: reqwest::header::HeaderMap::new(),
        text: text.to_string(),
    }
}

fn poll() -> Heard {
    CrawlerSignal::Poll
}

fn fetched(news: FetchNews<u8>) -> Heard {
    CrawlerSignal::List(Signal::Fetch(news))
}

fn broken() -> reqwest_middleware::Error {
    reqwest_middleware::Error::Middleware(anyhow::Error::msg("broken"))
}

fn sent_to(demand: Asked) -> String {
    match demand {
        CrawlerDemand::List(Demand::PollFetch(FetchTask::Send(_, request))) => {
            request.url().to_string()
        }
        _ => panic!("no request is sent"),
    }
}

fn refusal(demand: Asked) -> CrawlError<u32> {
    match demand {
        CrawlerDemand::Yield(CrawlerProgress::Item(CrawlResult::Crawled(Err(
            Failure::Crawl(error),
        )))) => error,
        _ => panic!("nothing is refused"),
    }
}

fn is_done(demand: Asked) -> bool {
    matches!(demand, CrawlerDemand::Yield(CrawlerProgress::Done))
}

#[test]
fn a_crawler_follows_the_standard_config() {
    let mut crawler: Page = Crawler::new(CrawlerConfig::default());
    assert_eq!(crawler.max_depth(), usize::MAX);
    assert!(!crawler.respects_robots_txt());
    assert!(crawler.skips_non_successful_responses());
    assert_eq!(crawler.stats().request_count, 0);
    assert_eq!(crawler.stats().response_count, 0);
    assert!(crawler.accepts(&poll()));
    assert!(is_done(crawler.poll(poll())));
}

#[test]
fn a_crawler_follows_its_config() {
    let config = CrawlerConfig::default()
        .max_depth(2)
        .respect_robots_txt()
        .scrape_non_success_response()
        .max_concurrent_requests(5)
        .set_client(client());
    let crawler: Page = Crawler::new(config);
    assert_eq!(crawler.max_depth(), 2);
    assert!(crawler.respects_robots_txt());
    assert!(!crawler.skips_non_successful_responses());
    let _ = crawler.client().clone();
}

#[test]
fn a_disallowed_domain_is_refused() {
    let config = CrawlerConfig::default()
        .disallow_domain("a.b")
        .disallow_domains(&["c.d", "e.f"])
        .with_shared_client(Arc::new(client()));
    let mut crawler: Page = Crawler::new(config);
    for (url, state) in [("https://a.b/", 1), ("https://c.d/", 2), ("https://e.f/", 3)] {
        crawler.visit_with_state(url, state);
        match refusal(crawler.poll(poll())) {
            CrawlError::DisallowedRequest { reason, request, state: carried } => {
                assert_eq!(reason, DisallowReason::User);
                assert_eq!(request.address().as_str(), url);
                assert_eq!(carried, Some(state));
            }
            _ => panic!("the domain is not the reason"),
        }
    }
    crawler.visit("https://g.h/");
    assert_eq!(sent_to(crawler.poll(poll())), "https://g.h/");
}

#[test]
fn only_allowed_domains_are_visited() {
    let config = CrawlerConfig::default()
        .disallow_domain("i.j")
        .allow_domain("a.b")
        .allow_domains(&["c.d", "e.f"])
        .allow_domain_with_delay("g.h", RequestDelay::fixed(Duration::from_millis(2_000)))
        .allow_domains_with_delay(&[("i.j", RequestDelay::fixed(Duration::from_millis(1)))])
        .set_client(client());
    let mut crawler: Page = Crawler::new(config);
    crawler.visit_with_state("https://k.l/", 1);
    assert!(matches!(
        refusal(crawler.poll(poll())),
        CrawlError::DisallowedRequest { reason: DisallowReason::User, state: Some(1), .. }
    ));
    crawler.visit("https://a.b/");
    assert_eq!(sent_to(crawler.poll(poll())), "https://a.b/");

    let config = CrawlerConfig::default()
        .allow_domain_with_delay("g.h", RequestDelay::fixed(Duration::from_millis(2_000)))
        .set_client(client());
    let mut crawler: Page = Crawler::new(config);
    crawler.visit("https://g.h/");
    assert!(matches!(crawler.poll(poll()), CrawlerDemand::List(Demand::PollTimer(_))));
}

#[test]
fn a_request_that_cannot_be_built_is_reported_with_its_state() {
    let mut crawler: Page = Crawler::new(CrawlerConfig::default().set_client(client()));
    crawler.visit_with_state("no address", 7);
    assert!(matches!(
        refusal(crawler.poll(poll())),
        CrawlError::FailedToBuildRequest { state: Some(7), depth: 1, .. }
    ));
}

#[test]
fn whole_requests_are_queued_too() {
    let mut crawler: Page = Crawler::new(CrawlerConfig::default().max_depth(0).set_client(client()));
    crawler.request(client().request(reqwest::Method::POST, "https://a.b/"));
    assert!(matches!(
        refusal(crawler.poll(poll())),
        CrawlError::ReachedMaxDepth { state: None, depth: 1, .. }
    ));
    crawler.request_with_state(client().request(reqwest::Method::POST, "https://a.b/"), 3);
    assert!(matches!(
        refusal(crawler.poll(poll())),
        CrawlError::ReachedMaxDepth { state: Some(3), depth: 1, .. }
    ));
    let address = reqwest::Url::parse("file:///x").unwrap();
    let request = PageRequest::new(reqwest::Request::new(reqwest::Method::GET, address));
    let mut crawler: Page = Crawler::new(CrawlerConfig::default().set_client(client()));
    crawler.queue_built(Ok(request), Some(4));
    assert!(matches!(
        refusal(crawler.poll(poll())),
        CrawlError::InvalidRequest { state: Some(4), .. }
    ));
}

#[test]
fn jobs_are_looked_after_before_the_list() {
    let mut crawler: Page = Crawler::new(CrawlerConfig::default().set_client(client()));
    crawler.complete(|_| 1);
    crawler.complete(|_| 2);
    crawler.crawl(|_| 3);
    assert!(matches!(crawler.poll(poll()), CrawlerDemand::PollOutput(2)));
    let pending = CrawlerSignal::Output(OutputNews::Pending(2));
    assert!(matches!(crawler.poll(pending), CrawlerDemand::PollOutput(1)));
    let ready = CrawlerSignal::Output(OutputNews::Ready(Ok(Some("out".to_string()))));
    assert!(matches!(crawler.poll(ready), CrawlerDemand::PollCrawl(3)));
    let ready = CrawlerSignal::Crawl(CrawlNews::Ready(Ok((reply("https://a.b/", "x"), Some(9)))));
    match crawler.poll(ready) {
        CrawlerDemand::Yield(CrawlerProgress::Item(CrawlResult::Finished(Ok(output)))) => {
            assert_eq!(output, "out");
        }
        _ => panic!("the output is not given out"),
    }
    match crawler.poll(poll()) {
        CrawlerDemand::Yield(CrawlerProgress::Item(CrawlResult::Crawled(Ok(response)))) => {
            assert_eq!(response.depth, 1);
            assert_eq!(response.state, Some(9));
            assert_eq!(response.request_url.as_str(), "https://a.b/");
            assert_eq!(response.response_url.as_str(), "https://a.b/");
            assert_eq!(response.text, "x");
        }
        _ => panic!("the response is not given out"),
    }
    assert!(matches!(crawler.poll(poll()), CrawlerDemand::PollOutput(2)));
    let none = CrawlerSignal::Output(OutputNews::Ready(Ok(None)));
    assert!(is_done(crawler.poll(none)));
}

#[test]
fn jobs_that_fail_are_reported() {
    let mut crawler: Page = Crawler::new(CrawlerConfig::default().set_client(client()));
    crawler.complete(|_| 1);
    crawler.crawl(|_| 2);
    assert!(matches!(crawler.poll(poll()), CrawlerDemand::PollOutput(1)));
    let failed = CrawlerSignal::Output(OutputNews::Ready(Err("one".to_string())));
    assert!(matches!(crawler.poll(failed), CrawlerDemand::PollCrawl(2)));
    let failed = CrawlerSignal::Crawl(CrawlNews::Ready(Err("two".to_string())));
    assert!(matches!(
        crawler.poll(failed),
        CrawlerDemand::Yield(CrawlerProgress::Item(CrawlResult::Finished(Err(
            Failure::Outside(error)
        )))) if error == "one"
    ));
    assert!(matches!(
        crawler.poll(poll()),
        CrawlerDemand::Yield(CrawlerProgress::Item(CrawlResult::Crawled(Err(
            Failure::Outside(error)
        )))) if error == "two"
    ));
    crawler.crawl(|_| 3);
    assert!(matches!(crawler.poll(poll()), CrawlerDemand::PollCrawl(3)));
    let url = Url::new("https://a.b/".to_string());
    let unread = CrawlerSignal::Crawl(CrawlNews::Unread(url, broken(), Some(6)));
    match refusal(crawler.poll(unread)) {
        CrawlError::FailedRequest { request_url, state, .. } => {
            assert_eq!(request_url.unwrap().as_str(), "https://a.b/");
            assert_eq!(state, Some(6));
        }
        _ => panic!("the response was read"),
    }
    crawler.crawl(|_| 4);
    assert!(matches!(crawler.poll(poll()), CrawlerDemand::PollCrawl(4)));
    let pending = CrawlerSignal::Crawl(CrawlNews::Pending(4));
    assert!(matches!(crawler.poll(pending), CrawlerDemand::Yield(CrawlerProgress::Pending)));
}

#[test]
fn sent_requests_are_counted() {
    let config = CrawlerConfig::default().respect_robots_txt().set_client(client());
    let mut crawler: Page = Crawler::new(config);
    crawler.visit("https://a.b/1");
    assert_eq!(crawler.stats().request_count, 0);
    assert!(matches!(
        crawler.poll(poll()),
        CrawlerDemand::List(Demand::PollRobots(RobotsTask::Fetch(_, _)))
    ));
    assert_eq!(crawler.stats().request_count, 1);
    let data = voyager::robots::RobotsData::allow_all();
    let news = voyager::fetch::RobotsNews::Ready(Ok(data));
    assert_eq!(sent_to(crawler.poll(CrawlerSignal::List(Signal::Robots(news)))), "https://a.b/1");
    assert_eq!(crawler.stats().request_count, 2);
    let pending = fetched(FetchNews::Pending(1));
    assert!(matches!(crawler.poll(pending), CrawlerDemand::Yield(CrawlerProgress::Pending)));
    assert_eq!(crawler.stats().request_count, 2);
}

/// Follows the links in a text, one on each line, and collects the texts that hold none.
struct Links {
    seen: Vec<(String, usize, Option<u32>)>,
}

impl Scraper for Links {
    type Output = String;
    type State = u32;
    type Task = u8;
    type Error = String;

    fn scrape(
        &mut self,
        response: Response<u32>,
        crawler: &mut Crawler<String, u32, u8, String>,
    ) -> Result<Option<String>, Failure<u32, String>> {
        self.seen.push((
            response.request_url.as_str().to_string(),
            response.depth,
            response.state,
        ));
        if response.text == "fail" {
            return Err(Failure::Outside("scraper".to_string()));
        }
        if response.text.starts_with("https") {
            for line in response.text.lines() {
                crawler.visit_with_state(line, response.state.unwrap_or(0) + 1);
            }
            return Ok(None);
        }
        Ok(Some(response.text))
    }
}

type Wanted = CollectorDemand<String, u32, u8, String>;

fn request_of(demand: Wanted) -> String {
    match demand {
        CollectorDemand::Crawler(asked) => sent_to(asked),
        _ => panic!("no request is sent"),
    }
}

fn output_of(demand: Wanted) -> Result<String, Failure<u32, String>> {
    match demand {
        CollectorDemand::Yield(CollectorProgress::Item(output)) => output,
        _ => panic!("no output is given out"),
    }
}

#[test]
fn a_collector_scrapes_what_was_crawled() {
    let config = CrawlerConfig::default().max_depth(2).set_client(client());
    let mut collector = Collector::new(Links { seen: Vec::new() }, config);
    collector.crawler_mut().visit("https://a.b/");

    assert_eq!(request_of(collector.poll_next(poll())), "https://a.b/");
    let links = "https://a.b/1\nhttps://a.b/2";
    let demand = collector.poll_next(fetched(FetchNews::Text(reply("https://a.b/", links))));
    assert!(matches!(demand, CollectorDemand::Again));
    assert_eq!(collector.stats().response_count, 1);

    assert_eq!(request_of(collector.poll_next(poll())), "https://a.b/2");
    let demand = collector.poll_next(fetched(FetchNews::Text(reply("https://a.b/2", "two"))));
    assert_eq!(request_of(demand), "https://a.b/1");
    let deeper = "https://a.b/3";
    let demand = collector.poll_next(fetched(FetchNews::Text(reply("https://a.b/1", deeper))));
    assert_eq!(output_of(demand).ok().unwrap(), "two");
    assert!(matches!(collector.poll_next(poll()), CollectorDemand::Again));
    match output_of(collector.poll_next(poll())) {
        Err(Failure::Crawl(CrawlError::ReachedMaxDepth { request, state, depth })) => {
            assert_eq!(request.address().as_str(), "https://a.b/3");
            assert_eq!((state, depth), (Some(2), 3));
        }
        _ => panic!("the request is not refused"),
    }
    assert!(matches!(
        collector.poll_next(poll()),
        CollectorDemand::Yield(CollectorProgress::Done)
    ));
    assert_eq!(collector.stats().response_count, 3);
    assert_eq!(collector.stats().request_count, 3);
    assert_eq!(
        collector.scraper().seen,
        vec![
            ("https://a.b/".to_string(), 1, None),
            ("https://a.b/2".to_string(), 2, Some(1)),
            ("https://a.b/1".to_string(), 2, Some(1)),
        ]
    );
}

#[test]
fn a_collector_passes_failures_on() {
    let config = CrawlerConfig::default().set_client(client());
    let mut collector = Collector::new(Links { seen: Vec::new() }, config);
    collector.crawler_mut().visit_with_state("https://a.b/", 5);
    assert_eq!(request_of(collector.poll_next(poll())), "https://a.b/");
    let demand = collector.poll_next(fetched(FetchNews::Failed(broken())));
    match output_of(demand) {
        Err(Failure::Crawl(error)) => assert_eq!(error.into_state(), Some(5)),
        _ => panic!("the failure is not passed on"),
    }
    assert_eq!(collector.stats().response_count, 0);

    collector.crawler_mut().visit("https://a.b/");
    assert_eq!(request_of(collector.poll_next(poll())), "https://a.b/");
    let demand = collector.poll_next(fetched(FetchNews::Text(reply("https://a.b/", "fail"))));
    assert!(matches!(output_of(demand), Err(Failure::Outside(error)) if error == "scraper"));
    assert_eq!(collector.stats().response_count, 1);

    collector.crawler_mut().complete(|_| 1);
    assert!(matches!(
        collector.poll_next(poll()),
        CollectorDemand::Crawler(CrawlerDemand::PollOutput(1))
    ));
    let pending = CrawlerSignal::Output(OutputNews::Pending(1));
    assert!(matches!(
        collector.poll_next(pending),
        CollectorDemand::Yield(CollectorProgress::Pending)
    ));
    collector.scraper_mut().seen.clear();
    assert!(collector.scraper.seen.is_empty());
    assert!(collector.crawler().accepts(&poll()));
}

#[test]
fn pages_lie_between_the_start_and_the_maximum_depth() {
    let config = CrawlerConfig::default().max_depth(4).set_client(client());
    let mut collector = Collector::new(Links { seen: Vec::new() }, config);
    collector.crawler_mut().visit("https://a.b/");
    let mut demand = collector.poll_next(poll());
    for _ in 0..4 {
        assert_eq!(request_of(demand), "https://a.b/");
        let links = reply("https://a.b/", "https://a.b/");
        assert!(matches!(
            collector.poll_next(fetched(FetchNews::Text(links))),
            CollectorDemand::Again
        ));
        demand = collector.poll_next(poll());
    }
    assert!(matches!(
        output_of(demand),
        Err(Failure::Crawl(CrawlError::ReachedMaxDepth { depth: 5, state: Some(4), .. }))
    ));
    let depths: Vec<usize> = collector.scraper().seen.iter().map(|page| page.1).collect();
    assert_eq!(depths, vec![1, 2, 3, 4]);

    collector.crawler_mut().visit("https://a.b/");
    assert_eq!(request_of(collector.poll_next(poll())), "https://a.b/");
    let demand = collector.poll_next(fetched(FetchNews::Text(reply("https://a.b/", "fail"))));
    assert!(output_of(demand).is_err());
    collector.crawler_mut().visit("https://a.b/");
    assert_eq!(request_of(collector.poll_next(poll())), "https://a.b/");
    let demand = collector.poll_next(fetched(FetchNews::Text(reply("https://a.b/", "out"))));
    assert_eq!(output_of(demand).ok().unwrap(), "out");
    let depths: Vec<usize> = collector.scraper().seen.iter().map(|page| page.1).collect();
    assert_eq!(depths, vec![1, 2, 3, 4, 1, 1]);
}

#[test]
fn outputs_of_jobs_are_given_out_as_they_are() {
    let config = CrawlerConfig::default().set_client(client());
    let mut collector = Collector::new(Links { seen: Vec::new() }, config);
    let finished: CrawlResult<String, u32, String> = CrawlResult::Finished(Ok("out".to_string()));
    assert_eq!(output_of(collector.receive(finished)).ok().unwrap(), "out");
    assert!(collector.scraper().seen.is_empty());
    assert_eq!(collector.stats().response_count, 0);
}

#[test]
fn the_config_decides_after_polls_requests_and_jobs_too() {
    let config = CrawlerConfig::default()
        .allow_domains(&["a.b", "c.d"])
        .max_depth(1)
        .max_concurrent_requests(1)
        .set_client(client());
    let mut crawler: Page = Crawler::new(config);
    crawler.visit("https://a.b/1");
    crawler.visit("https://a.b/2");
    crawler.visit("https://c.d/3");
    crawler.complete(|_| 9);
    assert!(matches!(crawler.poll(poll()), CrawlerDemand::PollOutput(9)));
    let none = CrawlerSignal::Output(OutputNews::Ready(Ok(None)));
    assert_eq!(sent_to(crawler.poll(none)), "https://c.d/3");
    crawler.visit_with_state("https://e.f/", 4);
    let pending = crawler.poll(fetched(FetchNews::Pending(3)));
    assert!(matches!(
        pending,
        CrawlerDemand::List(Demand::PollFetch(FetchTask::Running(3)))
    ));
    assert_eq!(sent_to(crawler.poll(fetched(FetchNews::Pending(3)))), "https://a.b/1");
    assert!(matches!(
        crawler.poll(fetched(FetchNews::Pending(1))),
        CrawlerDemand::List(Demand::PollFetch(FetchTask::Running(1)))
    ));
    assert!(matches!(
        refusal(crawler.poll(fetched(FetchNews::Pending(1)))),
        CrawlError::DisallowedRequest { reason: DisallowReason::User, state: Some(4), .. }
    ));
    crawler.visit_with_state("https://g.h/", 5);
    assert!(matches!(
        refusal(crawler.poll(poll())),
        CrawlError::DisallowedRequest { reason: DisallowReason::User, state: Some(5), .. }
    ));
}

#[test]
fn the_limit_is_shared_out_among_the_allowed_domains() {
    let config = CrawlerConfig::default()
        .allow_domains(&["a.b", "c.d"])
        .max_concurrent_requests(4)
        .set_client(client());
    let mut crawler: Page = Crawler::new(config);
    for path in 1..5 {
        crawler.visit(&format!("https://a.b/{}", path));
    }
    assert_eq!(sent_to(crawler.poll(poll())), "https://a.b/1");
    assert_eq!(sent_to(crawler.poll(fetched(FetchNews::Pending(1)))), "https://a.b/2");
    assert!(matches!(
        crawler.poll(fetched(FetchNews::Pending(2))),
        CrawlerDemand::List(Demand::PollFetch(FetchTask::Running(2)))
    ));
}
