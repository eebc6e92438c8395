use voyager::allow_list::AllowList;
use voyager::allowed_domain::{AllowListConfig, AllowedDomain};
use voyager::block_list::{BlockList, StringHashSet};
use voyager::domain::DomainListing;
use voyager::error::{CrawlError, DisallowReason, Failure};
use voyager::fetch::{
    get_response, start_request, Demand, FetchNews, FetchTask, Fetched, Progress, RobotsNews,
    RobotsTask, Signal, Ticket,
};
use voyager::requests::{QueuedRequest, QueuedRequestBuilder, RequestDelay};
use voyager::response::Reply;
use voyager::robots::{RobotsData, RobotsHandler};
use voyager::time::Duration;
use voyager::web::{PageRequest, Url};

type Asked = Demand<u32, u8, String>;

fn client() -> reqwest_middleware::ClientWithMiddleware {
    reqwest_middleware::ClientBuilder::new(reqwest::Client::new()).build()
}

fn queued(url: &str, state: u32, depth: usize) -> QueuedRequest<u32> {
    let address = reqwest::Url::parse(url).unwrap();
    let request = PageRequest::new(reqwest::Request::new(reqwest::Method::GET, address));
    QueuedRequest { request, state: Some(state), depth }
}

fn config(respect: bool, max_depth: usize, max_requests: usize) -> AllowListConfig {
    AllowListConfig {
        delay: None,
        respect_robots_txt: respect,
        client: client(),
        skip_non_successful_responses: true,
        max_depth,
        max_requests,
    }
}

fn domain(respect: bool, max_depth: usize, max_requests: usize) -> AllowedDomain<u32, u8> {
    AllowedDomain::new("a.b".to_string(), config(respect, max_depth, max_requests))
}

fn block_list(blocked: &[&str], respect: bool, max_requests: usize) -> BlockList<u32, u8> {
    let mut list = BlockList::new(
        StringHashSet::new(),
        client(),
        respect,
        true,
        3,
        max_requests,
    );
    for name in blocked {
        list.disallow(name);
    }
    list
}

fn reply(url: &str) -> Reply {
    Reply {
        url: Url::new(url.to_string()),
        status: 200,
        headers: reqwest::header::HeaderMap::new(),
        text: "text".to_string(),
    }
}

fn http_response(status: u16) -> reqwest::Response {
    reqwest::Response::from(http::Response::builder().status(status).body("").unwrap())
}

fn disallowing(path: &str) -> RobotsData {
    let text = format!("User-agent: *\nDisallow: {}", path);
    RobotsHandler::from_response(200, &text, &vec![]).unwrap()
}

fn poll() -> Signal<u32, u8, String> {
    Signal::Poll
}

fn pending(task: u8) -> Signal<u32, u8, String> {
    Signal::Fetch(FetchNews::Pending(task))
}

fn text(url: &str) -> Signal<u32, u8, String> {
    Signal::Fetch(FetchNews::Text(reply(url)))
}

fn is_pending(demand: Asked) -> bool {
    matches!(demand, Demand::Yield(Progress::Pending))
}

fn is_done(demand: Asked) -> bool {
    matches!(demand, Demand::Yield(Progress::Done))
}

fn sent_to(demand: Asked) -> String {
    match demand {
        Demand::PollFetch(FetchTask::Send(_, request)) => request.url().to_string(),
        _ => panic!("no request is sent"),
    }
}

fn running(demand: Asked) -> u8 {
    match demand {
        Demand::PollFetch(FetchTask::Running(task)) => task,
        _ => panic!("no request is looked after"),
    }
}

fn robots_at(demand: Asked) -> String {
    match demand {
        Demand::PollRobots(RobotsTask::Fetch(_, url)) => url.as_str().to_string(),
        _ => panic!("no robots.txt is asked for"),
    }
}

fn refused_state(demand: Asked) -> Option<u32> {
    match demand {
        Demand::Yield(Progress::Item(Err(Failure::Crawl(CrawlError::DisallowedRequest {
            reason: DisallowReason::RobotsTxt,
            state,
            ..
        })))) => state,
        _ => panic!("no request is refused"),
    }
}

fn response_state(demand: Asked) -> Option<u32> {
    match demand {
        Demand::Yield(Progress::Item(Ok(response))) => response.state,
        _ => panic!("no response is given out"),
    }
}

#[test]
fn a_response_carries_what_its_request_carried() {
    let started = start_request::<u32, u8>(queued("https://a.b/x", 7, 2), &client());
    assert!(matches!(&started.task, FetchTask::Send(_, request) if request.url().path() == "/x"));
    let step: Fetched<u32, u8, String> =
        get_response(started.ticket, FetchNews::Text(reply("https://c.d/y")), true);
    match step {
        Fetched::Finished(Ok(response)) => {
            assert_eq!(response.depth, 2);
            assert_eq!(response.state, Some(7));
            assert_eq!(response.request_url.as_str(), "https://a.b/x");
            assert_eq!(response.response_url.as_str(), "https://c.d/y");
            assert_eq!(response.response_status, 200);
            assert_eq!(response.text, "text");
        }
        _ => panic!("the request is not finished"),
    }
}

fn ticket() -> Ticket<u32> {
    Ticket { request_url: Url::new("https://a.b/x".to_string()), state: Some(7), depth: 1 }
}

#[test]
fn unsuccessful_responses_are_skipped_on_demand() {
    for status in [100u16, 199, 300, 404, 500] {
        let head: FetchNews<u8> = FetchNews::Head(status, http_response(404));
        match step_of(head, true) {
            Fetched::Finished(Err(Failure::Crawl(CrawlError::NoSuccessResponse {
                request_url,
                response,
                state,
            }))) => {
                assert_eq!(request_url.unwrap().as_str(), "https://a.b/x");
                assert_eq!(response.status().as_u16(), 404);
                assert_eq!(state, Some(7));
            }
            _ => panic!("the response is not skipped"),
        }
        let head: FetchNews<u8> = FetchNews::Head(status, http_response(404));
        assert!(matches!(step_of(head, false), Fetched::Reading(_, _)));
    }
    for status in [200u16, 204, 299] {
        let head: FetchNews<u8> = FetchNews::Head(status, http_response(200));
        assert!(matches!(step_of(head, true), Fetched::Reading(_, _)));
    }
}

fn step_of(news: FetchNews<u8>, skip: bool) -> Fetched<u32, u8, String> {
    get_response(ticket(), news, skip)
}

fn broken() -> reqwest_middleware::Error {
    reqwest_middleware::Error::Middleware(anyhow::Error::msg("broken"))
}

#[test]
fn a_failed_request_hands_its_state_back() {
    match step_of(FetchNews::Failed(broken()), true) {
        Fetched::Finished(Err(Failure::Crawl(error))) => {
            assert_eq!(error.state(), Some(&7));
            match error {
                CrawlError::FailedRequest { request_url, cause, state } => {
                    assert_eq!(request_url.unwrap().as_str(), "https://a.b/x");
                    assert!(format!("{}", cause).contains("broken"));
                    assert_eq!(state, Some(7));
                }
                _ => panic!("the request did not fail"),
            }
        }
        _ => panic!("the request is not finished"),
    }
    assert!(matches!(
        step_of(FetchNews::Pending(3), true),
        Fetched::Waiting(flight) if matches!(flight.task, FetchTask::Running(3))
    ));
}

#[test]
fn a_domain_without_requests_is_done() {
    let mut domain = domain(false, 3, 2);
    assert!(is_done(domain.step(poll())));
}

#[test]
fn a_domain_refuses_what_lies_too_deep() {
    let mut domain = domain(false, 3, 2);
    assert!(domain.add_request(queued("https://a.b/", 1, 3)).is_ok());
    match domain.add_request(queued("https://a.b/", 2, 4)) {
        Err(CrawlError::ReachedMaxDepth { request, state, depth }) => {
            assert_eq!(request.address().as_str(), "https://a.b/");
            assert_eq!((state, depth), (Some(2), 4));
        }
        _ => panic!("the request is not refused"),
    }
}

#[test]
fn a_domain_sends_reads_and_answers() {
    let mut domain = domain(false, 3, 2);
    domain.add_request(queued("https://a.b/1", 1, 1)).ok().unwrap();
    assert_eq!(sent_to(domain.step(poll())), "https://a.b/1");
    assert!(is_pending(domain.step(pending(1)).into_pending_after(&mut domain)));
    assert_eq!(running(domain.step(poll())), 1);
    let head: FetchNews<u8> = FetchNews::Head(200, http_response(200));
    let read: Asked = domain.step(Signal::Fetch(head));
    assert!(matches!(read, Demand::PollFetch(FetchTask::Read(_))));
    assert_eq!(response_state(domain.step(text("https://a.b/1"))), Some(1));
    assert!(is_done(domain.step(poll())));
}

trait PendingAfter {
    fn into_pending_after(self, domain: &mut AllowedDomain<u32, u8>) -> Asked;
}

impl PendingAfter for Asked {
    /// Answers every look at a request with the same task, until the domain gives something out.
    fn into_pending_after(self, domain: &mut AllowedDomain<u32, u8>) -> Asked {
        let mut demand = self;
        loop {
            demand = match demand {
                Demand::PollFetch(FetchTask::Running(task)) => domain.step(pending(task)),
                other => return other,
            };
        }
    }
}

#[test]
fn a_domain_keeps_its_limit() {
    let mut domain = domain(false, 3, 2);
    for state in 1..5 {
        domain.add_request(queued(&format!("https://a.b/{}", state), state, 1)).ok().unwrap();
    }
    assert_eq!(sent_to(domain.step(poll())), "https://a.b/1");
    assert_eq!(sent_to(domain.step(pending(1))), "https://a.b/2");
    assert_eq!(running(domain.step(pending(2))), 2);
    assert_eq!(running(domain.step(pending(2))), 1);
    assert!(is_pending(domain.step(pending(1))));
    for _ in 0..3 {
        let first = running(domain.step(poll()));
        let second = running(domain.step(pending(first)));
        assert_eq!(first + second, 3);
        assert!(is_pending(domain.step(pending(second))));
    }
    let first = running(domain.step(poll()));
    assert!(response_state(domain.step(text(&format!("https://a.b/{}", first)))).is_some());
    assert_eq!(sent_to(domain.step(poll())), "https://a.b/3");
    let second = running(domain.step(pending(3)));
    assert_eq!(second, 3);
}

#[test]
fn a_domain_without_a_share_of_the_limit_sends_one_request_at_a_time() {
    let mut domain = domain(false, 3, 0);
    domain.add_request(queued("https://a.b/1", 1, 1)).ok().unwrap();
    domain.add_request(queued("https://a.b/2", 2, 1)).ok().unwrap();
    assert_eq!(sent_to(domain.step(poll())), "https://a.b/1");
    assert_eq!(running(domain.step(pending(1))), 1);
    assert!(is_pending(domain.step(pending(1))));
    assert_eq!(running(domain.step(poll())), 1);
    assert_eq!(response_state(domain.step(text("https://a.b/1"))), Some(1));
    assert_eq!(sent_to(domain.step(poll())), "https://a.b/2");
}

#[test]
fn a_request_that_is_answered_at_once_is_given_out_at_once() {
    let mut domain = domain(false, 3, 9);
    domain.add_request(queued("https://a.b/1", 1, 1)).ok().unwrap();
    domain.add_request(queued("https://a.b/2", 2, 1)).ok().unwrap();
    assert_eq!(sent_to(domain.step(poll())), "https://a.b/1");
    assert_eq!(response_state(domain.step(text("https://a.b/1"))), Some(1));
    assert_eq!(sent_to(domain.step(poll())), "https://a.b/2");
}

#[test]
fn a_domain_waits_for_the_robots_txt_and_respects_it() {
    let mut domain = domain(true, 3, 9);
    for (path, state) in [("ok", 1), ("private", 2), ("fine", 3)] {
        domain.add_request(queued(&format!("https://a.b/{}", path), state, 1)).ok().unwrap();
    }
    assert_eq!(robots_at(domain.step(poll())), "https://a.b/robots.txt");
    assert!(is_pending(domain.step(Signal::Robots(RobotsNews::Pending(9)))));
    assert!(matches!(domain.step(poll()), Demand::PollRobots(RobotsTask::Running(9))));
    let news = RobotsNews::Ready(Ok(disallowing("/private")));
    assert_eq!(refused_state(domain.step(Signal::Robots(news))), Some(2));
    assert_eq!(sent_to(domain.step(poll())), "https://a.b/ok");
    assert_eq!(sent_to(domain.step(pending(1))), "https://a.b/fine");
    assert!(domain.add_request(queued("https://a.b/private/2", 4, 1)).is_ok());
    assert_eq!(refused_state(domain.step(pending(3))), Some(4));
}

#[test]
fn requests_go_on_when_the_robots_txt_fails() {
    let mut domain = domain(true, 3, 9);
    domain.add_request(queued("https://a.b/1", 1, 1)).ok().unwrap();
    assert_eq!(robots_at(domain.step(poll())), "https://a.b/robots.txt");
    domain.add_request(queued("https://a.b/2", 2, 1)).ok().unwrap();
    let news = RobotsNews::Ready(Err(Failure::Outside("broken".to_string())));
    assert!(matches!(
        domain.step(Signal::Robots(news)),
        Demand::Yield(Progress::Item(Err(Failure::Crawl(CrawlError::RobotsTxtError { host }))))
            if host == "a.b"
    ));
    assert_eq!(robots_at(domain.step(poll())), "https://a.b/robots.txt");
    let news = RobotsNews::Ready(Err(Failure::Outside("broken".to_string())));
    assert!(matches!(
        domain.step(Signal::Robots(news)),
        Demand::Yield(Progress::Item(Err(Failure::Crawl(CrawlError::RobotsTxtError { .. }))))
    ));
    assert_eq!(sent_to(domain.step(poll())), "https://a.b/1");
    assert_eq!(sent_to(domain.step(pending(1))), "https://a.b/2");
}

#[test]
fn requests_are_held_back_in_their_order_for_one_robots_txt() {
    let mut domain = domain(true, 3, 9);
    for (path, state) in [("x/1?q=1", 1), ("2", 2), ("3", 3)] {
        domain.add_request(queued(&format!("https://a.b:81/{}", path), state, 1)).ok().unwrap();
    }
    assert_eq!(robots_at(domain.step(poll())), "https://a.b:81/robots.txt?q=1");
    assert!(is_pending(domain.step(Signal::Robots(RobotsNews::Pending(9)))));
    assert!(matches!(domain.step(poll()), Demand::PollRobots(RobotsTask::Running(9))));
    let news = RobotsNews::Ready(Ok(RobotsData::allow_all()));
    assert_eq!(sent_to(domain.step(Signal::Robots(news))), "https://a.b:81/x/1?q=1");
    assert_eq!(sent_to(domain.step(pending(1))), "https://a.b:81/2");
    assert_eq!(sent_to(domain.step(pending(2))), "https://a.b:81/3");
}

#[test]
fn a_delay_that_cannot_be_kept_is_found_out_when_it_is_due() {
    let mut domain = domain(false, 3, 9);
    let empty = RequestDelay::random_in_range(Duration::from_secs(2), Duration::from_secs(1));
    assert!(domain.set_delay(empty).is_none());
    domain.add_request(queued("https://a.b/1", 1, 1)).ok().unwrap();
    let timer = match domain.step(poll()) {
        Demand::PollTimer(timer) => timer,
        _ => panic!("the timer is not asked"),
    };
    let early = Signal::<u32, u8, String>::Timer(timer, false);
    assert!(domain.accepts(&early));
    assert!(is_pending(domain.step(early)));
    let timer = match domain.step(poll()) {
        Demand::PollTimer(timer) => timer,
        _ => panic!("the timer is not asked"),
    };
    assert!(!domain.accepts(&Signal::<u32, u8, String>::Timer(timer, true)));
}

#[test]
fn a_domain_keeps_its_delay() {
    let mut domain = domain(false, 3, 9);
    assert!(domain.set_delay(RequestDelay::fixed(Duration::from_secs(60))).is_none());
    domain.add_request(queued("https://a.b/1", 1, 1)).ok().unwrap();
    domain.add_request(queued("https://a.b/2", 2, 1)).ok().unwrap();
    let timer = match domain.step(poll()) {
        Demand::PollTimer(timer) => timer,
        _ => panic!("the timer is not asked"),
    };
    assert!(is_pending(domain.step(Signal::Timer(timer, false))));
    let timer = match domain.step(poll()) {
        Demand::PollTimer(timer) => timer,
        _ => panic!("the timer is not asked"),
    };
    assert_eq!(sent_to(domain.step(Signal::Timer(timer, true))), "https://a.b/1");
    assert!(matches!(domain.step(pending(1)), Demand::PollTimer(_)));
    assert!(domain.remove_delay().is_some());
}

#[test]
fn a_domain_says_which_signals_it_waits_for() {
    let mut domain = domain(true, 3, 9);
    assert!(domain.accepts(&poll()));
    assert!(!domain.accepts(&pending(1)));
    domain.add_request(queued("https://a.b/1", 1, 1)).ok().unwrap();
    assert_eq!(robots_at(domain.step(poll())), "https://a.b/robots.txt");
    assert!(!domain.accepts(&poll()));
    assert!(domain.accepts(&Signal::<u32, u8, String>::Robots(RobotsNews::Pending(1))));
    let mut broken = disallowing("/x");
    broken.groups.clear();
    assert!(!domain.accepts(&Signal::<u32, u8, String>::Robots(RobotsNews::Ready(Ok(broken)))));
}

#[test]
fn an_allow_list_takes_requests_to_its_domains_only() {
    let mut list: AllowList<u32, u8, String> = AllowList::default();
    list.allow("a.b".to_string(), config(false, 3, 2));
    assert!(list.add_request(queued("https://a.b/", 1, 1)).is_ok());
    match list.add_request(queued("https://c.d/", 2, 1)) {
        Err(CrawlError::DisallowedRequest { reason, request, state }) => {
            assert_eq!(reason, DisallowReason::User);
            assert_eq!(request.host_str(), Some(&"c.d".to_string()));
            assert_eq!(state, Some(2));
        }
        _ => panic!("the request is not refused"),
    }
    assert!(matches!(
        list.add_request(queued("file:///x", 3, 1)),
        Err(CrawlError::InvalidRequest { state: Some(3), .. })
    ));
    assert!(matches!(
        list.add_request(queued("https://a.b/", 4, 9)),
        Err(CrawlError::ReachedMaxDepth { state: Some(4), depth: 9, .. })
    ));
    assert!(list.get_domain("a.b").is_some());
    assert!(list.get_domain("c.d").is_none());
    assert!(list.get_domain_mut("a.b").unwrap().remove_delay().is_none());
    assert!(list.get_domain_mut("c.d").is_none());
    assert!(list.disallow("c.d").is_none());
    assert!(list.disallow("a.b").is_some());
    assert!(list.get_domain("a.b").is_none());
    assert!(matches!(
        list.add_request(queued("https://a.b/", 5, 1)),
        Err(CrawlError::DisallowedRequest { .. })
    ));
    assert!(matches!(list.step(poll()), Demand::Yield(Progress::Done)));
}

#[test]
fn an_allow_list_looks_after_every_domain_before_it_answers() {
    let mut list: AllowList<u32, u8, String> = AllowList::default();
    for name in ["a.b", "c.d"] {
        list.allow(name.to_string(), config(false, 3, 9));
    }
    assert!(list.accepts(&poll()));
    list.add_request(queued("https://a.b/1", 1, 1)).ok().unwrap();
    list.add_request(queued("https://c.d/2", 2, 1)).ok().unwrap();
    assert_eq!(sent_to(list.step(poll())), "https://c.d/2");
    assert!(!list.accepts(&poll()));
    assert_eq!(sent_to(list.step(text("https://c.d/2"))), "https://a.b/1");
    assert_eq!(response_state(list.step(text("https://a.b/1"))), Some(2));
    assert_eq!(response_state(list.step(poll())), Some(1));
    assert!(is_done(list.step(poll())));
}

#[test]
fn an_allow_list_is_pending_while_a_domain_is() {
    let mut list: AllowList<u32, u8, String> = AllowList::default();
    for name in ["a.b", "c.d"] {
        list.allow(name.to_string(), config(false, 3, 9));
    }
    list.add_request(queued("https://c.d/2", 2, 1)).ok().unwrap();
    assert_eq!(sent_to(list.step(poll())), "https://c.d/2");
    assert_eq!(running(list.step(pending(4))), 4);
    assert!(is_pending(list.step(pending(4))));
    assert_eq!(running(list.step(poll())), 4);
    assert_eq!(response_state(list.step(text("https://c.d/2"))), Some(2));
}

#[test]
fn a_block_list_refuses_blocked_domains() {
    let mut list = block_list(&["a.b"], false, 2);
    assert!(matches!(
        list.add_request(queued("https://a.b/", 1, 1)),
        Err(CrawlError::DisallowedRequest { reason: DisallowReason::User, state: Some(1), .. })
    ));
    assert!(matches!(
        list.add_request(queued("file:///x", 2, 1)),
        Err(CrawlError::InvalidRequest { state: Some(2), .. })
    ));
    assert!(matches!(
        list.add_request(queued("https://a.b/", 3, 4)),
        Err(CrawlError::ReachedMaxDepth { state: Some(3), depth: 4, .. })
    ));
    assert!(list.add_request(queued("https://c.d/", 4, 3)).is_ok());
    list.disallow("c.d");
    assert!(list.add_request(queued("https://c.d/", 5, 3)).is_err());
    list.allow("a.b");
    assert!(list.add_request(queued("https://a.b/", 6, 3)).is_ok());
}

#[test]
fn a_block_list_starts_requests_and_looks_after_them() {
    let mut list = block_list(&[], false, 2);
    for state in 1..5 {
        list.add_request(queued(&format!("https://a.b/{}", state), state, 1)).ok().unwrap();
    }
    assert_eq!(sent_to(list.step(poll())), "https://a.b/2");
    assert_eq!(sent_to(list.step(pending(2))), "https://a.b/1");
    assert!(is_pending(list.step(pending(1))));
    assert_eq!(running(list.step(poll())), 1);
    assert_eq!(response_state(list.step(text("https://a.b/1"))), Some(1));
    assert_eq!(sent_to(list.step(poll())), "https://a.b/3");
}

#[test]
fn a_block_list_keeps_its_limit() {
    for limit in [0, 1] {
        let mut list = block_list(&[], false, limit);
        for state in 1..4 {
            list.add_request(queued(&format!("https://a.b/{}", state), state, 1)).ok().unwrap();
        }
        assert_eq!(sent_to(list.step(poll())), "https://a.b/1");
        assert!(is_pending(list.step(pending(1))));
        for _ in 0..3 {
            assert_eq!(running(list.step(poll())), 1);
            assert!(is_pending(list.step(pending(1))));
        }
        assert_eq!(running(list.step(poll())), 1);
        assert_eq!(response_state(list.step(text("https://a.b/1"))), Some(1));
        assert_eq!(sent_to(list.step(poll())), "https://a.b/2");
    }
}

#[test]
fn a_block_list_asks_for_the_robots_txt_of_each_host() {
    let mut list = block_list(&[], true, 9);
    list.add_request(queued("https://a.b/private", 1, 1)).ok().unwrap();
    list.add_request(queued("https://c.d/open", 2, 1)).ok().unwrap();
    assert_eq!(robots_at(list.step(poll())), "https://c.d/robots.txt");
    let news = RobotsNews::Ready(Ok(RobotsData::allow_all()));
    assert_eq!(robots_at(list.step(Signal::Robots(news))), "https://a.b/robots.txt");
    let news = RobotsNews::Ready(Ok(disallowing("/private")));
    assert_eq!(refused_state(list.step(Signal::Robots(news))), Some(1));
    assert_eq!(sent_to(list.step(poll())), "https://c.d/open");
    assert!(is_pending(list.step(pending(1))));
}

#[test]
fn a_block_list_tells_to_wait_only_once_the_robots_txt_is_asked_for() {
    let mut list = block_list(&[], true, 9);
    list.add_request(queued("https://a.b/1", 1, 1)).ok().unwrap();
    list.add_request(queued("https://c.d/2", 2, 1)).ok().unwrap();
    assert_eq!(robots_at(list.step(poll())), "https://c.d/robots.txt");
    assert!(list.accepts(&Signal::<u32, u8, String>::Robots(RobotsNews::Pending(2))));
    let asked = list.step(Signal::Robots(RobotsNews::Pending(2)));
    assert_eq!(robots_at(asked), "https://a.b/robots.txt");
    assert!(is_pending(list.step(Signal::Robots(RobotsNews::Pending(1)))));
    assert!(matches!(list.step(poll()), Demand::PollRobots(RobotsTask::Running(1))));
    let news: RobotsNews<u32, u8, String> = RobotsNews::Ready(Ok(RobotsData::allow_all()));
    assert!(matches!(
        list.step(Signal::Robots(news)),
        Demand::PollRobots(RobotsTask::Running(2))
    ));
    let asked = list.step(Signal::Robots(RobotsNews::Pending(2)));
    assert_eq!(robots_at(asked), "https://c.d/robots.txt");
    assert_eq!(sent_to(list.step(Signal::Robots(RobotsNews::Pending(3)))), "https://a.b/1");
    assert!(is_pending(list.step(pending(1))));
}

#[test]
fn a_block_list_starts_what_a_robots_txt_allows_that_came_at_once() {
    let mut list = block_list(&[], true, 9);
    list.add_request(queued("https://a.b/1", 1, 1)).ok().unwrap();
    list.add_request(queued("https://c.d/2", 2, 1)).ok().unwrap();
    assert_eq!(robots_at(list.step(poll())), "https://c.d/robots.txt");
    let news = RobotsNews::Ready(Ok(RobotsData::allow_all()));
    assert_eq!(robots_at(list.step(Signal::Robots(news))), "https://a.b/robots.txt");
    let asked = list.step(Signal::Robots(RobotsNews::Pending(1)));
    assert_eq!(robots_at(asked), "https://a.b/robots.txt");
    assert_eq!(sent_to(list.step(Signal::Robots(RobotsNews::Pending(4)))), "https://c.d/2");
    assert!(is_pending(list.step(pending(2))));
}

#[test]
fn a_block_list_names_the_host_whose_robots_txt_failed() {
    let mut list = block_list(&[], true, 9);
    list.add_request(queued("https://a.b/1", 1, 1)).ok().unwrap();
    assert_eq!(robots_at(list.step(poll())), "https://a.b/robots.txt");
    let news = RobotsNews::Ready(Err(Failure::Outside("broken".to_string())));
    assert!(matches!(
        list.step(Signal::Robots(news)),
        Demand::Yield(Progress::Item(Err(Failure::Crawl(CrawlError::RobotsTxtError { host }))))
            if host == "a.b"
    ));
    assert_eq!(robots_at(list.step(poll())), "https://a.b/robots.txt");
}

#[test]
fn a_block_list_keeps_its_delay() {
    let mut list = block_list(&[], false, 9);
    assert!(list.set_delay(RequestDelay::fixed(Duration::from_secs(60))).is_none());
    list.add_request(queued("https://a.b/1", 1, 1)).ok().unwrap();
    let timer = match list.step(poll()) {
        Demand::PollTimer(timer) => timer,
        _ => panic!("the timer is not asked"),
    };
    assert!(list.accepts(&Signal::<u32, u8, String>::Timer(timer, false)));
    assert!(list.remove_delay().is_some());
}

#[test]
fn a_listing_hands_requests_to_its_list() {
    let mut listing: DomainListing<u32, u8, String> =
        DomainListing::BlockList(block_list(&["a.b"], false, 9));
    let build = |url: &str, state| QueuedRequestBuilder {
        request: client().request(reqwest::Method::GET, url),
        state: Some(state),
        depth: 1,
    };
    assert!(matches!(
        listing.add_request(build("https://a.b/", 1)),
        Err(CrawlError::DisallowedRequest { state: Some(1), .. })
    ));
    assert!(listing.add_request(build("https://c.d/", 2)).is_ok());
    assert!(matches!(
        listing.add_request(build("no address", 3)),
        Err(CrawlError::FailedToBuildRequest { state: Some(3), depth: 1, .. })
    ));
    assert!(listing.accepts(&poll()));
    assert_eq!(sent_to(listing.step(poll())), "https://c.d/");
    let (items, demand) = listing.drain(text("https://c.d/"));
    assert_eq!(items.len(), 1);
    assert!(is_done(demand));
}

#[test]
fn a_listing_gives_all_refusals_at_once() {
    let mut listing: DomainListing<u32, u8, String> =
        DomainListing::BlockList(block_list(&[], true, 9));
    for state in 1..4 {
        let request = queued("https://a.b/private", state, 1);
        listing.add_built(Ok(request.request), request.state, 1).ok().unwrap();
    }
    let mut demand = listing.step(poll());
    while let Demand::PollRobots(RobotsTask::Fetch(_, _)) = demand {
        demand = listing.step(Signal::Robots(RobotsNews::Ready(Ok(disallowing("/private")))));
    }
    assert_eq!(refused_state(demand), Some(1));
    let (items, demand) = listing.drain(poll());
    assert_eq!(items.len(), 2);
    assert!(is_done(demand));
}
