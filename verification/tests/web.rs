use voyager::error::{CrawlError, DisallowReason, Failure, UnexpectedStatusError};
use voyager::number::parse_u64;
use voyager::response::Response;
use voyager::string_map::StringMap;
use voyager::web::{PageRequest, Url};

fn request(url: &str) -> PageRequest {
    let client = reqwest_middleware::ClientBuilder::new(reqwest::Client::new()).build();
    PageRequest::new(client.request(reqwest::Method::GET, url).build().unwrap())
}

fn url(text: &str) -> Url {
    Url::new(text.to_string())
}

#[test]
fn an_address_has_a_host_and_a_path() {
    let page = url("https://news.ycombinator.com/item?id=1#top");
    assert_eq!(page.as_str(), "https://news.ycombinator.com/item?id=1#top");
    assert_eq!(page.host_str(), Some("news.ycombinator.com".to_string()));
    assert_eq!(page.path(), Some("/item".to_string()));
    assert_eq!(page.clone().as_str(), page.as_str());
}

#[test]
fn a_text_that_is_no_address_has_neither() {
    let page = url("no address");
    assert_eq!(page.host_str(), None);
    assert_eq!(page.path(), None);
    assert_eq!(page.robots_txt().as_str(), "no address");
}

#[test]
fn an_address_without_host_has_a_path_only() {
    let page = url("mailto:someone");
    assert_eq!(page.host_str(), None);
    assert_eq!(page.path(), Some("someone".to_string()));
}

#[test]
fn the_robots_txt_lies_at_the_root_of_the_host() {
    let robots = url("https://a.b:8080/x/y?q=1").robots_txt();
    assert_eq!(robots.as_str(), "https://a.b:8080/robots.txt?q=1");
    let robots = url("https://a.b").robots_txt();
    assert_eq!(robots.as_str(), "https://a.b/robots.txt");
    let robots = url("https://a.b/x?q=1?2#top?#").robots_txt();
    assert_eq!(robots.as_str(), "https://a.b/robots.txt?q=1?2#top?#");
    let robots = url("https://a.b#top").robots_txt();
    assert_eq!(robots.as_str(), "https://a.b/robots.txt#top");
    let long = format!("https://a.b/{}?{}", "x".repeat(70_000), "y".repeat(70_000));
    let robots = url(&long).robots_txt();
    assert_eq!(robots.as_str(), format!("https://a.b/robots.txt?{}", "y".repeat(70_000)));
}

#[test]
fn a_request_shows_its_address_and_its_host() {
    let page = request("https://a.b/x");
    assert_eq!(page.address().as_str(), "https://a.b/x");
    assert_eq!(page.host_str(), Some(&"a.b".to_string()));
    assert_eq!(page.agent(), None);
    let (inner, address) = page.into_parts();
    assert_eq!(inner.url().as_str(), "https://a.b/x");
    assert_eq!(address.as_str(), "https://a.b/x");
    let address = reqwest::Url::parse("file:///x").unwrap();
    let inner = reqwest::Request::new(reqwest::Method::GET, address);
    assert_eq!(PageRequest::new(inner).host_str(), None);
}

#[test]
fn a_request_shows_its_agent_if_it_is_text() {
    let client = reqwest_middleware::ClientBuilder::new(reqwest::Client::new()).build();
    let with = |value: &[u8]| {
        let value = reqwest::header::HeaderValue::from_bytes(value).unwrap();
        PageRequest::new(
            client
                .request(reqwest::Method::GET, "https://a.b/")
                .header(reqwest::header::USER_AGENT, value)
                .build()
                .unwrap(),
        )
        .agent()
    };
    assert_eq!(with(b"walker/1.0"), Some("walker/1.0".to_string()));
    assert_eq!(with(b""), Some(String::new()));
    assert_eq!(with(b"walk\ter"), Some("walk\ter".to_string()));
    assert_eq!(with(b"walk\xe4r"), None);
}

#[test]
fn a_response_is_parsed_as_html() {
    let response: Response<()> = Response {
        depth: 1,
        request_url: url("https://a.b/"),
        response_url: url("https://a.b/"),
        response_status: 200,
        response_headers: reqwest::header::HeaderMap::new(),
        text: "<html><body><p id='x'>hello</p></body></html>".to_string(),
        state: None,
    };
    let selector = voyager::scraper::Selector::parse("p").unwrap();
    assert!(response.is_parsable());
    let html = response.html();
    let found: Vec<String> = html.select(&selector).map(|element| element.inner_html()).collect();
    assert_eq!(found, vec!["hello".to_string()]);
    let ids: Vec<Option<&str>> =
        html.select(&selector).map(|element| element.value().attr("id")).collect();
    assert_eq!(ids, vec![Some("x")]);
}

#[test]
fn every_error_hands_its_state_back() {
    let built = reqwest::Client::new().get("no address").build().err().unwrap();
    let errors: Vec<CrawlError<u32>> = vec![
        CrawlError::NoSuccessResponse {
            request_url: Some(url("https://a.b/")),
            response: reqwest::Response::from(http::Response::new("")),
            state: Some(7),
        },
        CrawlError::FailedRequest {
            request_url: Some(url("https://a.b/")),
            cause: reqwest_middleware::Error::Middleware(anyhow::Error::msg("broken")),
            state: Some(7),
        },
        CrawlError::FailedToBuildRequest { error: built, state: Some(7), depth: 1 },
        CrawlError::InvalidRequest { request: request("https://a.b/"), state: Some(7) },
        CrawlError::ReachedMaxDepth { request: request("https://a.b/"), state: Some(7), depth: 3 },
        CrawlError::DisallowedRequest {
            reason: DisallowReason::User,
            request: request("https://a.b/"),
            state: Some(7),
        },
    ];
    for error in errors {
        assert_eq!(error.state(), Some(&7));
        assert_eq!(error.into_state(), Some(7));
    }
    let error: CrawlError<u32> = CrawlError::RobotsTxtError { host: "a.b".to_string() };
    assert_eq!(error.state(), None);
    assert_eq!(error.into_state(), None);
    let bare: CrawlError<u32> =
        CrawlError::InvalidRequest { request: request("https://a.b/"), state: None };
    assert_eq!(bare.into_state(), None);
}

#[test]
fn reasons_are_put_into_words() {
    assert_eq!(DisallowReason::RobotsTxt.message(), "URL blocked by robots.txt");
    assert_eq!(DisallowReason::User.message(), "URL blocked by user config");
}

#[test]
fn an_unexpected_status_is_remembered() {
    let error = UnexpectedStatusError::new(302);
    assert_eq!(error.status(), 302);
    let failure: Failure<(), ()> = Failure::UnexpectedStatus(error);
    assert!(matches!(failure, Failure::UnexpectedStatus(error) if error.status() == 302));
}

#[test]
fn numbers_are_read_as_they_are_written() {
    assert_eq!(parse_u64("0"), Some(0));
    assert_eq!(parse_u64("0042"), Some(42));
    assert_eq!(parse_u64("+7"), Some(7));
    assert_eq!(parse_u64("18446744073709551615"), Some(u64::MAX));
    assert_eq!(parse_u64("18446744073709551616"), None);
    for text in ["", "+", "-1", "1.5", " 1", "1 ", "++1", "x", "\u{661}"] {
        assert_eq!(parse_u64(text), None);
        assert_eq!(parse_u64(text), text.parse::<u64>().ok());
    }
}

#[test]
fn a_string_map_keeps_one_value_for_each_key() {
    let mut map: StringMap<u32> = StringMap::new();
    assert!(map.is_empty());
    map.insert("a".to_string(), 1);
    map.insert("b".to_string(), 2);
    map.insert("a".to_string(), 3);
    assert_eq!(map.len(), 2);
    assert_eq!(map.get("a"), Some(&3));
    assert_eq!(map.key_at(0), "a");
    assert_eq!(map.value_at(1), &2);
    assert_eq!(map.position("b"), Some(1));
    *map.get_mut("b").unwrap() = 5;
    assert_eq!(map.clone().get("b"), Some(&5));
    assert!(map.contains_key("a") && !map.contains_key("c"));
    assert_eq!(map.remove("a"), Some(3));
    assert_eq!(map.remove("a"), None);
    assert_eq!(map.len(), 1);
    assert!(map.get_mut("a").is_none());
}
