use voyager::error::UnexpectedStatusError;
use voyager::robots::{Group, RobotsData, RobotsHandler, Rule};
use voyager::robots_txt::{can_read, parse_robotstxt, Directive};
use voyager::web::PageRequest;

fn request(url: &str) -> PageRequest {
    let client = reqwest_middleware::ClientBuilder::new(reqwest::Client::new()).build();
    PageRequest::new(client.request(reqwest::Method::GET, url).build().unwrap())
}

fn request_by(url: &str, agent: &str) -> PageRequest {
    let client = reqwest_middleware::ClientBuilder::new(reqwest::Client::new()).build();
    PageRequest::new(
        client
            .request(reqwest::Method::GET, url)
            .header(reqwest::header::USER_AGENT, agent)
            .build()
            .unwrap(),
    )
}

fn read(text: &str) -> RobotsData {
    let mut handler = RobotsHandler::default();
    handler.handle_directives(&parse_robotstxt(text), &vec![]);
    handler.finish()
}

#[test]
fn robots_disallow_all() {
    let mut handler = RobotsHandler::default();
    let directives = parse_robotstxt(
        "User-Agent: *
Disallow: /",
    );
    handler.handle_directives(&directives, &vec![]);
    let data = handler.finish();
    assert_eq!(data.groups.len(), 1);

    let request = request("https://old.reddit.com/r/rust");
    assert!(!data.is_not_disallowed(&request))
}

#[test]
fn empty_robots() {
    let mut handler = RobotsHandler::default();
    handler.handle_directives(&parse_robotstxt(""), &vec![]);
    let data = handler.finish();

    let request = request("https://old.reddit.com/r/rust");
    assert!(data.is_not_disallowed(&request))
}

#[test]
fn robots_path_rule() {
    let mut handler = RobotsHandler::default();
    let directives = parse_robotstxt(
        "User-Agent: *
Disallow: /r/rust",
    );
    handler.handle_directives(&directives, &vec![]);
    let data = handler.finish();

    let request = request("https://old.reddit.com/r/crust");
    assert!(data.is_not_disallowed(&request))
}

#[test]
fn a_path_rule_holds_below_its_path() {
    let data = read("User-Agent: *\nDisallow: /r/rust");
    assert!(!data.is_not_disallowed(&request("https://old.reddit.com/r/rust")));
    assert!(!data.is_not_disallowed(&request("https://old.reddit.com/r/rust/top")));
    assert!(data.is_not_disallowed(&request("https://old.reddit.com/")));
}

#[test]
fn allow_all_permits_everything() {
    let data = RobotsData::allow_all();
    assert!(data.allow_all);
    assert!(!data.disallow_all);
    assert!(data.is_well_formed());
    assert!(data.is_not_disallowed(&request("https://old.reddit.com/r/rust")));
    assert!(data.is_not_disallowed(&request_by("https://a.b/c", "nobody")));
}

#[test]
fn disallow_all_permits_nothing() {
    let data = RobotsData::disallow_all();
    assert!(!data.allow_all);
    assert!(data.disallow_all);
    assert!(!data.is_not_disallowed(&request("https://old.reddit.com/r/rust")));
    assert!(!data.is_not_disallowed(&request_by("https://a.b/c", "nobody")));
}

#[test]
fn rules_hold_for_the_agent_they_name() {
    let data = read("User-agent: walker\nDisallow: /private\n\nUser-agent: *\nDisallow: /admin");
    assert_eq!(data.groups.len(), 2);
    assert!(!data.is_not_disallowed(&request_by("https://a.b/private", "walker")));
    assert!(data.is_not_disallowed(&request_by("https://a.b/admin", "walker")));
    assert!(data.is_not_disallowed(&request_by("https://a.b/private", "runner")));
    assert!(!data.is_not_disallowed(&request_by("https://a.b/admin", "runner")));
    assert!(data.is_not_disallowed(&request("https://a.b/private")));
    assert!(!data.is_not_disallowed(&request("https://a.b/admin")));
}

#[test]
fn the_wildcard_decides_for_an_agent_that_is_not_listed() {
    let data = read("User-Agent: *\nDisallow: /");
    assert!(!data.is_not_disallowed(&request_by("https://old.reddit.com/r/rust", "mybot")));
    let data = read("User-agent: walker\nDisallow: /");
    assert!(data.is_not_disallowed(&request_by("https://old.reddit.com/r/rust", "mybot")));
}

#[test]
fn agents_share_the_rules_that_follow_them() {
    let data = read("User-agent: a\nUser-agent: b\nDisallow: /x\nAllow: /x/y\nUser-agent: c");
    assert_eq!(data.groups.len(), 1);
    assert_eq!(data.groups[0].rules().len(), 2);
    assert_eq!(data.denied_patterns("a"), vec!["/x".to_string()]);
    assert_eq!(data.denied_patterns("b"), vec!["/x".to_string()]);
    assert_eq!(data.denied_patterns("c"), Vec::<String>::new());
    assert!(!data.is_not_disallowed(&request_by("https://a.b/x/y", "b")));
}

#[test]
fn an_agent_may_have_several_groups() {
    let data = read("User-agent: a\nDisallow: /x\nUser-agent: b\nDisallow: /y\nUser-agent: a\nDisallow: /z");
    assert_eq!(data.groups.len(), 3);
    assert_eq!(data.denied_patterns("a"), vec!["/x".to_string(), "/z".to_string()]);
    assert_eq!(data.group_agents.get("a").unwrap(), &vec![0, 2]);
    assert_eq!(data.group_agents.get("b").unwrap(), &vec![1]);
    assert!(data.group_agents.get("c").is_none());
}

#[test]
fn an_empty_rule_counts_for_nothing() {
    let data = read("User-agent: *\nDisallow:\n");
    assert_eq!(data.groups.len(), 0);
    assert!(data.is_not_disallowed(&request("https://a.b/x")));
}

#[test]
fn a_crawl_delay_is_read_within_a_group() {
    let data = read("User-agent: *\nDisallow: /x\nCrawl-delay: 7\n");
    let delay = data.groups[0].crawl_delay().unwrap();
    assert_eq!((delay.as_secs(), delay.subsec_nanos()), (7, 0));

    let data = read("User-agent: *\nDisallow: /x\nCRAWLDELAY: 1002\n");
    let delay = data.groups[0].crawl_delay().unwrap();
    assert_eq!((delay.as_secs(), delay.subsec_nanos()), (2, 0));

    let data = read("User-agent: *\nDisallow: /x\nCrawl-delay: soon\n");
    assert!(data.groups[0].crawl_delay().is_none());
}

#[test]
fn a_fraction_of_a_second_comes_from_outside() {
    let directives = parse_robotstxt("User-agent: *\nDisallow: /x\nCrawl-delay: 1.5\n");
    let mut handler = RobotsHandler::default();
    handler.handle_directives(&directives, &vec![None, None, Some(1500)]);
    let data = handler.finish();
    let delay = data.groups[0].crawl_delay().unwrap();
    assert_eq!((delay.as_secs(), delay.subsec_nanos()), (1, 500_000_000));
}

#[test]
fn directives_come_in_order_with_their_lines() {
    let directives = parse_robotstxt("User-agent: a\nAllow: /x\nDisallow: /y\nSitemap: s\nHost: h\n");
    assert_eq!(directives.len(), 5);
    assert!(matches!(&directives[0], Directive::UserAgent(1, value) if value == "a"));
    assert!(matches!(&directives[1], Directive::Allow(2, value) if value == "/x"));
    assert!(matches!(&directives[2], Directive::Disallow(3, value) if value == "/y"));
    assert!(matches!(&directives[3], Directive::Sitemap(4, value) if value == "s"));
    assert!(matches!(&directives[4], Directive::Unknown(5, key, value) if key == "Host" && value == "h"));
}

#[test]
fn ordinary_texts_are_readable() {
    assert!(can_read(""));
    assert!(can_read("User-agent: *\nDisallow: /r/rüst\n"));
    let plain = format!("Disallow: /{}\n\u{e4}\n", "x".repeat(20_000));
    assert!(can_read(&plain));
}

#[test]
fn a_text_is_readable_unless_a_line_is_cut_within_a_character() {
    let long = format!("{}\u{e4}\nDisallow: /x", "x".repeat(16_663));
    assert!(can_read(&long));
    assert!(matches!(
        &parse_robotstxt(&long)[..],
        [Directive::Disallow(2, value)] if value == "/"
    ));
    let short = format!("{}\u{e4}\u{e4}\nDisallow: /x", "x".repeat(16_662));
    assert!(can_read(&short));
    parse_robotstxt(&short);
    let cut = format!("{}\u{20ac}\nDisallow: /x", "x".repeat(16_663));
    assert!(!can_read(&cut));
    let lost = format!("{}\u{e4}\n\u{e4}\nx", "x".repeat(16_663));
    assert!(!can_read(&lost));
    let marked = format!("\u{ef}\u{bb}\u{bf}User-agent: a\r\nDisallow: /\u{e4}");
    assert!(can_read(&marked));
    assert_eq!(parse_robotstxt(&marked).len(), 2);
}

#[test]
fn the_status_of_the_response_decides() {
    let text = "User-agent: *\nDisallow: /x";
    let read = RobotsHandler::from_response(200, text, &vec![]).unwrap();
    assert!(!read.allow_all && !read.disallow_all);
    assert!(!read.is_not_disallowed(&request("https://a.b/x")));
    assert!(read.is_not_disallowed(&request("https://a.b/y")));
    assert!(!RobotsHandler::from_response(299, text, &vec![]).unwrap().allow_all);
    assert!(RobotsHandler::from_response(400, text, &vec![]).unwrap().allow_all);
    assert!(RobotsHandler::from_response(404, "", &vec![]).unwrap().allow_all);
    assert!(RobotsHandler::from_response(499, text, &vec![]).unwrap().allow_all);
    assert!(RobotsHandler::from_response(500, text, &vec![]).unwrap().disallow_all);
    assert!(RobotsHandler::from_response(599, text, &vec![]).unwrap().disallow_all);
    for status in [100u16, 199, 300, 304, 399, 600, 999] {
        let error = RobotsHandler::from_response(status, text, &vec![]).err().unwrap();
        assert_eq!(error, UnexpectedStatusError::new(status));
        assert_eq!(error.status(), status);
    }
}

#[test]
fn rules_are_either_allowing_or_disallowing() {
    let allow = Rule::allow("/a".to_string());
    assert!(allow.is_allow() && !allow.is_disallow());
    assert_eq!(allow.pattern(), "/a");
    let disallow = Rule::disallow("/b".to_string());
    assert!(!disallow.is_allow() && disallow.is_disallow());
    assert_eq!(disallow.clone().pattern(), "/b");
}

#[test]
fn a_fresh_group_is_empty() {
    let group = Group::default();
    assert!(group.crawl_delay().is_none());
    assert_eq!(group.rules().len(), 0);
}

#[test]
fn copies_of_data_and_handler_are_alike() {
    let mut handler = RobotsHandler::default();
    handler.handle_directives(
        &parse_robotstxt("User-agent: a\nDisallow: /x\nUser-agent: b\nDisallow: /y"),
        &vec![],
    );
    let copy = handler.clone();
    let data = handler.finish();
    let other = copy.finish();
    for data in [data.clone(), other] {
        assert_eq!(data.groups.len(), 2);
        assert_eq!(data.denied_patterns("a"), vec!["/x".to_string()]);
        assert_eq!(data.denied_patterns("b"), vec!["/y".to_string()]);
    }
}

#[test]
fn data_with_a_missing_group_is_not_well_formed() {
    let mut data = read("User-agent: a\nDisallow: /x");
    assert!(data.is_well_formed());
    data.groups.clear();
    assert!(!data.is_well_formed());
    assert!(!data.has_groups());
    data.allow_all = true;
    assert!(data.is_well_formed());
    assert!(data.is_not_disallowed(&request_by("https://a.b/x", "a")));
    data.disallow_all = true;
    assert!(data.is_well_formed());
    assert!(!data.is_not_disallowed(&request_by("https://a.b/x", "a")));
    assert!(!data.has_groups());
}

#[test]
fn a_path_that_starts_with_two_slashes_names_no_host_again() {
    let data = read("User-agent: *\nDisallow: /b");
    assert!(!data.is_not_disallowed(&request("https://h.i//a/b")));
    assert!(data.is_not_disallowed(&request("https://h.i/a/b")));
    assert!(!data.is_not_disallowed(&request("https://h.i/b;x")));
}

#[test]
fn patterns_may_hold_wildcards() {
    let data = read("User-agent: *\nDisallow: /*.pdf$");
    assert!(!data.is_not_disallowed(&request("https://a.b/x/y.pdf")));
    assert!(data.is_not_disallowed(&request("https://a.b/x/y.pdf2")));
}

#[test]
fn a_handler_takes_lines_one_by_one() {
    let mut handler = RobotsHandler::default();
    handler.handle_robots_start();
    handler.handle_unknown_action(1, "crawl-delay", "5", None);
    handler.handle_user_agent(2, "a");
    handler.handle_allow(3, "/x");
    handler.handle_disallow(4, "");
    handler.handle_disallow(5, "/y");
    handler.handle_sitemap(6, "https://a.b/sitemap");
    handler.handle_unknown_action(7, "Crawl-Delay", "2", Some(9000));
    handler.handle_key("crawl-delay", "nothing", None);
    handler.handle_key("host", "3", Some(3));
    handler.handle(&Directive::Disallow(8, "/z".to_string()), None);
    handler.handle_robots_end();
    let data = handler.finish();
    assert_eq!(data.groups.len(), 1);
    let delay = data.groups[0].crawl_delay().unwrap();
    assert_eq!((delay.as_secs(), delay.subsec_nanos()), (2, 0));
    let patterns: Vec<&str> =
        data.groups[0].rules().iter().map(|rule| rule.pattern().as_str()).collect();
    assert_eq!(patterns, vec!["/x", "/y", "/z"]);
    assert_eq!(data.denied_patterns("a"), vec!["/y".to_string(), "/z".to_string()]);
}

#[test]
fn rules_without_an_agent_are_for_nobody() {
    let data = read("Disallow: /\n");
    assert_eq!(data.groups.len(), 1);
    assert!(data.group_agents.is_empty());
    assert!(data.is_not_disallowed(&request("https://a.b/")));
}
