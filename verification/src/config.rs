//! How a crawler is configured.
use crate::requests::RequestDelay;
use crate::string_map::StringMap;
use reqwest_middleware::ClientWithMiddleware;
use std::sync::Arc;
use vstd::hash_set::StringHashSet;
use vstd::prelude::*;

verus! {

/// How many requests are executed concurrently, unless the config says otherwise.
pub const MAX_CONCURRENT_REQUESTS: usize = 100;

/// Configure a `Collector` and its `Crawler`.
pub struct CrawlerConfig {
    /// Limits the recursion depth of visited URLs.
    max_depth: Option<usize>,
    /// Limits how many requests execute concurrently.
    ///
    /// Default is `MAX_CONCURRENT_REQUESTS`.
    max_requests: Option<usize>,
    /// Whether to ignore responses with a non 2xx response code.
    skip_non_successful_responses: bool,
    /// Domain whitelist, if empty any domains are allowed to visit.
    allowed_domains: StringMap<Option<RequestDelay>>,
    /// Domain blacklist.
    disallowed_domains: StringHashSet,
    /// Respects any restrictions set by the target host's robots.txt file. See
    /// <http://www.robotstxt.org/> for more information.
    respect_robots_txt: bool,
    /// The client that will be used to send the requests.
    client: Option<ClientWithMiddleware>,
}

/// What a [CrawlerConfig] says.
#[verifier::ext_equal]
pub struct ConfigState {
    /// The maximum depth of a request.
    pub max_depth: Option<usize>,
    /// The number of requests that are executed concurrently.
    pub max_requests: Option<usize>,
    /// Whether responses that were not successful are skipped.
    pub skip_non_successful_responses: bool,
    /// The domains that requests may go to, each with its delay.
    pub allowed: Map<Seq<char>, Option<RequestDelay>>,
    /// The domains that requests may not go to.
    pub disallowed: Set<Seq<char>>,
    /// Whether the `robots.txt` is respected.
    pub respect_robots_txt: bool,
    /// The client that sends the requests.
    pub client: Option<ClientWithMiddleware>,
}

/// The config as it is put to use: every setting, with the default where nothing was set.
pub struct CrawlerSettings {
    /// The maximum depth of a request.
    pub max_depth: usize,
    /// The number of requests that are executed concurrently.
    pub max_requests: usize,
    /// Whether responses that were not successful are skipped.
    pub skip_non_successful_responses: bool,
    /// The domains that requests may go to, each with its delay.
    pub allowed_domains: StringMap<Option<RequestDelay>>,
    /// The domains that requests may not go to.
    pub disallowed_domains: StringHashSet,
    /// Whether the `robots.txt` is respected.
    pub respect_robots_txt: bool,
    /// The client that sends the requests, if one was set.
    pub client: Option<ClientWithMiddleware>,
}

/// The names as texts.
pub open spec fn name_texts(names: Seq<&str>) -> Seq<Seq<char>> {
    names.map_values(|name: &str| name@)
}

/// The allowed domains with more of them, none of which has a delay.
pub open spec fn allowing_all(
    allowed: Map<Seq<char>, Option<RequestDelay>>,
    names: Seq<Seq<char>>,
) -> Map<Seq<char>, Option<RequestDelay>> {
    Map::new(
        |name: Seq<char>| allowed.contains_key(name) || names.contains(name),
        |name: Seq<char>|
            if names.contains(name) {
                None
            } else {
                allowed[name]
            },
    )
}

/// The allowed domains with more of them; the last delay of a domain counts.
pub open spec fn allowing_with_delays(
    allowed: Map<Seq<char>, Option<RequestDelay>>,
    domains: Seq<(&str, RequestDelay)>,
) -> Map<Seq<char>, Option<RequestDelay>>
    decreases domains.len(),
{
    if domains.len() == 0 {
        allowed
    } else {
        let (name, delay) = domains.last();
        allowing_with_delays(allowed, domains.drop_last()).insert(name@, Some(delay))
    }
}

impl ConfigState {
    /// The config that nothing was set in.
    pub open spec fn standard() -> ConfigState {
        ConfigState {
            max_depth: None,
            max_requests: None,
            skip_non_successful_responses: true,
            allowed: Map::empty(),
            disallowed: Set::empty(),
            respect_robots_txt: false,
            client: None,
        }
    }

    /// The maximum depth of a request; without a limit, any depth.
    pub open spec fn depth_limit(self) -> usize {
        match self.max_depth {
            Some(max_depth) => max_depth,
            None => usize::MAX,
        }
    }

    /// The number of requests that are executed concurrently.
    pub open spec fn request_limit(self) -> usize {
        match self.max_requests {
            Some(max_requests) => max_requests,
            None => MAX_CONCURRENT_REQUESTS,
        }
    }
}

impl View for CrawlerConfig {
    type V = ConfigState;

    closed spec fn view(&self) -> ConfigState {
        ConfigState {
            max_depth: self.max_depth,
            max_requests: self.max_requests,
            skip_non_successful_responses: self.skip_non_successful_responses,
            allowed: self.allowed_domains@,
            disallowed: self.disallowed_domains@,
            respect_robots_txt: self.respect_robots_txt,
            client: self.client,
        }
    }
}

impl Default for CrawlerConfig {
    fn default() -> (config: Self)
        ensures
            config@ == ConfigState::standard(),
    {
        CrawlerConfig {
            max_depth: None,
            max_requests: None,
            skip_non_successful_responses: true,
            allowed_domains: StringMap::new(),
            disallowed_domains: StringHashSet::new(),
            respect_robots_txt: false,
            client: None,
        }
    }
}

impl CrawlerConfig {
    /// Limits the recursion depth of visited URLs.
    pub fn max_depth(self, max_depth: usize) -> (config: Self)
        ensures
            config@ == (ConfigState { max_depth: Some(max_depth), ..self@ }),
    {
        let mut config = self;
        config.max_depth = Some(max_depth);
        config
    }

    /// Respects any restrictions set by the target host's robots.txt file.
    pub fn respect_robots_txt(self) -> (config: Self)
        ensures
            config@ == (ConfigState { respect_robots_txt: true, ..self@ }),
    {
        let mut config = self;
        config.respect_robots_txt = true;
        config
    }

    /// Takes responses with a non 2xx response code too.
    pub fn scrape_non_success_response(self) -> (config: Self)
        ensures
            config@ == (ConfigState { skip_non_successful_responses: false, ..self@ }),
    {
        let mut config = self;
        config.skip_non_successful_responses = false;
        config
    }

    /// Sends the requests with this client.
    pub fn set_client(self, client: ClientWithMiddleware) -> (config: Self)
        ensures
            config@ == (ConfigState { client: Some(client), ..self@ }),
    {
        let mut config = self;
        config.client = Some(client);
        config
    }

    /// Sends the requests with this client.
    ///
    /// *NOTE* A client already uses `Arc` under the hood, so it's preferable to just `clone` it and
    /// pass via [Self::set_client].
    pub fn with_shared_client(self, client: Arc<ClientWithMiddleware>) -> (config: Self)
        ensures
            config@ == (ConfigState { client: Some(*client), ..self@ }),
    {
        let mut config = self;
        config.client = Some((*client).clone());
        config
    }

    /// Disallows requests to that domain.
    pub fn disallow_domain(self, domain: &str) -> (config: Self)
        ensures
            config@ == (ConfigState { disallowed: self@.disallowed.insert(domain@), ..self@ }),
    {
        let mut config = self;
        config.disallowed_domains.insert(domain.to_owned());
        config
    }

    /// Disallows requests to those domains.
    pub fn disallow_domains(self, domains: &[&str]) -> (config: Self)
        ensures
            config@ == (ConfigState {
                disallowed: self@.disallowed.union(name_texts(domains@).to_set()),
                ..self@
            }),
    {
        let mut config = self;
        let ghost before = config@;
        let ghost names = name_texts(domains@);
        let mut i: usize = 0;
        while i < domains.len()
            invariant
                i <= domains@.len(),
                names == name_texts(domains@),
                config@ == (ConfigState {
                    disallowed: before.disallowed.union(names.take(i as int).to_set()),
                    ..before
                }),
            decreases domains@.len() - i,
        {
            config.disallowed_domains.insert(domains[i].to_owned());
            i = i + 1;
            proof {
                assert(names.take(i as int) =~= names.take(i - 1).push(domains@[i - 1]@));
                assert forall|name: Seq<char>|
                    config@.disallowed.contains(name) == (before.disallowed.contains(name)
                        || #[trigger] names.take(i as int).contains(name)) by {
                    lemma_push_contains(names.take(i - 1), domains@[i - 1]@, name);
                }
                assert(config@.disallowed =~= before.disallowed.union(names.take(i as int).to_set()));
            }
        }
        proof {
            assert(names.take(i as int) =~= names);
        }
        config
    }

    /// Allows requests to that domain, with a delay between them.
    pub fn allow_domain_with_delay(self, domain: &str, delay: RequestDelay) -> (config: Self)
        ensures
            config@ == (ConfigState {
                allowed: self@.allowed.insert(domain@, Some(delay)),
                ..self@
            }),
    {
        let mut config = self;
        config.allowed_domains.insert(domain.to_owned(), Some(delay));
        config
    }

    /// Allows requests to that domain.
    pub fn allow_domain(self, domain: &str) -> (config: Self)
        ensures
            config@ == (ConfigState { allowed: self@.allowed.insert(domain@, None), ..self@ }),
    {
        let mut config = self;
        config.allowed_domains.insert(domain.to_owned(), None);
        config
    }

    /// Allows requests to those domains.
    pub fn allow_domains(self, domains: &[&str]) -> (config: Self)
        ensures
            config@ == (ConfigState {
                allowed: allowing_all(self@.allowed, name_texts(domains@)),
                ..self@
            }),
    {
        let mut config = self;
        let ghost before = config@;
        let ghost names = name_texts(domains@);
        proof {
            assert(allowing_all(before.allowed, names.take(0)) =~= before.allowed);
        }
        let mut i: usize = 0;
        while i < domains.len()
            invariant
                i <= domains@.len(),
                names == name_texts(domains@),
                config@ == (ConfigState {
                    allowed: allowing_all(before.allowed, names.take(i as int)),
                    ..before
                }),
            decreases domains@.len() - i,
        {
            config.allowed_domains.insert(domains[i].to_owned(), None);
            i = i + 1;
            proof {
                assert(names.take(i as int) =~= names.take(i - 1).push(domains@[i - 1]@));
                assert forall|name: Seq<char>|
                    #[trigger] names.take(i as int).contains(name) == (names.take(i - 1).contains(
                        name,
                    ) || name == domains@[i - 1]@) by {
                    lemma_push_contains(names.take(i - 1), domains@[i - 1]@, name);
                }
                assert(config@.allowed =~= allowing_all(before.allowed, names.take(i as int)));
            }
        }
        proof {
            assert(names.take(i as int) =~= names);
        }
        config
    }

    /// Allows requests to those domains, with a delay between them.
    pub fn allow_domains_with_delay(self, domains: &[(&str, RequestDelay)]) -> (config: Self)
        ensures
            config@ == (ConfigState {
                allowed: allowing_with_delays(self@.allowed, domains@),
                ..self@
            }),
    {
        let mut config = self;
        let ghost before = config@;
        let mut i: usize = 0;
        while i < domains.len()
            invariant
                i <= domains@.len(),
                config@ == (ConfigState {
                    allowed: allowing_with_delays(before.allowed, domains@.take(i as int)),
                    ..before
                }),
            decreases domains@.len() - i,
        {
            let (name, delay) = domains[i];
            config.allowed_domains.insert(name.to_owned(), Some(delay));
            i = i + 1;
            proof {
                assert(domains@.take(i as int).drop_last() =~= domains@.take(i - 1));
            }
        }
        proof {
            assert(domains@.take(i as int) =~= domains@);
        }
        config
    }

    /// Limits how many requests execute concurrently.
    ///
    /// The limit is shared out among the allowed domains, each of which may always execute one.
    pub fn max_concurrent_requests(self, max_requests: usize) -> (config: Self)
        ensures
            config@ == (ConfigState { max_requests: Some(max_requests), ..self@ }),
    {
        let mut config = self;
        config.max_requests = Some(max_requests);
        config
    }

    /// Every setting, with the default where nothing was set.
    pub fn into_settings(self) -> (settings: CrawlerSettings)
        ensures
            settings.max_depth == self@.depth_limit(),
            settings.max_requests == self@.request_limit(),
            settings.skip_non_successful_responses == self@.skip_non_successful_responses,
            settings.allowed_domains@ == self@.allowed,
            settings.disallowed_domains@ == self@.disallowed,
            settings.respect_robots_txt == self@.respect_robots_txt,
            settings.client == self@.client,
    {
        CrawlerSettings {
            max_depth: match self.max_depth {
                Some(max_depth) => max_depth,
                None => usize::MAX,
            },
            max_requests: match self.max_requests {
                Some(max_requests) => max_requests,
                None => MAX_CONCURRENT_REQUESTS,
            },
            skip_non_successful_responses: self.skip_non_successful_responses,
            allowed_domains: self.allowed_domains,
            disallowed_domains: self.disallowed_domains,
            respect_robots_txt: self.respect_robots_txt,
            client: self.client,
        }
    }
}

/// What a sequence holds once an element is put behind it.
pub proof fn lemma_push_contains<A>(sequence: Seq<A>, last: A, element: A)
    ensures
        sequence.push(last).contains(element) == (sequence.contains(element) || element == last),
{
    let longer = sequence.push(last);
    if sequence.contains(element) {
        let i = choose|i: int| 0 <= i < sequence.len() && sequence[i] == element;
        assert(longer[i] == element);
    }
    assert(longer[sequence.len() as int] == last);
}

} // verus!
