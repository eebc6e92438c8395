//! What a config decides holds from the start of a crawler to its end.
use crate::allow_list::lemma_request_put_in;
use crate::config::ConfigState;
use crate::crawler::{domain_config, CrawlerPhaseView, CrawlerSignal, CrawlerState};
use crate::domain::{lemma_listing_uses_up, ListingState};
use crate::fetch::{too_deep, DemandView, Progress, Signal};
use crate::laws::admission::law_domain_takes_what_it_can;
use crate::laws::bookkeeping::law_allow_list_keeps_its_domains;
use crate::laws::invariants::{
    law_crawler_stays_well_formed, law_listing_stays_well_formed, lemma_poll_finds_idle,
};
use crate::laws::limits::{
    flying_in, law_allow_list_keeps_the_depth, law_allow_list_limits_the_requests,
    law_block_list_keeps_its_settings, law_crawler_keeps_the_depth, law_listing_keeps_the_depth,
    law_listing_keeps_the_depth_on_requests, law_new_crawler_keeps_the_depth,
};
use crate::requests::{QueuedRequest, RequestDelay};
use crate::time::Timer;
use crate::web::PageRequest;
use vstd::prelude::*;

verus! {

/// What can happen to a crawler.
pub enum Happening<O, S, F, E> {
    /// It is told something; a timer that has run out runs on as given.
    Told(CrawlerSignal<O, S, F, E>, Timer),
    /// A request is queued that may have failed to come about.
    Queued(Result<PageRequest, reqwest::Error>, Option<S>),
    /// A job is submitted that ends in the scraper's output.
    Completing(F),
    /// A job is submitted that ends in a response.
    Crawling(F),
    /// A response of this depth is about to be scraped.
    Scraping(usize),
    /// A response has been scraped.
    Scraped,
}

impl<O, S, F, E> CrawlerState<O, S, F, E> {
    /// Whether this can happen now: the crawler waits for such a signal, and what is asked for lies
    /// at a depth that there is.
    pub open spec fn allows(self, happening: Happening<O, S, F, E>) -> bool {
        match happening {
            Happening::Told(signal, _) => self.expects(signal),
            Happening::Queued(_, _) => self.current_depth < usize::MAX,
            Happening::Crawling(_) => self.current_depth < usize::MAX,
            _ => true,
        }
    }

    /// The crawler once this has happened.
    pub open spec fn past(self, happening: Happening<O, S, F, E>) -> Self {
        match happening {
            Happening::Told(signal, restarted) => self.step(signal, restarted).0,
            Happening::Queued(built, state) => self.queue_built(built, state),
            Happening::Completing(task) => CrawlerState {
                outputs: self.outputs.push(task),
                ..self
            },
            Happening::Crawling(task) => CrawlerState {
                crawls: self.crawls.push(((self.current_depth + 1) as usize, task)),
                ..self
            },
            Happening::Scraping(depth) => self.scraping(depth),
            Happening::Scraped => self.scraped(),
        }
    }

    /// The crawler once all of this has happened, one after the other.
    pub open spec fn past_all(self, happenings: Seq<Happening<O, S, F, E>>) -> Self
        decreases happenings.len(),
    {
        if happenings.len() == 0 {
            self
        } else {
            self.past_all(happenings.drop_last()).past(happenings.last())
        }
    }

    /// Whether all of this can happen, one after the other.
    pub open spec fn allows_all(self, happenings: Seq<Happening<O, S, F, E>>) -> bool
        decreases happenings.len(),
    {
        happenings.len() > 0 ==> {
            &&& self.allows_all(happenings.drop_last())
            &&& self.past_all(happenings.drop_last()).allows(happenings.last())
        }
    }

    /// Whether the list of domains is one as the config describes it: it holds the allowed domains,
    /// or blocks the disallowed ones where none is allowed in particular, takes nothing deeper than
    /// allowed, and has the limit on concurrent requests shared out.
    pub open spec fn obeys(self, config: ConfigState) -> bool {
        &&& self.list.keeps_depth(config.depth_limit())
        &&& match self.list {
            ListingState::AllowList(list) => {
                &&& config.allowed != Map::<Seq<char>, Option<RequestDelay>>::empty()
                &&& list.allowed.dom() == config.allowed.dom()
                &&& list.shares(share_of(config))
            },
            ListingState::BlockList(list) => {
                &&& config.allowed == Map::<Seq<char>, Option<RequestDelay>>::empty()
                &&& list.blocked == config.disallowed
                &&& list.max_requests == config.request_limit()
            },
        }
    }

    /// The number of requests in flight.
    pub open spec fn flying(self) -> nat {
        match self.list {
            ListingState::AllowList(list) => flying_in(list.allowed, list.allowed.dom()),
            ListingState::BlockList(list) => list.flying(),
        }
    }
}

/// The share of each allowed domain in the limit on concurrent requests.
pub open spec fn share_of(config: ConfigState) -> usize {
    (config.request_limit() as nat / config.allowed.dom().len()) as usize
}

/// Whether two lists are of the same kind, speak of the same domains and have the same limits.
pub open spec fn same_domains<S, F, E>(
    before: ListingState<S, F, E>,
    after: ListingState<S, F, E>,
) -> bool {
    match (before, after) {
        (ListingState::AllowList(before), ListingState::AllowList(after)) => {
            &&& before.allowed.dom() == after.allowed.dom()
            &&& forall|share: usize| #[trigger] before.shares(share) ==> after.shares(share)
        },
        (ListingState::BlockList(before), ListingState::BlockList(after)) => {
            &&& before.blocked == after.blocked
            &&& before.max_requests == after.max_requests
        },
        _ => false,
    }
}

proof fn lemma_drain_keeps_domains<S, F, E>(
    list: ListingState<S, F, E>,
    signal: Signal<S, F, E>,
    restarted: Timer,
    max_depth: usize,
)
    requires
        list.well_formed(),
        list.expects(signal),
        list.keeps_depth(max_depth),
    ensures
        same_domains(list, list.drain(signal, restarted).list),
    decreases
            2 * list.load() + if signal is Poll {
                0int
            } else {
                1int
            },
{
    lemma_poll_finds_idle(list, signal);
    law_listing_stays_well_formed(list, signal, restarted);
    lemma_listing_uses_up(list, signal, restarted);
    law_listing_keeps_the_depth(list, signal, restarted, max_depth);
    match list {
        ListingState::AllowList(list) => {
            law_allow_list_keeps_the_depth(list, signal, restarted, max_depth);
            law_allow_list_keeps_its_domains(list, signal, restarted);
        },
        ListingState::BlockList(list) => {
            law_block_list_keeps_its_settings(list, signal, restarted);
        },
    }
    let (next, demand) = list.step(signal, restarted);
    if demand matches DemandView::Yield(Progress::Item(_)) {
        lemma_drain_keeps_domains(next, Signal::Poll, restarted, max_depth);
    }
}

proof fn lemma_step_keeps_domains<O, S, F, E>(
    crawler: CrawlerState<O, S, F, E>,
    signal: CrawlerSignal<O, S, F, E>,
    restarted: Timer,
    max_depth: usize,
)
    requires
        crawler.well_formed(),
        crawler.expects(signal),
        crawler.list.keeps_depth(max_depth),
    ensures
        same_domains(crawler.list, crawler.step(signal, restarted).0.list),
{
    match (crawler.phase, signal) {
        (CrawlerPhaseView::List, CrawlerSignal::List(signal)) => {
            lemma_drain_keeps_domains(crawler.list, signal, restarted, max_depth);
        },
        _ => {
            lemma_drain_keeps_domains(crawler.list, Signal::Poll, restarted, max_depth);
        },
    }
}

proof fn lemma_queued_obeys<O, S, F, E>(
    config: ConfigState,
    crawler: CrawlerState<O, S, F, E>,
    built: Result<PageRequest, reqwest::Error>,
    state: Option<S>,
)
    requires
        crawler.well_formed(),
        crawler.obeys(config),
    ensures
        crawler.queue_built(built, state).well_formed(),
        crawler.queue_built(built, state).obeys(config),
{
    if let Ok(request) = built {
        let queued = QueuedRequest { request, state, depth: (crawler.current_depth + 1) as usize };
        law_listing_keeps_the_depth_on_requests(crawler.list, queued, config.depth_limit());
        if let ListingState::AllowList(list) = crawler.list {
            lemma_request_put_in(list, queued);
            let after = list.add_request(queued).0;
            assert(after.allowed.dom() =~= list.allowed.dom());
            assert forall|host: Seq<char>| #[trigger]
                after.allowed.contains_key(host) implies after.allowed[host].max_requests
                == share_of(config) by {
                assert(list.allowed.contains_key(host));
            }
        }
    }
}

/// Whatever happens to a crawler, it goes on obeying the config that it was made for.
pub proof fn law_crawler_obeys_its_config<O, S, F, E>(
    config: ConfigState,
    crawler: CrawlerState<O, S, F, E>,
    happenings: Seq<Happening<O, S, F, E>>,
)
    requires
        crawler.well_formed(),
        crawler.follows(config),
        crawler.allows_all(happenings),
    ensures
        crawler.past_all(happenings).well_formed(),
        crawler.past_all(happenings).obeys(config),
    decreases happenings.len(),
{
    let max_depth = config.depth_limit();
    if happenings.len() == 0 {
        law_new_crawler_keeps_the_depth(config, crawler);
        if let ListingState::AllowList(list) = crawler.list {
            assert(list.allowed.dom() =~= config.allowed.dom());
            assert forall|host: Seq<char>| #[trigger]
                list.allowed.contains_key(host) implies list.allowed[host].max_requests
                == share_of(config) by {
                assert(config.allowed.contains_key(host));
                assert(list.allowed[host].follows(domain_config(config, host, crawler.client)));
            }
        }
    } else {
        law_crawler_obeys_its_config(config, crawler, happenings.drop_last());
        let between = crawler.past_all(happenings.drop_last());
        match happenings.last() {
            Happening::Told(signal, restarted) => {
                law_crawler_stays_well_formed(between, signal, restarted);
                lemma_step_keeps_domains(between, signal, restarted, max_depth);
                law_crawler_keeps_the_depth(
                    between,
                    signal,
                    restarted,
                    between.results,
                    max_depth,
                );
            },
            Happening::Queued(built, state) => {
                lemma_queued_obeys(config, between, built, state);
            },
            _ => {},
        }
    }
}

/// The config decides where requests may go, whatever has happened to the crawler before: where it
/// allows domains, a request within the depth is taken exactly if it goes to one of them; where it
/// allows none in particular, exactly if it goes to any domain but those that it disallows.
pub proof fn law_config_decides_by_host<O, S, F, E>(
    config: ConfigState,
    crawler: CrawlerState<O, S, F, E>,
    happenings: Seq<Happening<O, S, F, E>>,
    request: QueuedRequest<S>,
)
    requires
        crawler.well_formed(),
        crawler.follows(config),
        crawler.allows_all(happenings),
        request.depth <= config.depth_limit(),
    ensures
        crawler.past_all(happenings).list.add_request(request).1 is Ok
            <==> match request.request.host() {
            None => false,
            Some(host) => if config.allowed == Map::<Seq<char>, Option<RequestDelay>>::empty() {
                !config.disallowed.contains(host)
            } else {
                config.allowed.contains_key(host)
            },
        },
{
    law_crawler_obeys_its_config(config, crawler, happenings);
    let after = crawler.past_all(happenings);
    if let (ListingState::AllowList(list), Some(host)) = (after.list, request.request.host()) {
        assert(list.allowed.contains_key(host) <==> config.allowed.contains_key(host));
        if list.allowed.contains_key(host) {
            law_domain_takes_what_it_can(list.allowed[host], request);
        }
    }
}

/// Whatever has happened to the crawler before, it takes no request that lies deeper than the config
/// allows; one to a domain that is allowed is told so.
pub proof fn law_config_limits_the_depth<O, S, F, E>(
    config: ConfigState,
    crawler: CrawlerState<O, S, F, E>,
    happenings: Seq<Happening<O, S, F, E>>,
    request: QueuedRequest<S>,
)
    requires
        crawler.well_formed(),
        crawler.follows(config),
        crawler.allows_all(happenings),
        request.depth > config.depth_limit(),
    ensures
        ({
            let added = crawler.past_all(happenings).list.add_request(request).1;
            &&& added is Err
            &&& request.request.host() matches Some(host) ==> (config.allowed.contains_key(host)
                ==> added == Err::<(), _>(too_deep(request)))
        }),
{
    law_crawler_obeys_its_config(config, crawler, happenings);
    let after = crawler.past_all(happenings);
    law_listing_keeps_the_depth_on_requests(after.list, request, config.depth_limit());
    if let (ListingState::AllowList(list), Some(host)) = (after.list, request.request.host()) {
        assert(list.allowed.contains_key(host) <==> config.allowed.contains_key(host));
    }
}

/// Whatever has happened to the crawler before, no more requests are in flight than the config
/// allows to execute concurrently. Where that is less than one for each allowed domain, there is at
/// most one for each; a limit of 0 without allowed domains leaves room for one.
pub proof fn law_config_limits_the_requests<O, S, F, E>(
    config: ConfigState,
    crawler: CrawlerState<O, S, F, E>,
    happenings: Seq<Happening<O, S, F, E>>,
)
    requires
        crawler.well_formed(),
        crawler.follows(config),
        crawler.allows_all(happenings),
        config.allowed.dom().finite(),
    ensures
        ({
            let (limit, count) = (config.request_limit() as nat, config.allowed.dom().len());
            let flying = crawler.past_all(happenings).flying();
            &&& count <= limit && 1 <= limit ==> flying <= limit
            &&& limit < count ==> flying <= count
            &&& limit == 0 && count == 0 ==> flying <= 1
        }),
{
    broadcast use vstd::set_lib::group_set_properties;

    law_crawler_obeys_its_config(config, crawler, happenings);
    let after = crawler.past_all(happenings);
    match after.list {
        ListingState::AllowList(list) => {
            if config.allowed.dom().len() == 0 {
                assert(config.allowed =~= Map::<Seq<char>, Option<RequestDelay>>::empty());
            }
            let name = config.allowed.dom().choose();
            assert(config.allowed.dom().contains(name));
            law_allow_list_limits_the_requests(config, crawler.client, name, list);
        },
        ListingState::BlockList(_) => {
            assert(config.allowed.dom() =~= Set::empty());
        },
    }
}

} // verus!
