//! Which requests are taken, and what becomes of the others.
use crate::allow_list::{lemma_without_first, without_first, AllowState};
use crate::allowed_domain::DomainState;
use crate::block_list::BlockState;
use crate::crawler::{CrawlResult, CrawlerState};
use crate::domain::ListingState;
use crate::error::{CrawlError, DisallowReason, Failure};
use crate::fetch::{disallowed, invalid, too_deep};
use crate::requests::QueuedRequest;
use crate::web::PageRequest;
use vstd::prelude::*;

verus! {

/// A request that a domain refuses changes nothing there, and the error hands back the state that
/// the request carried.
pub proof fn law_domain_refusal<S, F>(domain: DomainState<S, F>, request: QueuedRequest<S>)
    ensures
        domain.add_request(request).1 matches Err(error) ==> {
            &&& domain.add_request(request).0 == domain
            &&& error.carried() == request.state
        },
{
}

/// A request that a list refuses changes nothing there, and the error hands back the state that the
/// request carried, also where the request could not be put together.
pub proof fn law_refusal_carries_the_state<S, F, E>(
    list: ListingState<S, F, E>,
    built: Result<PageRequest, reqwest::Error>,
    state: Option<S>,
    depth: usize,
)
    ensures
        list.add_built(built, state, depth).1 matches Err(error) ==> {
            &&& list.add_built(built, state, depth).0 == list
            &&& error.carried() == state
        },
{
    if let (Ok(request), ListingState::AllowList(allow)) = (built, list) {
        let queued = QueuedRequest { request, state, depth };
        if let Some(host) = request.host() {
            if allow.allowed.contains_key(host) {
                law_domain_refusal(allow.allowed[host], queued);
                assert(allow.allowed.insert(host, allow.allowed[host]) =~= allow.allowed);
            }
        }
    }
}

/// A request that is queued either waits in the list, or its refusal is the crawler's last result
/// and carries its state. Nothing else changes.
pub proof fn law_queued_or_reported<O, S, F, E>(
    crawler: CrawlerState<O, S, F, E>,
    built: Result<PageRequest, reqwest::Error>,
    state: Option<S>,
)
    ensures
        ({
            let after = crawler.queue_built(built, state);
            let (list, added) = crawler.list.add_built(
                built,
                state,
                (crawler.current_depth + 1) as usize,
            );
            match added {
                Ok(()) => after == CrawlerState { list, ..crawler },
                Err(error) => {
                    &&& error.carried() == state
                    &&& after == CrawlerState {
                        results: crawler.results.push(
                            CrawlResult::Crawled(Err(Failure::Crawl(error))),
                        ),
                        ..crawler
                    }
                },
            }
        }),
{
    law_refusal_carries_the_state(
        crawler.list,
        built,
        state,
        (crawler.current_depth + 1) as usize,
    );
}

/// A domain takes no request that lies deeper than allowed, and says so.
pub proof fn law_domain_keeps_the_depth<S, F>(domain: DomainState<S, F>, request: QueuedRequest<S>)
    ensures
        request.depth > domain.max_depth <==> domain.add_request(request).1
            == Err::<(), _>(too_deep(request)),
{
}

/// A block list takes no request that lies deeper than allowed, and says so.
pub proof fn law_block_list_keeps_the_depth<S, F>(
    list: BlockState<S, F>,
    request: QueuedRequest<S>,
)
    ensures
        request.depth > list.max_depth <==> list.add_request(request).1 == Err::<(), _>(
            too_deep(request),
        ),
{
}

/// A block list takes a request within the depth exactly if it names a host that is not blocked.
pub proof fn law_block_list_decides_by_host<S, F>(
    list: BlockState<S, F>,
    request: QueuedRequest<S>,
)
    requires
        request.depth <= list.max_depth,
    ensures
        list.add_request(request).1 == match request.request.host() {
            None => Err::<(), _>(invalid(request)),
            Some(host) => if list.blocked.contains(host) {
                Err(disallowed(request, DisallowReason::User))
            } else {
                Ok(())
            },
        },
{
}

/// Once a domain is blocked its requests are refused, until it is allowed again; what else the list
/// decides is not touched.
pub proof fn law_blocking_and_allowing_again<S, F>(
    list: BlockState<S, F>,
    domain: Seq<char>,
    request: QueuedRequest<S>,
)
    requires
        request.depth <= list.max_depth,
        request.request.host() is Some,
    ensures
        ({
            let host = request.request.host()->0;
            let blocking = BlockState { blocked: list.blocked.insert(domain), ..list };
            let allowing = BlockState { blocked: blocking.blocked.remove(domain), ..blocking };
            &&& host == domain ==> blocking.add_request(request).1 == Err::<(), _>(
                disallowed(request, DisallowReason::User),
            )
            &&& host == domain ==> allowing.add_request(request).1 == Ok::<(), CrawlError<S>>(())
            &&& host != domain ==> blocking.add_request(request).1 == list.add_request(request).1
            &&& host != domain ==> allowing.add_request(request).1 == list.add_request(request).1
            &&& !list.blocked.contains(domain) ==> allowing == list
        }),
{
    if !list.blocked.contains(domain) {
        assert(list.blocked.insert(domain).remove(domain) =~= list.blocked);
    }
}

/// An allow list takes no request but for the domains on it: without a host a request is invalid,
/// with another host it is disallowed, and otherwise the domain decides, and only that domain
/// changes.
pub proof fn law_allow_list_decides_by_host<S, F, E>(
    list: AllowState<S, F, E>,
    request: QueuedRequest<S>,
)
    ensures
        ({
            let (after, added) = list.add_request(request);
            match request.request.host() {
                None => added == Err::<(), _>(invalid(request)),
                Some(host) => if list.allowed.contains_key(host) {
                    &&& added == list.allowed[host].add_request(request).1
                    &&& after.allowed == list.allowed.insert(
                        host,
                        list.allowed[host].add_request(request).0,
                    )
                    &&& after.results == list.results
                    &&& after.domains == list.domains
                } else {
                    added == Err::<(), _>(disallowed(request, DisallowReason::User))
                },
            }
        }),
{
}

/// A domain takes a request exactly if it lies within its depth.
pub proof fn law_domain_takes_what_it_can<S, F>(
    domain: DomainState<S, F>,
    request: QueuedRequest<S>,
)
    ensures
        domain.add_request(request).1 is Ok <==> request.depth <= domain.max_depth,
{
}

/// A domain that is allowed and then disallowed leaves an allow list as it was, if it was not on it
/// before.
pub proof fn law_allowing_and_disallowing_again<S, F, E>(
    list: AllowState<S, F, E>,
    name: Seq<char>,
    domain: DomainState<S, F>,
)
    requires
        list.well_formed(),
        !list.allowed.contains_key(name),
    ensures
        ({
            let allowing = AllowState {
                allowed: list.allowed.insert(name, domain),
                domains: list.domains.push(name),
                ..list
            };
            list == AllowState {
                allowed: allowing.allowed.remove(name),
                domains: without_first(allowing.domains, name),
                ..allowing
            }
        }),
{
    let names = list.domains.push(name);
    assert forall|j: int| 0 <= j < list.domains.len() implies #[trigger] names[j] != name by {
        assert(list.allowed.contains_key(list.domains[j]));
    }
    lemma_without_first(names, name, list.domains.len() as int);
    assert(names.remove(list.domains.len() as int) =~= list.domains);
    assert(list.allowed.insert(name, domain).remove(name) =~= list.allowed);
}

} // verus!
