//! A list of the only domains that requests may go to.
use crate::allowed_domain::{
    lemma_drain_uses_up, lemma_step_uses_up, AllowListConfig, AllowedDomain, DomainState,
};
use crate::error::{CrawlError, DisallowReason, Failure};
use crate::fetch::{
    disallow, disallowed, invalid, reject, swap_removed, Demand, DemandView, Progress, Signal,
};
use crate::requests::QueuedRequest;
use crate::response::Response;
use crate::string_map::{texts, StringMap};
use crate::time::Timer;
use std::collections::VecDeque;
use vstd::prelude::*;

verus! {

/// What an allow list is waiting for.
pub enum AllowPhase {
    /// For somebody to want the next result.
    Idle,
    /// For news of a domain, while the given number of others are still to be looked after.
    Visit {
        /// The number of other domains that are still to be looked after.
        left: usize,
        /// The name of the domain.
        host: String,
        /// Whether a domain that was looked after before is not done yet.
        busy: bool,
    },
}

/// What an [AllowPhase] says.
pub enum AllowPhaseView {
    /// Somebody has to want the next result.
    Idle,
    /// A domain is being looked after.
    Visit {
        /// The number of other domains that are still to be looked after.
        left: nat,
        /// The name of the domain.
        host: Seq<char>,
        /// Whether a domain that was looked after before is not done yet.
        busy: bool,
    },
}

impl View for AllowPhase {
    type V = AllowPhaseView;

    open spec fn view(&self) -> AllowPhaseView {
        match *self {
            AllowPhase::Idle => AllowPhaseView::Idle,
            AllowPhase::Visit { left, host, busy } => AllowPhaseView::Visit {
                left: left as nat,
                host: host@,
                busy,
            },
        }
    }
}

/// Requests to the domains that are allowed.
pub struct AllowList<S, F, E> {
    /// All queued results that are gathered from all the different requests.
    ///
    /// Looking after them all consecutively and buffering all the results prevents bias.
    queued_results: VecDeque<Result<Response<S>, Failure<S, E>>>,
    /// All allowed domains.
    allowed: StringMap<AllowedDomain<S, F>>,
    /// The names of the allowed domains, in the order in which they are looked after.
    domains: Vec<String>,
    /// What the list is waiting for.
    phase: AllowPhase,
}

/// What an [AllowList] holds.
#[verifier::ext_equal]
pub struct AllowState<S, F, E> {
    /// Results that nobody has taken yet.
    pub results: Seq<Result<Response<S>, Failure<S, E>>>,
    /// The allowed domains.
    pub allowed: Map<Seq<char>, DomainState<S, F>>,
    /// The names of the domains; the last one is looked after first.
    pub domains: Seq<Seq<char>>,
    /// What the list is waiting for.
    pub phase: AllowPhaseView,
}

/// What the domains of a list hold.
pub open spec fn domain_states<S, F>(domains: Map<Seq<char>, AllowedDomain<S, F>>) -> Map<
    Seq<char>,
    DomainState<S, F>,
> {
    domains.map_values(|domain: AllowedDomain<S, F>| domain@)
}

impl<S, F, E> AllowState<S, F, E> {
    /// Whether a domain is the one that is being looked after.
    pub open spec fn visits(self, host: Seq<char>) -> bool {
        self.phase matches AllowPhaseView::Visit { host: visited, .. } && visited == host
    }

    /// Whether the names are those of the allowed domains.
    pub open spec fn names_agree(self) -> bool {
        &&& forall|i: int|
            0 <= i < self.domains.len() ==> self.allowed.contains_key(#[trigger] self.domains[i])
        &&& forall|host: Seq<char>| #[trigger]
            self.allowed.contains_key(host) ==> self.domains.contains(host) || self.visits(host)
        &&& self.phase matches AllowPhaseView::Visit { left, host, .. }
            ==> self.allowed.contains_key(host) && left <= self.domains.len()
    }

    /// Whether every domain is in a state that it can be in, and waits for something exactly if it
    /// is being looked after.
    pub open spec fn domains_well_formed(self) -> bool {
        forall|host: Seq<char>|
            self.allowed.contains_key(host) ==> {
                &&& (#[trigger] self.allowed[host]).well_formed()
                &&& self.allowed[host].phase is Idle <==> !self.visits(host)
            }
    }

    /// Whether the state is one that a list can be in.
    pub open spec fn well_formed(self) -> bool {
        self.names_agree() && self.domains_well_formed()
    }

    /// Whether the list is waiting for such a signal.
    pub open spec fn expects(self, signal: Signal<S, F, E>) -> bool {
        match self.phase {
            AllowPhaseView::Idle => signal is Poll,
            AllowPhaseView::Visit { host, .. } => self.allowed[host].expects(signal),
        }
    }

    /// The list in another phase.
    pub open spec fn entering(self, phase: AllowPhaseView) -> Self {
        AllowState { phase, ..self }
    }

    /// The list when a request is put in: one that names no host, or that goes to a domain that is
    /// not allowed, is refused; any other is put in for its domain.
    pub open spec fn add_request(self, request: QueuedRequest<S>) -> (
        Self,
        Result<(), CrawlError<S>>,
    ) {
        match request.request.host() {
            None => (self, Err(invalid(request))),
            Some(host) => if self.allowed.contains_key(host) {
                let (domain, added) = self.allowed[host].add_request(request);
                (AllowState { allowed: self.allowed.insert(host, domain), ..self }, added)
            } else {
                (self, Err(disallowed(request, DisallowReason::User)))
            },
        }
    }

    /// The first result is given out.
    pub open spec fn deliver(self) -> (Self, DemandView<S, F, E>) {
        (
            AllowState {
                results: self.results.drop_first(),
                ..self
            }.entering(AllowPhaseView::Idle),
            DemandView::Yield(Progress::Item(self.results[0])),
        )
    }

    /// The next result is wanted: if there is none yet, every domain is looked after.
    pub open spec fn begin(self, restarted: Timer) -> (Self, DemandView<S, F, E>) {
        if self.results.len() > 0 {
            self.deliver()
        } else {
            self.visit(self.domains.len(), false, restarted)
        }
    }

    /// The first `left` domains are looked after, the last of them first; then the first result is
    /// given out, if there is one.
    pub open spec fn visit(self, left: nat, busy: bool, restarted: Timer) -> (
        Self,
        DemandView<S, F, E>,
    )
        decreases left,
    {
        if left == 0 {
            if self.results.len() > 0 {
                self.deliver()
            } else {
                (
                    self.entering(AllowPhaseView::Idle),
                    DemandView::Yield(
                        if busy {
                            Progress::Pending
                        } else {
                            Progress::Done
                        },
                    ),
                )
            }
        } else {
            let last = left - 1;
            let host = self.domains[last];
            let rest = AllowState { domains: swap_removed(self.domains, last), ..self };
            match rest.hear(last as nat, host, busy, Signal::Poll, restarted) {
                (rest, Ok(busy)) => rest.visit(last as nat, busy, restarted),
                (rest, Err(demand)) => (rest, demand),
            }
        }
    }

    /// A domain is told something, and every result that it has at hand is taken. Either it wants
    /// something done, or it has no more to give for now; whether a domain is not done yet is then
    /// known of one domain more.
    pub open spec fn hear(
        self,
        left: nat,
        host: Seq<char>,
        busy: bool,
        signal: Signal<S, F, E>,
        restarted: Timer,
    ) -> (Self, Result<bool, DemandView<S, F, E>>) {
        let drained = self.allowed[host].drain(signal, restarted);
        let rest = AllowState {
            results: self.results + drained.items,
            allowed: self.allowed.insert(host, drained.domain),
            ..self
        };
        match drained.demand {
            DemandView::Yield(progress) => (
                AllowState {
                    domains: rest.domains.push(host),
                    ..rest
                }.entering(AllowPhaseView::Idle),
                Ok(busy || progress is Pending),
            ),
            demand => (rest.entering(AllowPhaseView::Visit { left, host, busy }), Err(demand)),
        }
    }

    /// What a signal does; a timer that has run out runs on as `restarted`.
    pub open spec fn step(self, signal: Signal<S, F, E>, restarted: Timer) -> (
        Self,
        DemandView<S, F, E>,
    ) {
        match self.phase {
            AllowPhaseView::Idle => self.begin(restarted),
            AllowPhaseView::Visit { left, host, busy } => match self.hear(
                left,
                host,
                busy,
                signal,
                restarted,
            ) {
                (rest, Ok(busy)) => rest.visit(left, busy, restarted),
                (rest, Err(demand)) => (rest, demand),
            },
        }
    }

    /// Whether a timer may run on as `restarted` after that signal.
    pub open spec fn may_restart(self, signal: Signal<S, F, E>, restarted: Timer) -> bool {
        self.phase matches AllowPhaseView::Visit { host, .. }
            ==> self.allowed[host].may_restart(signal, restarted)
    }
}

/// What an answer of a domain says.
pub open spec fn answer_view<S, F, E>(answer: Result<bool, Demand<S, F, E>>) -> Result<
    bool,
    DemandView<S, F, E>,
> {
    match answer {
        Ok(busy) => Ok(busy),
        Err(demand) => Err(demand@),
    }
}

impl<S, F, E> View for AllowList<S, F, E> {
    type V = AllowState<S, F, E>;

    closed spec fn view(&self) -> AllowState<S, F, E> {
        AllowState {
            results: self.queued_results@,
            allowed: domain_states(self.allowed@),
            domains: texts(self.domains@),
            phase: self.phase@,
        }
    }
}

impl<S, F, E> Default for AllowList<S, F, E> {
    fn default() -> (list: Self)
        ensures
            list@ == (AllowState::<S, F, E> {
                results: Seq::empty(),
                allowed: Map::empty(),
                domains: Seq::empty(),
                phase: AllowPhaseView::Idle,
            }),
            list@.well_formed(),
    {
        let list = AllowList {
            queued_results: VecDeque::new(),
            allowed: StringMap::new(),
            domains: Vec::new(),
            phase: AllowPhase::Idle,
        };
        proof {
            assert(list@.allowed =~= Map::empty());
            assert(list@.domains =~= Seq::empty());
        }
        list
    }
}

impl<S, F, E> AllowList<S, F, E> {
    /// Allows requests to that domain.
    ///
    /// A domain that is allowed already starts anew, and is looked after once more.
    pub fn allow(&mut self, domain: String, config: AllowListConfig)
        ensures
            final(self)@.results == old(self)@.results,
            final(self)@.phase == old(self)@.phase,
            final(self)@.domains == old(self)@.domains.push(domain@),
            final(self)@.allowed == old(self)@.allowed.insert(
                domain@,
                final(self)@.allowed[domain@],
            ),
            final(self)@.allowed[domain@].host@ == domain@,
            final(self)@.allowed[domain@].follows(config),
            old(self)@.well_formed() && old(self)@.phase is Idle ==> final(self)@.well_formed(),
    {
        let fresh = AllowedDomain::new(domain.clone(), config);
        let ghost state = fresh@;
        self.allowed.insert(domain.clone(), fresh);
        self.domains.push(domain);
        proof {
            let (before, after) = (old(self)@, self@);
            assert(after.allowed =~= before.allowed.insert(domain@, state));
            assert(after.domains =~= before.domains.push(domain@));
            if before.well_formed() && before.phase is Idle {
                assert forall|host: Seq<char>| #[trigger]
                    after.allowed.contains_key(host) implies after.domains.contains(host) by {
                    if host == domain@ {
                        assert(after.domains[before.domains.len() as int] == host);
                    } else {
                        assert(before.allowed.contains_key(host));
                        let i = choose|i: int|
                            0 <= i < before.domains.len() && before.domains[i] == host;
                        assert(after.domains[i] == host);
                    }
                }
            }
        }
    }

    /// Disallows requests to that domain again, and hands out what was kept for it.
    ///
    /// Where the domain was allowed more than once, its name is taken off once only.
    pub fn disallow(&mut self, domain: &str) -> (removed: Option<AllowedDomain<S, F>>)
        ensures
            final(self)@.results == old(self)@.results,
            final(self)@.phase == old(self)@.phase,
            final(self)@.allowed == old(self)@.allowed.remove(domain@),
            match removed {
                Some(state) => {
                    &&& old(self)@.allowed.contains_key(domain@)
                    &&& state@ == old(self)@.allowed[domain@]
                    &&& final(self)@.domains == without_first(old(self)@.domains, domain@)
                },
                None => {
                    &&& !old(self)@.allowed.contains_key(domain@)
                    &&& final(self)@.domains == old(self)@.domains
                },
            },
            old(self)@.well_formed() && old(self)@.phase is Idle
                && old(self)@.domains.no_duplicates() ==> final(self)@.well_formed()
                && final(self)@.domains.no_duplicates(),
    {
        let removed = self.allowed.remove(domain);
        proof {
            assert(self@.allowed =~= old(self)@.allowed.remove(domain@));
        }
        if removed.is_some() {
            let name = domain.to_owned();
            let mut i: usize = 0;
            while i < self.domains.len() && self.domains[i] != name
                invariant
                    i <= self.domains@.len(),
                    name@ == domain@,
                    forall|j: int| 0 <= j < i ==> (#[trigger] self.domains@[j])@ != domain@,
                decreases self.domains@.len() - i,
            {
                i = i + 1;
            }
            let ghost names = texts(self.domains@);
            proof {
                lemma_without_first(names, domain@, i as int);
            }
            if i < self.domains.len() {
                self.domains.remove(i);
                assert(texts(self.domains@) =~= names.remove(i as int));
            }
        }
        proof {
            let (before, after) = (old(self)@, self@);
            if before.well_formed() && before.phase is Idle && before.domains.no_duplicates() {
                lemma_names_after_removal(before, after, domain@);
            }
        }
        removed
    }

    /// The matching handler for the allowed domain if any.
    pub fn get_domain(&self, domain: &str) -> (found: Option<&AllowedDomain<S, F>>)
        ensures
            match found {
                Some(state) => {
                    &&& self@.allowed.contains_key(domain@)
                    &&& state@ == self@.allowed[domain@]
                },
                None => !self@.allowed.contains_key(domain@),
            },
    {
        self.allowed.get(domain)
    }

    /// Get mutable access to the matching handler for the allowed domain if any.
    pub fn get_domain_mut(&mut self, domain: &str) -> (found: Option<&mut AllowedDomain<S, F>>)
        ensures
            match found {
                Some(state) => {
                    &&& old(self)@.allowed.contains_key(domain@)
                    &&& state@ == old(self)@.allowed[domain@]
                    &&& final(self)@ == (AllowState {
                        allowed: old(self)@.allowed.insert(domain@, final(state)@),
                        ..old(self)@
                    })
                },
                None => {
                    &&& !old(self)@.allowed.contains_key(domain@)
                    &&& final(self)@ == old(self)@
                },
            },
    {
        proof {
            let states = self.allowed@;
            assert forall|state: AllowedDomain<S, F>|
                domain_states(#[trigger] states.insert(domain@, state)) == domain_states(
                    states,
                ).insert(domain@, state@) by {
                assert(domain_states(states.insert(domain@, state)) =~= domain_states(
                    states,
                ).insert(domain@, state@));
            }
        }
        self.allowed.get_mut(domain)
    }

    /// Puts a request in: one that names no host, or that goes to a domain that is not allowed, is
    /// refused; any other is put in for its domain.
    pub fn add_request(&mut self, request: QueuedRequest<S>) -> (added: Result<(), CrawlError<S>>)
        ensures
            (final(self)@, added) == old(self)@.add_request(request),
            old(self)@.well_formed() ==> final(self)@.well_formed(),
    {
        let host = match request.request.host_str() {
            Some(host) => host.clone(),
            None => {
                return Err(reject(request));
            },
        };
        let added = match self.get_domain_mut(host.as_str()) {
            Some(domain) => domain.add_request(request),
            None => Err(disallow(request, DisallowReason::User)),
        };
        proof {
            assert(self@ == old(self)@.add_request(request).0);
            if old(self)@.well_formed() {
                lemma_request_put_in(old(self)@, request);
            }
        }
        added
    }

    /// Whether the list is waiting for such a signal.
    pub fn accepts(&self, signal: &Signal<S, F, E>) -> (accepted: bool)
        requires
            self@.well_formed(),
        ensures
            accepted == self@.expects(*signal),
    {
        match &self.phase {
            AllowPhase::Idle => match signal {
                Signal::Poll => true,
                _ => false,
            },
            AllowPhase::Visit { host, .. } => match self.get_domain(host.as_str()) {
                Some(domain) => domain.accepts(signal),
                None => false,
            },
        }
    }

    /// Takes a signal in and says what is to be done next.
    ///
    /// Results that are already there are given out first. Then every domain is looked after, each
    /// until it has no result at hand any more, so that none is favoured.
    pub fn step(&mut self, signal: Signal<S, F, E>) -> (demand: Demand<S, F, E>)
        requires
            old(self)@.well_formed(),
            old(self)@.expects(signal),
        ensures
            exists|restarted: Timer|
                old(self)@.may_restart(signal, restarted) && (final(self)@, demand@)
                    == #[trigger] old(self)@.step(signal, restarted),
            final(self)@.well_formed(),
            final(self)@.phase is Idle <==> demand@ is Yield,
    {
        let mut phase = AllowPhase::Idle;
        std::mem::swap(&mut phase, &mut self.phase);
        let ghost idle = self@;
        assert(idle == old(self)@.entering(AllowPhaseView::Idle));
        let ghost mut restarted: Timer = arbitrary();
        let demand = match phase {
            AllowPhase::Idle => {
                if self.queued_results.len() > 0 {
                    self.deliver()
                } else {
                    self.visit(self.domains.len(), false)
                }
            },
            AllowPhase::Visit { left, host, busy } => {
                let ghost name = host@;
                let answer = self.hear(left, host, busy, signal);
                proof {
                    restarted = choose|restarted: Timer|
                        idle.allowed[name].may_restart(signal, restarted) && (
                        self@,
                        answer_view(answer),
                    ) == #[trigger] idle.hear(left as nat, name, busy, signal, restarted);
                    assert(old(self)@.hear(left as nat, name, busy, signal, restarted)
                        == idle.hear(left as nat, name, busy, signal, restarted));
                }
                match answer {
                    Ok(busy) => self.visit(left, busy),
                    Err(demand) => demand,
                }
            },
        };
        assert((self@, demand@) == old(self)@.step(signal, restarted));
        demand
    }

    fn deliver(&mut self) -> (demand: Demand<S, F, E>)
        requires
            old(self)@.well_formed(),
            old(self)@.phase is Idle,
            old(self)@.results.len() > 0,
        ensures
            (final(self)@, demand@) == old(self)@.deliver(),
            final(self)@.well_formed(),
            final(self)@.phase is Idle <==> demand@ is Yield,
    {
        let first = self.queued_results.pop_front().unwrap();
        proof {
            let (before, after) = (old(self)@, self@);
            assert(after.results =~= before.results.drop_first());
            lemma_results_aside(before, after);
        }
        Demand::Yield(Progress::Item(first))
    }

    fn visit(&mut self, left: usize, busy: bool) -> (demand: Demand<S, F, E>)
        requires
            old(self)@.well_formed(),
            old(self)@.phase is Idle,
            left <= old(self)@.domains.len(),
        ensures
            forall|restarted: Timer|
                (final(self)@, demand@) == #[trigger] old(self)@.visit(
                    left as nat,
                    busy,
                    restarted,
                ),
            final(self)@.well_formed(),
            final(self)@.phase is Idle <==> demand@ is Yield,
    {
        let mut due: usize = left;
        let mut any: bool = busy;
        while due > 0
            invariant
                self@.well_formed(),
                self@.phase is Idle,
                due <= self@.domains.len(),
                forall|restarted: Timer|
                    self@.visit(due as nat, any, restarted) == #[trigger] old(self)@.visit(
                        left as nat,
                        busy,
                        restarted,
                    ),
            decreases due,
        {
            due = due - 1;
            let ghost before = self@;
            let host = self.domains.swap_remove(due);
            let ghost name = host@;
            let ghost rest = self@;
            proof {
                assert(rest.domains =~= swap_removed(before.domains, due as int));
                lemma_taken_out(before, rest, due as int);
            }
            let answer = self.hear(due, host, any, Signal::Poll);
            proof {
                assert forall|restarted: Timer|
                    (self@, answer_view(answer)) == #[trigger] rest.hear(
                        due as nat,
                        name,
                        any,
                        Signal::Poll,
                        restarted,
                    ) by {
                    let used = choose|used: Timer|
                        (self@, answer_view(answer)) == #[trigger] rest.hear(
                            due as nat,
                            name,
                            any,
                            Signal::Poll,
                            used,
                        );
                    lemma_poll_needs_no_timer::<S, F, E>(rest.allowed[name], used, restarted);
                }
                assert forall|restarted: Timer|
                    #[trigger] before.visit(due as nat + 1, any, restarted) == match answer_view(
                        answer,
                    ) {
                        Ok(busy) => self@.visit(due as nat, busy, restarted),
                        Err(demand) => (self@, demand),
                    } by {
                    assert((self@, answer_view(answer)) == rest.hear(
                        due as nat,
                        name,
                        any,
                        Signal::Poll,
                        restarted,
                    ));
                }
            }
            match answer {
                Ok(busy) => {
                    any = busy;
                },
                Err(demand) => {
                    return demand;
                },
            }
        }
        if self.queued_results.len() > 0 {
            self.deliver()
        } else if any {
            Demand::Yield(Progress::Pending)
        } else {
            Demand::Yield(Progress::Done)
        }
    }

    /// Tells a domain something, takes every result that it has at hand, and says what it wants
    /// done, or whether a domain is not done yet.
    fn hear(&mut self, left: usize, host: String, busy: bool, signal: Signal<S, F, E>) -> (answer:
        Result<bool, Demand<S, F, E>>)
        requires
            old(self)@.attends(left as nat, host@),
            old(self)@.phase is Idle,
            old(self)@.allowed[host@].expects(signal),
        ensures
            exists|restarted: Timer|
                old(self)@.allowed[host@].may_restart(signal, restarted) && (
                final(self)@,
                answer_view(answer),
            ) == #[trigger] old(self)@.hear(left as nat, host@, busy, signal, restarted),
            final(self)@.well_formed(),
            match answer {
                Ok(_) => final(self)@.phase is Idle && left <= final(self)@.domains.len(),
                Err(demand) => final(self)@.phase !is Idle && demand@ !is Yield,
            },
    {
        let ghost name = host@;
        let ghost states = self.allowed@;
        proof {
            assert forall|state: AllowedDomain<S, F>|
                domain_states(#[trigger] states.insert(name, state)) == domain_states(
                    states,
                ).insert(name, state@) by {
                assert(domain_states(states.insert(name, state)) =~= domain_states(states).insert(
                    name,
                    state@,
                ));
            }
        }
        let demand = match self.allowed.get_mut(host.as_str()) {
            Some(domain) => domain.drain(signal, &mut self.queued_results),
            None => Demand::Yield(Progress::Done),
        };
        let ghost drained_state = self.allowed@[name]@;
        let ghost restarted = choose|restarted: Timer|
            states[name]@.may_restart(signal, restarted) && ({
                let drained = #[trigger] states[name]@.drain(signal, restarted);
                &&& drained_state == drained.domain
                &&& self.queued_results@ == old(self)@.results + drained.items
                &&& demand@ == drained.demand
            });
        let answer = match demand {
            Demand::Yield(progress) => {
                self.domains.push(host);
                proof {
                    assert(texts(self.domains@) =~= old(self)@.domains.push(name));
                }
                match progress {
                    Progress::Pending => Ok(true),
                    _ => Ok(busy),
                }
            },
            other => {
                self.phase = AllowPhase::Visit { left, host, busy };
                Err(other)
            },
        };
        proof {
            assert((self@, answer_view(answer)) == old(self)@.hear(
                left as nat,
                name,
                busy,
                signal,
                restarted,
            ));
            lemma_attended(old(self)@, self@, left as nat, name);
        }
        answer
    }
}

impl<S, F, E> AllowState<S, F, E> {
    /// Whether the list is one whose domain `host` is taken out to be looked after, while the
    /// first `left` others are still to be.
    pub open spec fn attends(self, left: nat, host: Seq<char>) -> bool {
        &&& self.entering(AllowPhaseView::Visit { left, host, busy: false }).names_agree()
        &&& forall|other: Seq<char>|
            self.allowed.contains_key(other) ==> {
                &&& (#[trigger] self.allowed[other]).well_formed()
                &&& other != host ==> self.allowed[other].phase is Idle
            }
    }
}

/// What a domain answers to a wish for the next result does not depend on a timer's return.
proof fn lemma_poll_needs_no_timer<S, F, E>(domain: DomainState<S, F>, first: Timer, second: Timer)
    ensures
        domain.drain::<E>(Signal::Poll, first) == domain.drain::<E>(Signal::Poll, second),
    decreases domain.waiting(),
{
    let (next, demand) = domain.step::<E>(Signal::Poll, first);
    if demand matches DemandView::Yield(Progress::Item(_)) {
        lemma_step_uses_up::<S, F, E>(domain, Signal::Poll, first);
        lemma_poll_needs_no_timer::<S, F, E>(next, first, second);
    }
}

/// What a list answers to a wish for the next result does not depend on a timer's return.
pub proof fn lemma_begin_needs_no_timer<S, F, E>(
    state: AllowState<S, F, E>,
    first: Timer,
    second: Timer,
)
    ensures
        state.begin(first) == state.begin(second),
{
    lemma_visit_needs_no_timer(state, state.domains.len(), false, first, second);
}

/// Looking after the domains does not depend on a timer's return.
proof fn lemma_visit_needs_no_timer<S, F, E>(
    state: AllowState<S, F, E>,
    left: nat,
    busy: bool,
    first: Timer,
    second: Timer,
)
    ensures
        state.visit(left, busy, first) == state.visit(left, busy, second),
    decreases left,
{
    if left > 0 {
        let last = (left - 1) as nat;
        let host = state.domains[left - 1];
        let rest = AllowState { domains: swap_removed(state.domains, left - 1), ..state };
        lemma_poll_needs_no_timer::<S, F, E>(rest.allowed[host], first, second);
        let (after, answer) = rest.hear(last, host, busy, Signal::Poll, first);
        if let Ok(busy) = answer {
            lemma_visit_needs_no_timer(after, last, busy, first, second);
        }
    }
}

/// Whether a list is one that a list can be in does not depend on its results.
pub proof fn lemma_results_aside<S, F, E>(before: AllowState<S, F, E>, after: AllowState<S, F, E>)
    requires
        before.well_formed(),
        after == (AllowState { results: after.results, ..before }),
    ensures
        after.well_formed(),
{
    assert forall|host: Seq<char>| #[trigger]
        after.allowed.contains_key(host) implies after.domains.contains(host) || after.visits(
        host,
    ) by {
        assert(before.allowed.contains_key(host));
        assert(before.visits(host) == after.visits(host));
    }
    assert forall|host: Seq<char>| after.allowed.contains_key(host) implies {
        &&& (#[trigger] after.allowed[host]).well_formed()
        &&& after.allowed[host].phase is Idle <==> !after.visits(host)
    } by {
        assert(before.allowed[host].well_formed());
        assert(before.visits(host) == after.visits(host));
    }
}

/// A list into which a request is put stays one that a list can be in.
pub proof fn lemma_request_put_in<S, F, E>(before: AllowState<S, F, E>, request: QueuedRequest<S>)
    requires
        before.well_formed(),
    ensures
        before.add_request(request).0.well_formed(),
{
    let after = before.add_request(request).0;
    if let Some(host) = request.request.host() {
        if before.allowed.contains_key(host) {
            assert forall|other: Seq<char>| after.allowed.contains_key(other) implies {
                &&& (#[trigger] after.allowed[other]).well_formed()
                &&& after.allowed[other].phase is Idle <==> !after.visits(other)
            } by {
                assert(before.allowed.contains_key(other));
                assert(before.allowed[other].well_formed());
            }
            assert forall|i: int| 0 <= i < after.domains.len() implies after.allowed.contains_key(
                #[trigger] after.domains[i],
            ) by {
                assert(before.allowed.contains_key(before.domains[i]));
            }
            assert forall|other: Seq<char>| #[trigger]
                after.allowed.contains_key(other) implies after.domains.contains(other)
                || after.visits(other) by {
                assert(before.allowed.contains_key(other));
            }
        }
    }
}

/// A list from which a domain is taken out to be looked after.
pub proof fn lemma_taken_out<S, F, E>(
    before: AllowState<S, F, E>,
    after: AllowState<S, F, E>,
    last: int,
)
    requires
        before.well_formed(),
        before.phase is Idle,
        0 <= last < before.domains.len(),
        after == (AllowState { domains: swap_removed(before.domains, last), ..before }),
    ensures
        after.attends(last as nat, before.domains[last]),
{
    let host = before.domains[last];
    let names = before.domains;
    let visit = after.entering(AllowPhaseView::Visit { left: last as nat, host, busy: false });
    assert forall|i: int| 0 <= i < visit.domains.len() implies visit.allowed.contains_key(
        #[trigger] visit.domains[i],
    ) by {
        assert(visit.domains[i] == names[if i == last {
            names.len() - 1
        } else {
            i
        }]);
    }
    assert forall|other: Seq<char>| #[trigger]
        visit.allowed.contains_key(other) implies visit.domains.contains(other) || visit.visits(
        other,
    ) by {
        assert(before.allowed.contains_key(other));
        let j = choose|j: int| 0 <= j < names.len() && names[j] == other;
        if j != last {
            assert(visit.domains[if j == names.len() - 1 {
                last
            } else {
                j
            }] == other);
        }
    }
}

/// A list that has heard of the domain that was taken out is one that a list can be in.
pub proof fn lemma_attended<S, F, E>(
    before: AllowState<S, F, E>,
    after: AllowState<S, F, E>,
    left: nat,
    host: Seq<char>,
)
    requires
        before.attends(left, host),
        after.allowed == before.allowed.insert(host, after.allowed[host]),
        after.allowed[host].well_formed(),
        match after.phase {
            AllowPhaseView::Idle => {
                &&& after.domains == before.domains.push(host)
                &&& after.allowed[host].phase is Idle
            },
            AllowPhaseView::Visit { left: due, host: visited, .. } => {
                &&& after.domains == before.domains
                &&& (due, visited) == (left, host)
                &&& after.allowed[host].phase !is Idle
            },
        },
    ensures
        after.well_formed(),
        left <= after.domains.len(),
{
    let visit = before.entering(AllowPhaseView::Visit { left, host, busy: false });
    assert forall|i: int| 0 <= i < after.domains.len() implies after.allowed.contains_key(
        #[trigger] after.domains[i],
    ) by {
        if i < before.domains.len() {
            assert(visit.allowed.contains_key(visit.domains[i]));
        }
    }
    assert forall|other: Seq<char>| #[trigger]
        after.allowed.contains_key(other) implies after.domains.contains(other) || after.visits(
        other,
    ) by {
        if other != host {
            assert(visit.allowed.contains_key(other));
            let j = choose|j: int| 0 <= j < before.domains.len() && before.domains[j] == other;
            assert(after.domains[j] == other);
        } else if after.phase is Idle {
            assert(after.domains[before.domains.len() as int] == host);
        }
    }
    assert forall|other: Seq<char>| after.allowed.contains_key(other) implies {
        &&& (#[trigger] after.allowed[other]).well_formed()
        &&& after.allowed[other].phase is Idle <==> !after.visits(other)
    } by {
        if other != host {
            assert(before.allowed.contains_key(other));
            assert(before.allowed[other].well_formed());
        }
    }
}

/// How many requests wait in the domains of these names.
pub open spec fn waiting_in<S, F>(
    allowed: Map<Seq<char>, DomainState<S, F>>,
    names: Seq<Seq<char>>,
) -> nat
    decreases names.len(),
{
    if names.len() == 0 {
        0
    } else {
        waiting_in(allowed, names.drop_last()) + allowed[names.last()].waiting()
    }
}

impl<S, F, E> AllowState<S, F, E> {
    /// How much there is to be given out without anything being done outside: each waiting request
    /// counts twice, each result once.
    pub open spec fn load(self) -> nat {
        self.results.len() + 2 * waiting_in(self.allowed, self.domains) + match self.phase {
            AllowPhaseView::Idle => 0nat,
            AllowPhaseView::Visit { host, .. } => 2 * self.allowed[host].waiting(),
        }
    }

    /// Whether no more domains are still to be looked after than there are.
    pub open spec fn is_bounded(self) -> bool {
        self.phase matches AllowPhaseView::Visit { left, .. } ==> left <= self.domains.len()
    }
}

/// One name more or less, or another in its place.
proof fn lemma_waiting_update<S, F>(
    allowed: Map<Seq<char>, DomainState<S, F>>,
    names: Seq<Seq<char>>,
    i: int,
    name: Seq<char>,
)
    requires
        0 <= i < names.len(),
    ensures
        waiting_in(allowed, names.update(i, name)) + allowed[names[i]].waiting() == waiting_in(
            allowed,
            names,
        ) + allowed[name].waiting(),
    decreases names.len(),
{
    if i == names.len() - 1 {
        assert(names.update(i, name).drop_last() =~= names.drop_last());
    } else {
        assert(names.update(i, name).drop_last() =~= names.drop_last().update(i, name));
        lemma_waiting_update(allowed, names.drop_last(), i, name);
    }
}

/// What waits is spread over the name that is taken out and the others.
proof fn lemma_waiting_removed<S, F>(
    allowed: Map<Seq<char>, DomainState<S, F>>,
    names: Seq<Seq<char>>,
    i: int,
)
    requires
        0 <= i < names.len(),
    ensures
        waiting_in(allowed, swap_removed(names, i)) + allowed[names[i]].waiting() == waiting_in(
            allowed,
            names,
        ),
{
    lemma_waiting_update(allowed, names, i, names.last());
}

/// Fewer requests wait in all domains together where fewer wait in one of them.
proof fn lemma_waiting_shrinks<S, F>(
    allowed: Map<Seq<char>, DomainState<S, F>>,
    names: Seq<Seq<char>>,
    host: Seq<char>,
    domain: DomainState<S, F>,
)
    requires
        domain.waiting() <= allowed[host].waiting(),
    ensures
        waiting_in(allowed.insert(host, domain), names) <= waiting_in(allowed, names),
    decreases names.len(),
{
    if names.len() > 0 {
        lemma_waiting_shrinks(allowed, names.drop_last(), host, domain);
    }
}

/// What telling a domain something does to the load.
proof fn lemma_hear_uses_up<S, F, E>(
    state: AllowState<S, F, E>,
    left: nat,
    host: Seq<char>,
    busy: bool,
    signal: Signal<S, F, E>,
    restarted: Timer,
)
    requires
        left <= state.domains.len(),
    ensures
        ({
            let (after, answer) = state.hear(left, host, busy, signal, restarted);
            &&& after.is_bounded()
            &&& left <= after.domains.len()
            &&& answer is Ok ==> after.phase is Idle
            &&& after.load() <= state.results.len() + 2 * waiting_in(state.allowed, state.domains)
                + 2 * state.allowed[host].waiting() + if signal is Poll {
                0nat
            } else {
                1nat
            }
        }),
{
    let drained = state.allowed[host].drain(signal, restarted);
    lemma_drain_uses_up(state.allowed[host], signal, restarted);
    let (after, answer) = state.hear(left, host, busy, signal, restarted);
    lemma_waiting_shrinks(state.allowed, state.domains, host, drained.domain);
    assert(after.domains == state.domains || after.domains == state.domains.push(host));
    assert(state.domains.push(host).drop_last() =~= state.domains);
}

/// Looking after the domains gives out no more than what is there.
proof fn lemma_visit_uses_up<S, F, E>(
    state: AllowState<S, F, E>,
    left: nat,
    busy: bool,
    restarted: Timer,
)
    requires
        state.phase is Idle,
        left <= state.domains.len(),
    ensures
        ({
            let (after, demand) = state.visit(left, busy, restarted);
            &&& after.is_bounded()
            &&& after.load() <= state.load()
            &&& demand matches DemandView::Yield(Progress::Item(_)) ==> after.phase is Idle
                && after.load() < state.load()
        }),
    decreases left,
{
    if left > 0 {
        let last = left - 1;
        let host = state.domains[last];
        let rest = AllowState { domains: swap_removed(state.domains, last), ..state };
        lemma_waiting_removed(state.allowed, state.domains, last);
        lemma_hear_uses_up(rest, last as nat, host, busy, Signal::Poll, restarted);
        let (after, answer) = rest.hear(last as nat, host, busy, Signal::Poll, restarted);
        if let Ok(busy) = answer {
            lemma_visit_uses_up(after, last as nat, busy, restarted);
        }
    }
}

/// No result is given out at once, without anything being done outside, but for a result or a
/// waiting request that was there.
pub proof fn lemma_list_uses_up<S, F, E>(
    state: AllowState<S, F, E>,
    signal: Signal<S, F, E>,
    restarted: Timer,
)
    requires
        state.is_bounded(),
        signal is Poll ==> state.phase is Idle,
    ensures
        ({
            let (after, demand) = state.step(signal, restarted);
            &&& after.is_bounded()
            &&& demand matches DemandView::Yield(Progress::Item(_)) ==> after.phase is Idle
                && after.load() < state.load() + if signal is Poll {
                0nat
            } else {
                1nat
            }
        }),
{
    match state.phase {
        AllowPhaseView::Idle => {
            if state.results.len() == 0 {
                lemma_visit_uses_up(state, state.domains.len(), false, restarted);
            }
        },
        AllowPhaseView::Visit { left, host, busy } => {
            lemma_hear_uses_up(state, left, host, busy, signal, restarted);
            let (after, answer) = state.hear(left, host, busy, signal, restarted);
            if let Ok(busy) = answer {
                lemma_visit_uses_up(after, left, busy, restarted);
            }
        },
    }
}

/// The names without the first one that reads `name`.
pub open spec fn without_first(names: Seq<Seq<char>>, name: Seq<char>) -> Seq<Seq<char>>
    decreases names.len(),
{
    if names.len() == 0 {
        names
    } else if names[0] == name {
        names.drop_first()
    } else {
        seq![names[0]] + without_first(names.drop_first(), name)
    }
}

/// The first place at which a name stands is the one that is taken off.
pub proof fn lemma_without_first(names: Seq<Seq<char>>, name: Seq<char>, i: int)
    requires
        0 <= i <= names.len(),
        forall|j: int| 0 <= j < i ==> #[trigger] names[j] != name,
        i < names.len() ==> names[i] == name,
    ensures
        without_first(names, name) == (if i < names.len() {
            names.remove(i)
        } else {
            names
        }),
    decreases names.len(),
{
    if names.len() > 0 && i > 0 {
        assert(names[0] != name);
        let rest = names.drop_first();
        assert forall|j: int| 0 <= j < i - 1 implies #[trigger] rest[j] != name by {
            assert(rest[j] == names[j + 1]);
        }
        lemma_without_first(rest, name, i - 1);
        if i < names.len() {
            assert(seq![names[0]] + rest.remove(i - 1) =~= names.remove(i));
        } else {
            assert(seq![names[0]] + rest =~= names);
        }
    } else if names.len() > 0 {
        assert(names.remove(0) =~= names.drop_first());
    }
}

/// Where a domain was allowed once, taking it off leaves names and domains in agreement.
proof fn lemma_names_after_removal<S, F, E>(
    before: AllowState<S, F, E>,
    after: AllowState<S, F, E>,
    name: Seq<char>,
)
    requires
        before.well_formed(),
        before.phase is Idle,
        before.domains.no_duplicates(),
        after.phase == before.phase,
        after.allowed == before.allowed.remove(name),
        after.domains == (if before.allowed.contains_key(name) {
            without_first(before.domains, name)
        } else {
            before.domains
        }),
    ensures
        after.well_formed(),
        after.domains.no_duplicates(),
{
    if before.allowed.contains_key(name) {
        assert(before.domains.contains(name));
        let i = choose|i: int| 0 <= i < before.domains.len() && before.domains[i] == name;
        lemma_without_first(before.domains, name, i);
        let names = before.domains;
        assert forall|j: int| 0 <= j < after.domains.len() implies after.allowed.contains_key(
            #[trigger] after.domains[j],
        ) by {
            assert(after.domains[j] == names[if j < i {
                j
            } else {
                j + 1
            }]);
        }
        assert forall|host: Seq<char>| #[trigger]
            after.allowed.contains_key(host) implies after.domains.contains(host) by {
            assert(before.allowed.contains_key(host));
            let j = choose|j: int| 0 <= j < names.len() && names[j] == host;
            assert(after.domains[if j < i {
                j
            } else {
                j - 1
            }] == host);
        }
    } else {
        assert(after.allowed =~= before.allowed);
    }
}

} // verus!
