//! Requests that wait to be sent, and the delay between them.
use crate::time::{lemma_same_span, Duration, Timer};
use crate::web::PageRequest;
use std::collections::VecDeque;
use vstd::prelude::*;

verus! {

/// A request that is waiting to be sent.
pub struct QueuedRequest<T> {
    /// The request to send.
    pub request: PageRequest,
    /// The requested state to use when crawling.
    pub state: Option<T>,
    /// How many links the crawler visited before it queued this request.
    pub depth: usize,
}

/// Builder for [QueuedRequest].
pub struct QueuedRequestBuilder<T> {
    /// The request to send.
    pub request: reqwest_middleware::RequestBuilder,
    /// The requested state to use when crawling.
    pub state: Option<T>,
    /// How many links the crawler visited before it queued this request.
    pub depth: usize,
}

/// The number of nanoseconds in a millisecond.
pub const NANOS_PER_MILLI: u128 = 1_000_000;

/// Whether some whole number of milliseconds lies between two spans, both ends included.
pub open spec fn holds_whole_millis(min: Duration, max: Duration) -> bool {
    (min.total_nanos() + NANOS_PER_MILLI - 1) / NANOS_PER_MILLI as int <= max.total_nanos()
        / NANOS_PER_MILLI as int
}

/// How to delay a request.
#[derive(Debug, Clone, Copy)]
pub enum RequestDelay {
    /// Apply a fixed delay to request.
    Fixed(Duration),
    /// Apply a random delay to a request that lies between `min` and `max`, both ends included.
    Random {
        /// Minimum delay duration to apply.
        min: Duration,
        /// Maximum delay duration to apply.
        max: Duration,
    },
}

/// `rand::thread_rng().gen_range(low..=high)`: some number from `low` to `high`.
///
/// The number is random, so nothing more is claimed of it; an empty range makes the call panic.
#[verifier::external_body]
fn random_between(low: u128, high: u128) -> (number: u128)
    requires
        low <= high,
    ensures
        low <= number <= high,
{
    rand::Rng::gen_range(&mut rand::thread_rng(), low..=high)
}

impl RequestDelay {
    /// Whether the range that a random delay is taken from holds anything.
    pub open spec fn is_valid(self) -> bool {
        match self {
            RequestDelay::Fixed(_) => true,
            RequestDelay::Random { min, max } => min.total_nanos() <= max.total_nanos(),
        }
    }

    /// Whether `span` may be the next delay: the fixed delay itself, or any span in the range, both
    /// ends included. It is a whole number of milliseconds where the range holds one.
    pub open spec fn admits(self, span: Duration) -> bool {
        match self {
            RequestDelay::Fixed(delay) => span == delay,
            RequestDelay::Random { min, max } => {
                &&& min.total_nanos() <= span.total_nanos() <= max.total_nanos()
                &&& holds_whole_millis(min, max) ==> span.total_nanos() % NANOS_PER_MILLI as int
                    == 0
            },
        }
    }

    /// Use a fixed delay.
    pub fn fixed(delay: Duration) -> (it: Self)
        ensures
            it == RequestDelay::Fixed(delay),
    {
        RequestDelay::Fixed(delay)
    }

    /// Use a random delay of range `0..max`.
    pub fn random(max: Duration) -> (it: Self)
        ensures
            it matches RequestDelay::Random { min, max: most } && min.total_nanos() == 0 && most
                == max,
    {
        RequestDelay::Random { min: Duration::from_millis(0), max }
    }

    /// Use a random delay of range `min..max`.
    pub fn random_in_range(min: Duration, max: Duration) -> (it: Self)
        ensures
            it == (RequestDelay::Random { min, max }),
    {
        RequestDelay::Random { min, max }
    }

    /// Whether the range that a random delay is taken from holds anything.
    pub fn has_range(&self) -> (valid: bool)
        ensures
            valid == self.is_valid(),
    {
        match self {
            RequestDelay::Fixed(_) => true,
            RequestDelay::Random { min, max } => min.as_nanos() <= max.as_nanos(),
        }
    }

    /// Computes the next [Duration] of delay that the [RequestQueue] should take.
    ///
    /// For [Fixed](RequestDelay::Fixed) delays, this will return the fixed value.
    ///
    /// For [Random](RequestDelay::Random) delays, it will choose a new random number.
    pub fn next_delay(&self) -> (span: Duration)
        requires
            self.is_valid(),
        ensures
            self.admits(span),
            *self matches RequestDelay::Random { min, max } ==> (min == max ==> span == min),
    {
        match self {
            RequestDelay::Fixed(delay) => *delay,
            RequestDelay::Random { min, max } => {
                let low: u128 = min.as_nanos();
                let high: u128 = max.as_nanos();
                let first: u128 = (low + (NANOS_PER_MILLI - 1)) / NANOS_PER_MILLI;
                let last: u128 = high / NANOS_PER_MILLI;
                let nanos: u128 = if first <= last {
                    random_between(first, last) * NANOS_PER_MILLI
                } else {
                    random_between(low, high)
                };
                let span = Duration::from_nanos(nanos);
                proof {
                    if *min == *max {
                        lemma_same_span(span, *min);
                    }
                }
                span
            },
        }
    }
}

/// Queue containing the list of requests left to crawl.
///
/// This queue does not dedupe requests.
pub struct RequestQueue<T> {
    /// The timer that runs between two requests, unless it is out to be polled.
    timer: Option<Timer>,
    delay: Option<RequestDelay>,
    queued_requests: VecDeque<QueuedRequest<T>>,
}

/// What a [RequestQueue] holds.
#[verifier::ext_equal]
pub struct QueueState<T> {
    /// The timer that runs between two requests, unless it is out to be polled.
    pub timer: Option<Timer>,
    /// The delay between two requests.
    pub delay: Option<RequestDelay>,
    /// The waiting requests, the next one first.
    pub queued: Seq<QueuedRequest<T>>,
}

impl<T> QueueState<T> {
    /// Whether the timer is at hand where there is a delay to keep.
    pub open spec fn armed(self) -> bool {
        self.delay is Some ==> self.timer is Some
    }

    /// Whether the delay, if any, can be kept.
    pub open spec fn delay_is_valid(self) -> bool {
        self.delay matches Some(delay) ==> delay.is_valid()
    }

    /// The queue with one more request at its end.
    pub open spec fn push(self, request: QueuedRequest<T>) -> QueueState<T> {
        QueueState { queued: self.queued.push(request), ..self }
    }

    /// The queue with more requests at its end.
    pub open spec fn append(self, requests: Seq<QueuedRequest<T>>) -> QueueState<T> {
        QueueState { queued: self.queued + requests, ..self }
    }

    /// The queue without its first request, and that request.
    pub open spec fn pop(self) -> (QueueState<T>, Option<QueuedRequest<T>>) {
        if self.queued.len() == 0 {
            (self, None)
        } else {
            (QueueState { queued: self.queued.drop_first(), ..self }, Some(self.queued[0]))
        }
    }

    /// What asking for the next request does.
    pub open spec fn poll_next(self) -> (QueueState<T>, NextRequest<T>) {
        if self.queued.len() == 0 {
            (self, NextRequest::Empty)
        } else if self.delay is Some {
            (QueueState { timer: None, ..self }, NextRequest::Wait(self.timer->0))
        } else {
            (self.pop().0, NextRequest::Send(self.queued[0]))
        }
    }

    /// What the timer's return does, where it runs on as `restarted` if it has run out.
    pub open spec fn resume(self, timer: Timer, elapsed: bool, restarted: Timer) -> (
        QueueState<T>,
        Option<QueuedRequest<T>>,
    ) {
        if self.delay is None {
            self.pop()
        } else if elapsed {
            (QueueState { timer: Some(restarted), ..self.pop().0 }, self.pop().1)
        } else {
            (QueueState { timer: Some(timer), ..self }, None)
        }
    }

    /// Whether the timer may run on as `restarted`: if it has run out, it is set to a delay that
    /// is due.
    pub open spec fn may_restart(self, elapsed: bool, restarted: Timer) -> bool {
        elapsed ==> (self.delay matches Some(delay) ==> delay.admits(restarted.set_to())
            && restarted.is_set())
    }
}

impl<T> View for RequestQueue<T> {
    type V = QueueState<T>;

    closed spec fn view(&self) -> QueueState<T> {
        QueueState {
            timer: self.timer,
            delay: self.delay,
            queued: self.queued_requests@,
        }
    }
}

/// What a queue answers when it is asked for the next request.
pub enum NextRequest<T> {
    /// Nothing is waiting.
    Empty,
    /// A request is waiting; this timer says whether it may go.
    Wait(Timer),
    /// This request may go.
    Send(QueuedRequest<T>),
}

impl<T> RequestQueue<T> {
    /// Creates a new [RequestQueue] with the given delay.
    pub fn with_delay(delay: RequestDelay) -> (queue: Self)
        ensures
            queue@.delay == Some(delay),
            queue@.timer matches Some(timer) && timer.runs_out_at_once(),
            queue@.queued.len() == 0,
    {
        RequestQueue {
            timer: Some(Timer::new()),
            delay: Some(delay),
            queued_requests: VecDeque::new(),
        }
    }

    /// Adds a request at the end.
    pub fn push_back(&mut self, request: QueuedRequest<T>)
        ensures
            final(self)@ == old(self)@.push(request),
    {
        self.queued_requests.push_back(request);
    }

    /// Adds requests at the end, in their order.
    pub fn extend(&mut self, requests: VecDeque<QueuedRequest<T>>)
        ensures
            final(self)@ == old(self)@.append(requests@),
    {
        let mut requests = requests;
        self.queued_requests.append(&mut requests);
    }

    /// Direct access to the waiting requests.
    pub fn queue_mut(&mut self) -> (queue: &mut VecDeque<QueuedRequest<T>>)
        ensures
            queue@ == old(self)@.queued,
            final(self)@ == (QueueState { queued: final(queue)@, ..old(self)@ }),
    {
        &mut self.queued_requests
    }

    /// Removes the crawl delay.
    ///
    /// Requests will be crawled immediately where possible.
    pub fn remove_delay(&mut self) -> (delay: Option<RequestDelay>)
        ensures
            delay == old(self)@.delay,
            final(self)@ == (QueueState { timer: None, delay: None, ..old(self)@ }),
    {
        self.timer = None;
        self.delay.take()
    }

    /// Set a delay to be applied between requests.
    ///
    /// A timer that is running runs on; without one a timer is started that runs out at once.
    pub fn set_delay(&mut self, delay: RequestDelay) -> (before: Option<RequestDelay>)
        ensures
            before == old(self)@.delay,
            final(self)@.delay == Some(delay),
            final(self)@.queued == old(self)@.queued,
            old(self)@.delay is Some ==> final(self)@.timer == old(self)@.timer,
            old(self)@.delay is None ==> (final(self)@.timer matches Some(timer)
                && timer.runs_out_at_once()),
    {
        let before = self.delay.take();
        if before.is_none() {
            self.timer = Some(Timer::new());
        }
        self.delay = Some(delay);
        before
    }

    /// Whether nothing is waiting.
    pub fn is_empty(&self) -> (empty: bool)
        ensures
            empty == (self@.queued.len() == 0),
    {
        self.queued_requests.len() == 0
    }

    /// The number of waiting requests.
    pub fn len(&self) -> (len: usize)
        ensures
            len == self@.queued.len(),
    {
        self.queued_requests.len()
    }

    /// Whether the delay, if any, can be kept.
    pub fn has_valid_delay(&self) -> (valid: bool)
        ensures
            valid == self@.delay_is_valid(),
    {
        match &self.delay {
            Some(delay) => delay.has_range(),
            None => true,
        }
    }

    /// Asks for the next request. Where a delay is to be kept, the timer is handed out to be
    /// polled, and [resume](RequestQueue::resume) takes it back.
    pub fn poll_next(&mut self) -> (next: NextRequest<T>)
        requires
            old(self)@.armed(),
        ensures
            (final(self)@, next) == old(self)@.poll_next(),
    {
        if self.queued_requests.len() == 0 {
            return NextRequest::Empty;
        }
        if self.delay.is_some() {
            let timer = self.timer.take().unwrap();
            return NextRequest::Wait(timer);
        }
        let first = self.queued_requests.pop_front().unwrap();
        assert(old(self)@.queued.drop_first() =~= self@.queued);
        NextRequest::Send(first)
    }

    /// Takes the timer back, once it has been polled: the next request goes if the timer has run
    /// out, and the timer is then restarted with the next delay.
    pub fn resume(&mut self, timer: Timer, elapsed: bool) -> (next: Option<QueuedRequest<T>>)
        requires
            elapsed ==> old(self)@.delay_is_valid(),
        ensures
            exists|restarted: Timer|
                old(self)@.may_restart(elapsed, restarted) && (final(self)@, next) == #[trigger] old(
                    self,
                )@.resume(timer, elapsed, restarted),
    {
        let mut timer = timer;
        let ghost returned = timer;
        let mut next: Option<QueuedRequest<T>> = None;
        match self.delay {
            None => {
                next = self.queued_requests.pop_front();
                assert(old(self)@.queued.len() > 0 ==> old(self)@.queued.drop_first()
                    =~= self@.queued);
                assert((self@, next) == old(self)@.resume(returned, elapsed, returned));
            },
            Some(delay) => {
                if elapsed {
                    next = self.queued_requests.pop_front();
                    timer = timer.reset(delay.next_delay());
                }
                let ghost restarted = timer;
                self.timer = Some(timer);
                assert(old(self)@.queued.len() > 0 && elapsed ==> old(self)@.queued.drop_first()
                    =~= self@.queued);
                assert((self@, next) == old(self)@.resume(returned, elapsed, restarted));
            },
        }
        next
    }
}

impl<T> Default for RequestQueue<T> {
    fn default() -> (queue: Self)
        ensures
            queue@ == (QueueState {
                timer: None,
                delay: None,
                queued: Seq::<QueuedRequest<T>>::empty(),
            }),
    {
        RequestQueue { timer: None, delay: None, queued_requests: VecDeque::new() }
    }
}

} // verus!
