//! Spans of time, the delays between requests, and the queue that keeps them.
use crate::requests::{NextRequest, QueueState, QueuedRequest, RequestDelay, RequestQueue};
use crate::time::{Duration, Timer};
use vstd::prelude::*;

verus! {

/// The length of a span is that of its seconds and of the nanoseconds beyond them together, in
/// whole milliseconds too.
pub proof fn law_spans_are_measured(span: Duration)
    ensures
        span.total_nanos() == span.secs() * 1_000_000_000 + span.nanos(),
        span.total_millis() == span.total_nanos() / 1_000_000,
{
}

/// A span is as long as it was made to be, in whatever unit it was made and is read.
pub proof fn law_spans_are_as_long_as_made(
    secs: u64,
    millis: u64,
    nanos: u128,
    below: u32,
    of_secs: Duration,
    of_millis: Duration,
    of_nanos: Duration,
    of_both: Duration,
)
    requires
        call_ensures(Duration::from_secs, (secs,), of_secs),
        call_ensures(Duration::from_millis, (millis,), of_millis),
        call_ensures(Duration::from_nanos, (nanos,), of_nanos),
        call_ensures(Duration::new, (secs, below), of_both),
    ensures
        of_secs.total_nanos() == secs * 1_000_000_000,
        of_millis.total_nanos() == millis * 1_000_000,
        of_nanos.total_nanos() == nanos,
        of_both.total_nanos() == secs * 1_000_000_000 + below,
{
}

/// What is read off a span is its length.
pub proof fn law_spans_are_read(
    span: Duration,
    secs: u64,
    below: u32,
    millis: u128,
    nanos: u128,
)
    requires
        call_ensures(Duration::as_secs, (&span,), secs),
        call_ensures(Duration::subsec_nanos, (&span,), below),
        call_ensures(Duration::as_millis, (&span,), millis),
        call_ensures(Duration::as_nanos, (&span,), nanos),
    ensures
        nanos == secs * 1_000_000_000 + below,
        below < 1_000_000_000,
        millis == nanos as int / 1_000_000,
        nanos == span.total_nanos(),
{
}

/// A fixed delay is always the same. A random one is never shorter than its minimum and never
/// longer than its maximum, and is a whole number of milliseconds where one lies between them.
pub proof fn law_delays_are_kept_to(delay: RequestDelay, span: Duration)
    requires
        call_ensures(RequestDelay::next_delay, (&delay,), span),
    ensures
        match delay {
            RequestDelay::Fixed(fixed) => span == fixed,
            RequestDelay::Random { min, max } => {
                &&& min.total_nanos() <= span.total_nanos()
                &&& span.total_nanos() <= max.total_nanos()
                &&& (exists|millis: int|
                    #![trigger millis * 1_000_000]
                    min.total_nanos() <= millis * 1_000_000 <= max.total_nanos())
                    ==> span.total_nanos() % 1_000_000 == 0
            },
        },
{
    if let RequestDelay::Random { min, max } = delay {
        if exists|millis: int|
            #![trigger millis * 1_000_000]
            min.total_nanos() <= millis * 1_000_000 <= max.total_nanos() {
            let millis = choose|millis: int|
                #![trigger millis * 1_000_000]
                min.total_nanos() <= millis * 1_000_000 <= max.total_nanos();
            let (low, high) = (min.total_nanos(), max.total_nanos());
            assert((low + 999_999) / 1_000_000 <= millis) by (nonlinear_arith)
                requires
                    low <= millis * 1_000_000,
            ;
            assert(millis <= high / 1_000_000) by (nonlinear_arith)
                requires
                    millis * 1_000_000 <= high,
            ;
        }
    }
}

/// A delay is the one that it was made to be: one that is random up to a maximum starts at nothing.
pub proof fn law_delays_are_as_made(
    span: Duration,
    min: Duration,
    fixed: RequestDelay,
    random: RequestDelay,
    ranging: RequestDelay,
)
    requires
        call_ensures(RequestDelay::fixed, (span,), fixed),
        call_ensures(RequestDelay::random, (span,), random),
        call_ensures(RequestDelay::random_in_range, (min, span), ranging),
    ensures
        fixed == RequestDelay::Fixed(span),
        random matches RequestDelay::Random { min: none, max } && none.total_nanos() == 0 && max
            == span,
        ranging == (RequestDelay::Random { min, max: span }),
{
}

/// A delay can be kept just if it is fixed, or if its minimum is no longer than its maximum.
pub proof fn law_delays_can_be_kept(delay: RequestDelay, can: bool)
    requires
        call_ensures(RequestDelay::has_range, (&delay,), can),
    ensures
        can <==> match delay {
            RequestDelay::Fixed(_) => true,
            RequestDelay::Random { min, max } => min.total_nanos() <= max.total_nanos(),
        },
        can ==> call_requires(RequestDelay::next_delay, (&delay,)),
{
}

/// A new timer runs out at once, and one that is reset runs for the span that it was reset to.
pub proof fn law_timers_are_set(fresh: Timer, timer: Timer, span: Duration, reset: Timer)
    requires
        call_ensures(Timer::new, (), fresh),
        call_ensures(Timer::reset, (timer, span), reset),
    ensures
        fresh.set_to().total_nanos() == 0,
        fresh.is_set(),
        reset.set_to() == span,
        reset.is_set(),
{
}

/// A new queue with a delay keeps that delay, holds nothing, and its timer runs out at once.
pub proof fn law_new_queue_keeps_its_delay<T>(delay: RequestDelay, queue: RequestQueue<T>)
    requires
        call_ensures(RequestQueue::<T>::with_delay, (delay,), queue),
    ensures
        queue@.delay == Some(delay),
        queue@.queued.len() == 0,
        queue@.timer matches Some(timer) && timer.set_to().total_nanos() == 0 && timer.is_set(),
{
}

/// What is read off a queue is how many requests wait in it.
pub proof fn law_queue_is_counted<T>(queue: RequestQueue<T>, empty: bool, len: usize, valid: bool)
    requires
        call_ensures(RequestQueue::<T>::is_empty, (&queue,), empty),
        call_ensures(RequestQueue::<T>::len, (&queue,), len),
        call_ensures(RequestQueue::<T>::has_valid_delay, (&queue,), valid),
    ensures
        len == queue@.queued.len(),
        empty <==> len == 0,
        valid <==> match queue@.delay {
            Some(RequestDelay::Random { min, max }) => min.total_nanos() <= max.total_nanos(),
            _ => true,
        },
{
}

/// Requests that are put into a queue together go behind those that wait already, in their order;
/// the delay and the timer stay.
pub proof fn law_queue_takes_requests_in_order<T>(
    queue: QueueState<T>,
    request: QueuedRequest<T>,
    requests: Seq<QueuedRequest<T>>,
    place: int,
)
    requires
        0 <= place < queue.queued.len() + requests.len(),
    ensures
        queue.append(requests).queued.len() == queue.queued.len() + requests.len(),
        queue.append(requests).queued[place] == if place < queue.queued.len() {
            queue.queued[place]
        } else {
            requests[place - queue.queued.len()]
        },
        queue.append(requests).delay == queue.delay,
        queue.append(requests).timer == queue.timer,
        queue.push(request).queued == queue.append(seq![request]).queued,
        queue.push(request).delay == queue.delay,
        queue.push(request).timer == queue.timer,
{
    assert(queue.push(request).queued =~= queue.append(seq![request]).queued);
}

/// Asking a queue for the next request hands out the first one where there is no delay, and the
/// timer where there is one; an empty queue has nothing to hand out. The other requests keep their
/// order.
pub proof fn law_queue_hands_out<T>(queue: QueueState<T>, timer: Timer)
    requires
        queue.delay is Some ==> queue.timer == Some(timer),
    ensures
        ({
            let (after, next) = queue.poll_next();
            &&& after.delay == queue.delay
            &&& queue.queued.len() == 0 ==> next is Empty && after == queue
            &&& queue.queued.len() > 0 && queue.delay is None ==> {
                &&& next == NextRequest::Send(queue.queued[0])
                &&& after.queued == queue.queued.skip(1)
                &&& after.timer == queue.timer
            }
            &&& queue.queued.len() > 0 && queue.delay is Some ==> {
                &&& next == NextRequest::<T>::Wait(timer)
                &&& after.queued == queue.queued
                &&& after.timer is None
            }
        }),
{
    if queue.queued.len() > 0 {
        assert(queue.queued.drop_first() =~= queue.queued.skip(1));
    }
}

/// A timer that comes back to a queue lets the first request go just if it has run out, or if
/// there is no delay any more. One that has run out is the one that runs on anew, and one that has
/// not is kept.
pub proof fn law_queue_lets_go_by_the_timer<T>(
    queue: QueueState<T>,
    timer: Timer,
    elapsed: bool,
    restarted: Timer,
)
    ensures
        ({
            let (after, next) = queue.resume(timer, elapsed, restarted);
            let goes = queue.queued.len() > 0 && (elapsed || queue.delay is None);
            &&& after.delay == queue.delay
            &&& goes ==> next == Some(queue.queued[0]) && after.queued == queue.queued.skip(1)
            &&& !goes ==> next is None && after.queued == queue.queued
            &&& queue.delay is Some && elapsed ==> after.timer == Some(restarted)
            &&& queue.delay is Some && !elapsed ==> after.timer == Some(timer)
            &&& queue.delay is None ==> after.timer == queue.timer
        }),
        queue.may_restart(true, restarted) ==> match queue.delay {
            None => true,
            Some(RequestDelay::Fixed(span)) => restarted.set_to() == span && restarted.is_set(),
            Some(RequestDelay::Random { min, max }) => {
                &&& min.total_nanos() <= restarted.set_to().total_nanos() <= max.total_nanos()
                &&& restarted.is_set()
            },
        },
{
    if queue.queued.len() > 0 {
        assert(queue.queued.drop_first() =~= queue.queued.skip(1));
    }
}

} // verus!
