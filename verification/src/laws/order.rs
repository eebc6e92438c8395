//! Requests leave a queue in the order in which they came.
use crate::requests::{NextRequest, QueueState, QueuedRequest};
use vstd::prelude::*;

verus! {

/// The requests that a queue gives out when it is asked `count` times, as long as it lets them go
/// at once.
pub open spec fn given_in_turn<T>(queue: QueueState<T>, count: nat) -> Seq<QueuedRequest<T>>
    decreases count,
{
    if count == 0 {
        Seq::empty()
    } else {
        match queue.poll_next() {
            (rest, NextRequest::Send(request)) => seq![request] + given_in_turn(
                rest,
                (count - 1) as nat,
            ),
            _ => Seq::empty(),
        }
    }
}

/// Without a delay, a queue gives its requests out in the order in which they came, until it is
/// empty.
pub proof fn law_queue_keeps_the_order<T>(queue: QueueState<T>, count: nat)
    requires
        queue.delay is None,
    ensures
        given_in_turn(queue, count) == if count <= queue.queued.len() {
            queue.queued.take(count as int)
        } else {
            queue.queued
        },
    decreases count,
{
    if count > 0 && queue.queued.len() > 0 {
        let (rest, _) = queue.poll_next();
        law_queue_keeps_the_order(rest, (count - 1) as nat);
        let first = seq![queue.queued[0]];
        if count <= queue.queued.len() {
            assert(first + rest.queued.take(count - 1) =~= queue.queued.take(count as int));
        } else {
            assert(first + rest.queued =~= queue.queued);
        }
    } else {
        assert(queue.queued.take(0) =~= Seq::empty());
        assert(queue.queued.len() == 0 ==> queue.queued =~= Seq::empty());
    }
}

/// A request that is put into a queue comes behind all that wait already, and each of those keeps
/// its place.
pub proof fn law_queue_appends<T>(queue: QueueState<T>, request: QueuedRequest<T>, place: int)
    requires
        0 <= place < queue.queued.len(),
    ensures
        queue.push(request).queued[place] == queue.queued[place],
        queue.push(request).queued.last() == request,
        queue.push(request).queued.len() == queue.queued.len() + 1,
{
}

} // verus!
