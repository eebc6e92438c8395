use std::collections::VecDeque;
use voyager::requests::{NextRequest, QueuedRequest, RequestDelay, RequestQueue};
use voyager::time::{Duration, Timer};
use voyager::web::PageRequest;

fn queued(url: &str, state: u32) -> QueuedRequest<u32> {
    let client = reqwest_middleware::ClientBuilder::new(reqwest::Client::new()).build();
    let request = PageRequest::new(client.request(reqwest::Method::GET, url).build().unwrap());
    QueuedRequest { request, state: Some(state), depth: 1 }
}

fn state_of(next: NextRequest<u32>) -> Option<u32> {
    match next {
        NextRequest::Send(request) => request.state,
        _ => None,
    }
}

#[test]
fn spans_are_kept_to_the_nanosecond() {
    let span = Duration::new(3, 999_999_999);
    assert_eq!((span.as_secs(), span.subsec_nanos(), span.as_millis()), (3, 999_999_999, 3999));
    let span = Duration::from_millis(2_345);
    assert_eq!((span.as_secs(), span.subsec_nanos(), span.as_millis()), (2, 345_000_000, 2345));
    let span = Duration::from_secs(u64::MAX);
    assert_eq!(span.as_millis(), u64::MAX as u128 * 1000);
    assert_eq!(Duration::from_secs(2), Duration::from_millis(2000));
    assert_ne!(Duration::from_secs(2), Duration::from_millis(2001));
}

#[test]
fn a_fixed_delay_is_the_next_delay() {
    let delay = RequestDelay::fixed(Duration::from_millis(1500));
    assert!(delay.has_range());
    assert_eq!(delay.next_delay(), Duration::from_millis(1500));
}

#[test]
fn a_random_delay_lies_in_its_range() {
    let delay = RequestDelay::random_in_range(Duration::from_millis(3), Duration::from_millis(5));
    assert!(delay.has_range());
    let mut seen = [false; 6];
    for _ in 0..500 {
        let millis = delay.next_delay().as_millis();
        assert!((3..=5).contains(&millis));
        seen[millis as usize] = true;
    }
    assert_eq!(seen, [false, false, false, true, true, true]);

    let delay = RequestDelay::random(Duration::from_millis(0));
    assert_eq!(delay.next_delay(), Duration::from_millis(0));
    let delay = RequestDelay::random(Duration::from_millis(9));
    assert!(matches!(delay, RequestDelay::Random { min, .. } if min.as_millis() == 0));
    for _ in 0..100 {
        assert!(delay.next_delay().as_millis() <= 9);
    }
}

#[test]
fn an_empty_range_is_found_out() {
    let delay = RequestDelay::random_in_range(Duration::from_millis(5), Duration::from_millis(3));
    assert!(!delay.has_range());
    let delay = RequestDelay::random_in_range(Duration::new(0, 999_999), Duration::from_millis(0));
    assert!(!delay.has_range());
}

#[test]
fn a_random_delay_keeps_its_ends_to_the_nanosecond() {
    let end = Duration::new(0, 1_500_000);
    assert_eq!(RequestDelay::random_in_range(end, end).next_delay(), end);
    let delay = RequestDelay::random_in_range(end, Duration::new(0, 3_999_999));
    for _ in 0..100 {
        let nanos = delay.next_delay().as_nanos();
        assert!(nanos == 2_000_000 || nanos == 3_000_000);
    }
    let delay = RequestDelay::random_in_range(Duration::new(0, 7), Duration::new(0, 9));
    for _ in 0..100 {
        assert!((7..=9).contains(&delay.next_delay().as_nanos()));
    }
    let longest = Duration::new(u64::MAX, 999_999_999);
    assert_eq!(RequestDelay::random_in_range(longest, longest).next_delay(), longest);
    assert_eq!(Duration::from_nanos(longest.as_nanos()), longest);
}

#[test]
fn requests_leave_in_the_order_in_which_they_came() {
    let mut queue: RequestQueue<u32> = RequestQueue::default();
    assert!(queue.is_empty());
    for state in 1..4 {
        queue.push_back(queued("https://a.b/", state));
    }
    queue.extend(VecDeque::from(vec![queued("https://a.b/", 4), queued("https://a.b/", 5)]));
    assert_eq!(queue.len(), 5);
    for state in 1..6 {
        assert_eq!(state_of(queue.poll_next()), Some(state));
    }
    assert!(matches!(queue.poll_next(), NextRequest::Empty));
    assert!(queue.is_empty());
}

#[test]
fn equal_requests_are_all_kept() {
    let mut queue: RequestQueue<u32> = RequestQueue::default();
    queue.push_back(queued("https://a.b/", 1));
    queue.push_back(queued("https://a.b/", 1));
    assert_eq!(queue.len(), 2);
    assert_eq!(queue.queue_mut().len(), 2);
    queue.queue_mut().clear();
    assert!(queue.is_empty());
}

#[test]
fn with_a_delay_the_timer_decides() {
    let mut queue = RequestQueue::with_delay(RequestDelay::fixed(Duration::from_millis(20)));
    assert!(matches!(queue.poll_next(), NextRequest::Empty));
    queue.push_back(queued("https://a.b/", 1));
    queue.push_back(queued("https://a.b/", 2));

    let timer = match queue.poll_next() {
        NextRequest::Wait(timer) => timer,
        _ => panic!("the timer is not asked"),
    };
    assert!(queue.resume(timer, false).is_none());
    assert_eq!(queue.len(), 2);

    let timer = match queue.poll_next() {
        NextRequest::Wait(timer) => timer,
        _ => panic!("the timer is not asked"),
    };
    let first = queue.resume(timer, true).unwrap();
    assert_eq!(first.state, Some(1));
    assert_eq!(queue.len(), 1);
    assert!(matches!(queue.poll_next(), NextRequest::Wait(_)));
}

#[test]
fn the_delay_can_be_set_and_removed() {
    let mut queue: RequestQueue<u32> = RequestQueue::default();
    queue.push_back(queued("https://a.b/", 1));
    assert!(queue.remove_delay().is_none());
    let first = RequestDelay::fixed(Duration::from_millis(1));
    let second = RequestDelay::fixed(Duration::from_millis(2));
    assert!(queue.set_delay(first).is_none());
    assert!(matches!(queue.poll_next(), NextRequest::Wait(_)));
    let before = queue.set_delay(second).unwrap();
    assert_eq!(before.next_delay(), Duration::from_millis(1));
    let before = queue.remove_delay().unwrap();
    assert_eq!(before.next_delay(), Duration::from_millis(2));
    assert_eq!(state_of(queue.poll_next()), Some(1));
}

#[test]
fn a_timer_runs_out_once_its_time_has_come() {
    let mut timer = Timer::new();
    futures::executor::block_on(&mut timer.delay);
    let start = std::time::Instant::now();
    let mut timer = timer.reset(Duration::from_millis(30));
    futures::executor::block_on(&mut timer.delay);
    assert!(start.elapsed() >= std::time::Duration::from_millis(30));
}
