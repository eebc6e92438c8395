# voyager

A crawler whose decisions are verified with [Verus](https://github.com/verus-lang/verus).

Write a scraper with `voyager` following a state machine model: a `Scraper` takes in responses,
drags a state along several requests, and eventually produces an output. A `CrawlerConfig` says
where the crawler may go (an allow list or a block list of domains), how long it pauses between
requests, how deep it goes, how many requests it has in flight, and whether it respects
`robots.txt`.

## Layout

* `src/` is the library. It decides, and does no input or output: `Collector::poll_next` takes in
  what has happened and says what is to be done next. Every verified function has a contract over
  a model of its state, and Verus proves it.
  * `web`, `text`, `time`, `response`, `error`: addresses, requests, characters, timers, responses
    and failures.
  * `robots_txt`, `robots`: reading a `robots.txt`, and what it permits.
  * `requests`: the queue of waiting requests and the delay between them.
  * `fetch`: requests in flight, and the demands and signals that go back and forth.
  * `allowed_domain`, `allow_list`, `block_list`, `domain`: the lists of domains.
  * `config`, `crawler`, `collector`: the crawler and what drives it.
  * `laws`: what holds of the library as a whole. No request is lost or answered twice, and the
    state of a failed one can be recovered. Nothing is sent that a `robots.txt` disallows. Delays,
    depths and the number of requests in flight are kept. Nobody is told to wait while something
    is left to be sent, and the end is reported only when nothing is left to do.
* `app/` is ordinary Rust around it: the futures that send requests and read responses, and the
  stream of outputs.
* `tests/` runs the library.

What the library takes from other crates stands behind functions that are marked
`external_body`. Each says what is relied on.
