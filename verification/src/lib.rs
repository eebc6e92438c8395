//! voyager
//!
//! With voyager you can easily extract structured data from websites.
//!
//! Write your own crawler with voyager following a state machine model: a [Scraper] takes in the
//! responses, drags a state along several requests and eventually produces its output.
//!
//! * [CrawlerConfig] configures a crawler: an allow list or a block list of domains, delays
//!   between requests, a maximum depth, and whether to respect the `robots.txt` rules.
//! * [Collector] drives the [Crawler] and forwards the responses to the [Scraper].
//!
//! The library does no input or output of its own. [Collector::poll_next] takes in what has
//! happened and says what is to be done next: to send a request, to read a response, to look at a
//! timer, or to pass an output on. Whoever drives it does that and tells it what came of it.
pub mod allow_list;
pub mod allowed_domain;
pub mod block_list;
pub mod collector;
pub mod config;
pub mod crawler;
pub mod domain;
pub mod error;
pub mod fetch;
pub mod laws;
pub mod number;
pub mod requests;
pub mod response;
pub mod robots;
pub mod robots_txt;
pub mod string_map;
pub mod text;
pub mod time;
pub mod web;

pub use crate::allow_list::AllowList;
pub use crate::allowed_domain::{AllowListConfig, AllowedDomain};
pub use crate::block_list::BlockList;
pub use crate::collector::{Collector, Scraper};
pub use crate::config::CrawlerConfig;
pub use crate::crawler::{Crawler, Stats};
pub use crate::domain::DomainListing;
pub use crate::requests::RequestDelay;
pub use crate::response::Response;
/// Reexport all the scraper types.
pub use scraper;
