//! What can go wrong while crawling.
use crate::web::{PageRequest, Url};
use reqwest::Response as HttpResponse;
use vstd::prelude::*;

verus! {

/// Why a request came to nothing, with the state that it carried.
#[derive(Debug)]
pub enum CrawlError<T> {
    /// The response came with a status other than 2xx.
    NoSuccessResponse {
        /// The address that was asked for.
        request_url: Option<Url>,
        /// The received response.
        response: HttpResponse,
        /// The attached state to this request, if any.
        state: Option<T>,
    },
    /// No response came for the request, or it could not be read to its end.
    FailedRequest {
        /// The address that was asked for.
        request_url: Option<Url>,
        /// What went wrong.
        cause: reqwest_middleware::Error,
        /// The attached state to this request, if any.
        state: Option<T>,
    },
    /// The request could not be put together.
    FailedToBuildRequest {
        /// What went wrong.
        error: reqwest::Error,
        /// The attached state to this request, if any.
        state: Option<T>,
        /// The depth that the request would have had.
        depth: usize,
    },
    /// The request names no host to ask.
    InvalidRequest {
        /// The request.
        request: PageRequest,
        /// The attached state to this request, if any.
        state: Option<T>,
    },
    /// The request lies deeper than allowed.
    ReachedMaxDepth {
        /// The request.
        request: PageRequest,
        /// The attached state to this request, if any.
        state: Option<T>,
        /// The depth of the request.
        depth: usize,
    },
    /// The `robots.txt` of a host could not be fetched.
    RobotsTxtError {
        /// The host.
        host: String,
    },
    /// The request is not allowed.
    DisallowedRequest {
        /// Who disallowed it.
        reason: DisallowReason,
        /// The request.
        request: PageRequest,
        /// The attached state to this request, if any.
        state: Option<T>,
    },
}

impl<T> CrawlError<T> {
    /// The state that the error carries, if any.
    pub open spec fn carried(&self) -> Option<T> {
        match *self {
            CrawlError::NoSuccessResponse { state, .. } => state,
            CrawlError::FailedRequest { state, .. } => state,
            CrawlError::FailedToBuildRequest { state, .. } => state,
            CrawlError::InvalidRequest { state, .. } => state,
            CrawlError::ReachedMaxDepth { state, .. } => state,
            CrawlError::RobotsTxtError { .. } => None,
            CrawlError::DisallowedRequest { state, .. } => state,
        }
    }

    /// Get the state this error is carrying.
    pub fn state(&self) -> (state: Option<&T>)
        ensures
            match state {
                Some(s) => self.carried() == Some(*s),
                None => self.carried() is None,
            },
    {
        match self {
            CrawlError::NoSuccessResponse { state, .. } => state.as_ref(),
            CrawlError::FailedRequest { state, .. } => state.as_ref(),
            CrawlError::FailedToBuildRequest { state, .. } => state.as_ref(),
            CrawlError::InvalidRequest { state, .. } => state.as_ref(),
            CrawlError::ReachedMaxDepth { state, .. } => state.as_ref(),
            CrawlError::RobotsTxtError { .. } => None,
            CrawlError::DisallowedRequest { state, .. } => state.as_ref(),
        }
    }

    /// Recover the state this error may carry.
    pub fn into_state(self) -> (state: Option<T>)
        ensures
            state == self.carried(),
    {
        match self {
            CrawlError::NoSuccessResponse { state, .. } => state,
            CrawlError::FailedRequest { state, .. } => state,
            CrawlError::FailedToBuildRequest { state, .. } => state,
            CrawlError::InvalidRequest { state, .. } => state,
            CrawlError::ReachedMaxDepth { state, .. } => state,
            CrawlError::RobotsTxtError { .. } => None,
            CrawlError::DisallowedRequest { state, .. } => state,
        }
    }
}

/// Who disallowed a request.
#[derive(Debug, Clone, Copy, PartialEq, Eq, Structural)]
pub enum DisallowReason {
    /// Request disallowed by respecting robots.txt.
    RobotsTxt,
    /// Request disallowed by user config.
    User,
}

impl DisallowReason {
    /// The reason in words.
    pub fn message(&self) -> (text: String)
        ensures
            text@ == (match *self {
                DisallowReason::RobotsTxt => "URL blocked by robots.txt"@,
                DisallowReason::User => "URL blocked by user config"@,
            }),
    {
        match self {
            DisallowReason::RobotsTxt => "URL blocked by robots.txt".to_owned(),
            DisallowReason::User => "URL blocked by user config".to_owned(),
        }
    }
}

/// A response whose status calls for no known treatment.
#[derive(Debug, Copy, Clone, PartialEq, Eq, Structural)]
pub struct UnexpectedStatusError(u16);

impl UnexpectedStatusError {
    /// The status.
    pub closed spec fn code(&self) -> u16 {
        self.0
    }

    /// The error for a response with that status.
    pub fn new(status: u16) -> (error: Self)
        ensures
            error.code() == status,
    {
        UnexpectedStatusError(status)
    }

    /// The status of the response.
    pub fn status(&self) -> (status: u16)
        ensures
            status == self.code(),
    {
        self.0
    }
}

/// Any failure that is reported to whoever collects the output: one of the crawler's own, or one
/// of type `E` that came from outside.
#[derive(Debug)]
pub enum Failure<T, E> {
    /// A request came to nothing.
    Crawl(CrawlError<T>),
    /// The `robots.txt` came with a status that calls for no known treatment.
    UnexpectedStatus(UnexpectedStatusError),
    /// Something outside the crawler failed.
    Outside(E),
}

impl<T, E> Failure<T, E> {
    /// The state that the failure carries, if any.
    pub open spec fn carried(&self) -> Option<T> {
        match *self {
            Failure::Crawl(error) => error.carried(),
            Failure::UnexpectedStatus(_) => None,
            Failure::Outside(_) => None,
        }
    }
}

} // verus!
