//! What comes back for a request.
use crate::text::{char_bytes, count_bytes};
use crate::web::Url;
use vstd::prelude::*;

verus! {

#[verifier::external_type_specification]
#[verifier::external_body]
pub struct ExHtml(scraper::Html);

/// What the nodes of a document are, in the order of the tree: the tag of an element, the
/// characters of a text, and nothing for any other node.
pub uninterp spec fn html_nodes(html: scraper::Html) -> Seq<Seq<char>>;

/// What the nodes are of the document that `scraper::Html::parse_document` reads out of a text.
pub uninterp spec fn document_nodes(text: Seq<char>) -> Seq<Seq<char>>;

/// The number of bytes that a text in a `scraper::Html` can hold.
pub const MAX_PAGE_BYTES: u128 = 0x8000_0000;

/// The number of bytes that a character of a text takes up at most in the document: the replacement
/// character of three bytes stands for a null, and what a reference stands for takes up at most one
/// byte more than the reference, which starts with an ampersand.
pub open spec fn page_char_bytes(c: char) -> nat {
    if c as u32 == 0 {
        3
    } else if c == '&' {
        2
    } else {
        char_bytes(c)
    }
}

/// The number of bytes that a text takes up at most in the document that it spells out.
pub open spec fn page_bytes(text: Seq<char>) -> nat
    decreases text.len(),
{
    if text.len() == 0 {
        0
    } else {
        page_bytes(text.drop_last()) + page_char_bytes(text.last())
    }
}

/// `scraper::Html::parse_document`: the document that the text spells out.
///
/// `parse_document` panics where a text in the document takes up more than two gigabytes. The bound
/// on the text covers that length only.
#[verifier::external_body]
fn parse_document(text: &str) -> (html: scraper::Html)
    requires
        page_bytes(text@) <= MAX_PAGE_BYTES,
    ensures
        html_nodes(html) == document_nodes(text@),
{
    scraper::Html::parse_document(text)
}

/// Whether a document is the one that `scraper::Html::parse_document` reads out of a text.
pub closed spec fn is_document(text: Seq<char>, html: scraper::Html) -> bool {
    exists|page: &str| page@ == text && #[trigger] call_ensures(parse_document, (page,), html)
}

/// What a server answered, once it is read to its end.
pub struct Reply {
    /// The address that the answer came from.
    pub url: Url,
    /// The status code.
    pub status: u16,
    /// The headers.
    pub headers: reqwest::header::HeaderMap,
    /// The full text.
    pub text: String,
}

/// A successful response for an issued request.
pub struct Response<T> {
    /// The depth of the request that was issued for this.
    pub depth: usize,
    /// The url of the request that was issued.
    pub request_url: Url,
    /// The url of the response as received.
    pub response_url: Url,
    /// The status code of the response.
    pub response_status: u16,
    /// The headers of the received response.
    pub response_headers: reqwest::header::HeaderMap,
    /// The full response text.
    pub text: String,
    /// The attached state of the scraper.
    pub state: Option<T>,
}

impl<T> Response<T> {
    /// Whether the text is short enough to be parsed.
    pub fn is_parsable(&self) -> (parsable: bool)
        ensures
            parsable == (page_bytes(self.text@) <= MAX_PAGE_BYTES),
    {
        let text: &str = self.text.as_str();
        let len: usize = text.unicode_len();
        let mut place: usize = 0;
        let mut bytes: u128 = 0;
        for c in it: text.chars()
            invariant
                it.seq() == text@,
                place == it.index(),
                len == text@.len(),
                bytes == page_bytes(text@.take(place as int)),
                bytes <= 4 * place,
        {
            assert(text@.take(place + 1).drop_last() =~= text@.take(place as int));
            let more: u128 = if c as u32 == 0 {
                3
            } else if c == '&' {
                2
            } else {
                count_bytes(c)
            };
            bytes = bytes + more;
            place = place + 1;
        }
        assert(text@.take(place as int) =~= text@);
        bytes <= MAX_PAGE_BYTES
    }

    /// Returns the parsed Html document.
    pub fn html(&self) -> (html: scraper::Html)
        requires
            page_bytes(self.text@) <= MAX_PAGE_BYTES,
        ensures
            is_document(self.text@, html),
            html_nodes(html) == document_nodes(self.text@),
    {
        parse_document(self.text.as_str())
    }
}

} // verus!
