//! Texts, and what is read out of them and off requests.
use crate::error::{CrawlError, DisallowReason, UnexpectedStatusError};
use crate::response::{
    document_nodes, html_nodes, page_bytes, page_char_bytes, Response,
};
use crate::robots::{robots_of, RobotsData, RobotsHandler};
use crate::robots_txt::{is_readable, mark_len, reading, Reading};
use crate::text::{char_bytes, is_cut};
use crate::web::{
    first_mark, header_text, header_values, is_plain_path, robots_txt_url, url_host, url_path,
    url_text, user_agent, PageRequest, Url,
};
use vstd::prelude::*;
use vstd::utf8::{encode_utf8, is_ascii_chars, is_ascii_chars_encode_utf8};

verus! {

/// What the status of a `robots.txt` says decides: where it is not there, everything is permitted;
/// where the server failed, nothing is; where it is there, its rules decide. Any other status is an
/// error that names it.
pub proof fn law_status_decides(
    status: u16,
    text: &str,
    fractions: &Vec<Option<u64>>,
    result: Result<RobotsData, UnexpectedStatusError>,
    request: PageRequest,
    permitted: bool,
)
    requires
        call_ensures(RobotsHandler::from_response, (status, text, fractions), result),
        result matches Ok(data) ==> call_ensures(
            RobotsData::is_not_disallowed,
            (&data, &request),
            permitted,
        ),
    ensures
        400 <= status < 500 ==> result is Ok && permitted,
        500 <= status < 600 ==> result is Ok && !permitted,
        200 <= status < 300 ==> result is Ok && permitted == robots_of(
            text@,
            fractions@,
        ).permits(request.url(), request.headers()),
        status < 200 || 300 <= status < 400 || status >= 600 ==> (result matches Err(error)
            && error.code() == status),
{
}

/// An error on an unexpected status gives back the status that it was made for.
pub proof fn law_status_is_kept(status: u16, error: UnexpectedStatusError, read: u16)
    requires
        call_ensures(UnexpectedStatusError::new, (status,), error),
        call_ensures(UnexpectedStatusError::status, (&error,), read),
    ensures
        read == status,
{
}

/// The state can be looked at in an error, or recovered from it: it is the same, whatever went
/// wrong.
pub proof fn law_state_is_recovered<T>(error: CrawlError<T>, seen: Option<&T>, state: Option<T>)
    requires
        call_ensures(CrawlError::<T>::state, (&error,), seen),
        call_ensures(CrawlError::<T>::into_state, (error,), state),
    ensures
        seen is Some <==> state is Some,
        seen matches Some(value) ==> state == Some(*value),
        match error {
            CrawlError::NoSuccessResponse { state: kept, .. } => state == kept,
            CrawlError::FailedRequest { state: kept, .. } => state == kept,
            CrawlError::FailedToBuildRequest { state: kept, .. } => state == kept,
            CrawlError::InvalidRequest { state: kept, .. } => state == kept,
            CrawlError::ReachedMaxDepth { state: kept, .. } => state == kept,
            CrawlError::RobotsTxtError { .. } => state is None,
            CrawlError::DisallowedRequest { state: kept, .. } => state == kept,
        },
{
}

/// Each reason for a refusal has its own words.
pub proof fn law_reasons_have_words(reason: DisallowReason, text: String)
    requires
        call_ensures(DisallowReason::message, (&reason,), text),
    ensures
        reason is RobotsTxt ==> text@ == "URL blocked by robots.txt"@,
        reason is User ==> text@ == "URL blocked by user config"@,
{
}

/// The number of bytes of a character is that of its encoding.
pub proof fn law_characters_are_encoded(c: char)
    ensures
        char_bytes(c) == encode_utf8(seq![c]).len(),
{
    assert(seq![c].drop_first() =~= Seq::<char>::empty());
    assert(encode_utf8(Seq::<char>::empty()).len() == 0);
    vstd::utf8::char_is_scalar(c);
}

/// A text takes up at most as many bytes in a document as its parts do together: three for a null,
/// two for an ampersand, and for any other character those of its encoding.
pub proof fn law_page_bytes_add_up(first: Seq<char>, second: Seq<char>)
    ensures
        page_bytes(first + second) == page_bytes(first) + page_bytes(second),
        page_bytes(Seq::empty()) == 0,
        forall|c: char| #[trigger]
            page_bytes(seq![c]) == if c as u32 == 0 {
                3
            } else if c == '&' {
                2
            } else {
                encode_utf8(seq![c]).len()
            },
    decreases second.len(),
{
    assert forall|c: char| #[trigger]
        page_bytes(seq![c]) == if c as u32 == 0 {
            3
        } else if c == '&' {
            2
        } else {
            encode_utf8(seq![c]).len()
        } by {
        law_characters_are_encoded(c);
        assert(seq![c].drop_last() =~= Seq::<char>::empty());
        assert(page_bytes(seq![c].drop_last()) == 0);
        assert(page_bytes(seq![c]) == page_char_bytes(c));
    }
    if second.len() == 0 {
        assert(first + second =~= first);
    } else {
        law_page_bytes_add_up(first, second.drop_last());
        assert((first + second).drop_last() =~= first + second.drop_last());
    }
}

/// A response can be parsed just if its text takes up at most two gigabytes in a document, and the
/// document is the one that the text spells out.
pub proof fn law_responses_are_parsed<T>(response: Response<T>, parsable: bool, html: scraper::Html)
    requires
        call_ensures(Response::<T>::is_parsable, (&response,), parsable),
        call_ensures(Response::<T>::html, (&response,), html),
    ensures
        parsable <==> page_bytes(response.text@) <= 2_147_483_648,
        parsable ==> call_requires(Response::<T>::html, (&response,)),
        html_nodes(html) == document_nodes(response.text@),
{
}

proof fn lemma_ascii_is_cut(text: Seq<char>, place: int)
    requires
        is_ascii_chars(text),
        0 <= place <= text.len(),
    ensures
        is_cut(text, place),
{
    is_ascii_chars_encode_utf8(text);
    vstd::utf8::encode_utf8_valid_utf8(text);
    let bytes = encode_utf8(text);
    if place < text.len() {
        vstd::utf8::is_char_boundary_iff_not_is_continuation_byte(bytes, place);
        assert(bytes[place] == text[place] as u8);
        assert(bytes[place] < 0x80);
    } else {
        vstd::utf8::is_char_boundary_start_end_of_seq(bytes);
    }
}

proof fn lemma_ascii_is_read(text: Seq<char>, i: int)
    requires
        is_ascii_chars(text),
        0 <= i <= text.len(),
    ensures
        ({
            let so_far = reading(text, i);
            &&& so_far.whole
            &&& 0 <= so_far.start <= so_far.end
            &&& 0 <= so_far.skipped
            &&& so_far.end + so_far.skipped == i
            &&& 0 <= so_far.lines <= i
        }),
    decreases i,
{
    if i > 0 {
        lemma_ascii_is_read(text, i - 1);
        let before = reading(text, i - 1);
        assert('\0' <= text[i - 1] <= '\u{7f}');
        assert('\0' <= text[0] <= '\u{7f}');
        lemma_ascii_is_cut(text, before.start);
        lemma_ascii_is_cut(text, before.end);
    }
}

/// A `robots.txt` that is all ASCII can be read, if it has fewer lines than a `u32` counts.
pub proof fn law_ascii_is_readable(text: Seq<char>)
    requires
        is_ascii_chars(text),
        text.len() < u32::MAX,
    ensures
        is_readable(text),
{
    lemma_ascii_is_read(text, text.len() as int);
    let last = reading(text, text.len() as int);
    lemma_ascii_is_cut(text, last.start);
    lemma_ascii_is_cut(text, last.end);
}

proof fn lemma_encoding_grows(text: Seq<char>, i: int)
    requires
        0 <= i < text.len(),
    ensures
        encode_utf8(text.take(i + 1)).len() == encode_utf8(text.take(i)).len() + char_bytes(text[i]),
    decreases text.len(),
{
    if i == 0 {
        assert(text.take(1) =~= seq![text[0]]);
        assert(text.take(0) =~= Seq::<char>::empty());
        law_characters_are_encoded(text[0]);
    } else {
        let rest = text.drop_first();
        lemma_encoding_grows(rest, i - 1);
        assert(text.take(i + 1).drop_first() =~= rest.take(i));
        assert(text.take(i).drop_first() =~= rest.take(i - 1));
    }
}

proof fn lemma_encoding_is_parted(text: Seq<char>, i: int, j: int)
    requires
        0 <= i <= j <= text.len(),
    ensures
        encode_utf8(text.subrange(i, j)).len() == encode_utf8(text.take(j)).len() - encode_utf8(
            text.take(i),
        ).len(),
    decreases j - i,
{
    let part = text.subrange(i, j);
    if i == j {
        assert(part =~= Seq::<char>::empty());
    } else {
        lemma_encoding_is_parted(text, i, j - 1);
        lemma_encoding_grows(text, j - 1);
        lemma_encoding_grows(part, j - 1 - i);
        assert(part.take(j - i) =~= part);
        assert(part.take(j - 1 - i) =~= text.subrange(i, j - 1));
    }
}

proof fn lemma_characters_are_cut(text: Seq<char>, i: int)
    requires
        0 <= i <= text.len(),
    ensures
        is_cut(text, encode_utf8(text.take(i)).len() as int),
    decreases text.len(),
{
    let bytes = encode_utf8(text);
    let place = encode_utf8(text.take(i)).len() as int;
    vstd::utf8::encode_utf8_valid_utf8(text);
    if i == 0 {
        assert(text.take(0) =~= Seq::<char>::empty());
        vstd::utf8::is_char_boundary_start_end_of_seq(bytes);
    } else {
        let rest = text.drop_first();
        lemma_characters_are_cut(rest, i - 1);
        vstd::utf8::encode_utf8_first_scalar(text);
        assert(vstd::utf8::pop_first_scalar(bytes) =~= encode_utf8(rest));
        assert(text.take(i).drop_first() =~= rest.take(i - 1));
        lemma_encoding_is_parted(text, i, text.len() as int);
        assert(text.take(text.len() as int) =~= text);
        assert(text.take(i)[0] == text[0]);
        assert(place == vstd::utf8::length_of_first_scalar(bytes) + encode_utf8(
            rest.take(i - 1),
        ).len());
    }
}

/// Whether no line of a text takes up more bytes than are looked at.
pub open spec fn has_short_lines(text: Seq<char>) -> bool {
    forall|i: int, j: int|
        0 <= i <= j <= text.len() && (forall|k: int|
            i <= k < j ==> (#[trigger] text[k]) as u32 != 0x0A && text[k] as u32 != 0x0D)
            ==> (#[trigger] encode_utf8(text.subrange(i, j))).len() <= 16_663
}

proof fn lemma_short_lines_are_read(text: Seq<char>, i: int) -> (start: int)
    requires
        has_short_lines(text),
        0 <= i <= text.len(),
    ensures
        0 <= start <= i,
        forall|k: int|
            start <= k < i ==> (#[trigger] text[k]) as u32 != 0x0A && text[k] as u32 != 0x0D,
        ({
            let so_far = reading(text, i);
            &&& so_far.whole
            &&& so_far.start == encode_utf8(text.take(start)).len()
            &&& so_far.end == encode_utf8(text.take(i)).len()
            &&& so_far.skipped == 0
            &&& 0 <= so_far.lines <= i
        }),
    decreases i,
{
    if i == 0 {
        assert(text.take(0) =~= Seq::<char>::empty());
        0
    } else {
        let c = text[i - 1];
        let start = lemma_short_lines_are_read(text, i - 1);
        let before = reading(text, i - 1);
        lemma_encoding_grows(text, i - 1);
        lemma_characters_are_cut(text, start);
        lemma_characters_are_cut(text, i - 1);
        if i <= mark_len(text) {
            assert(char_bytes(c) == 2);
            i
        } else if c as u32 == 0x0A || c as u32 == 0x0D {
            i
        } else {
            lemma_encoding_is_parted(text, start, i);
            assert(encode_utf8(text.subrange(start, i)).len() <= 16_663);
            start
        }
    }
}

/// A `robots.txt` whose lines are all short enough to be looked at whole can be read, whatever
/// characters it holds, if it has fewer lines than a `u32` counts.
pub proof fn law_short_lines_are_readable(text: Seq<char>)
    requires
        has_short_lines(text),
        text.len() < u32::MAX,
    ensures
        is_readable(text),
{
    let len = text.len() as int;
    let start = lemma_short_lines_are_read(text, len);
    lemma_characters_are_cut(text, start);
    lemma_characters_are_cut(text, len);
}

/// A text can be cut at a place just if some of its first characters take up that many bytes.
pub proof fn law_texts_are_cut_between_characters(text: Seq<char>, place: int)
    ensures
        is_cut(text, place) <==> exists|i: int|
            0 <= i <= text.len() && (#[trigger] encode_utf8(text.take(i))).len() == place,
    decreases text.len(),
{
    let bytes = encode_utf8(text);
    vstd::utf8::encode_utf8_valid_utf8(text);
    if exists|i: int|
        0 <= i <= text.len() && (#[trigger] encode_utf8(text.take(i))).len() == place {
        let i = choose|i: int|
            0 <= i <= text.len() && (#[trigger] encode_utf8(text.take(i))).len() == place;
        lemma_characters_are_cut(text, i);
    }
    if is_cut(text, place) {
        if place == 0 {
            assert(text.take(0) =~= Seq::<char>::empty());
            assert(encode_utf8(text.take(0)).len() == place);
        } else {
            assert(0 < place <= bytes.len());
            let rest = text.drop_first();
            vstd::utf8::encode_utf8_first_scalar(text);
            assert(vstd::utf8::pop_first_scalar(bytes) =~= encode_utf8(rest));
            let first = vstd::utf8::length_of_first_scalar(bytes);
            law_texts_are_cut_between_characters(rest, place - first);
            let i = choose|i: int|
                0 <= i <= rest.len() && (#[trigger] encode_utf8(rest.take(i))).len() == place
                    - first;
            assert(text.take(i + 1).drop_first() =~= rest.take(i));
            assert(text.take(i + 1)[0] == text[0]);
            assert(encode_utf8(text.take(i + 1)).len() == place);
        }
    }
}

proof fn lemma_long_line_is_read(text: Seq<char>, full: int, end: int, i: int)
    requires
        0 < full <= end < text.len(),
        0 <= i <= end,
        text[0] as u32 != 0xEF,
        forall|k: int|
            0 <= k < end ==> (#[trigger] text[k]) as u32 != 0x0A && text[k] as u32 != 0x0D,
        encode_utf8(text.take(full - 1)).len() < 16_663 <= encode_utf8(text.take(full)).len(),
    ensures
        reading(text, i) == (Reading {
            start: 0,
            end: encode_utf8(
                text.take(
                    if i <= full {
                        i
                    } else {
                        full
                    },
                ),
            ).len() as int,
            skipped: if i <= full {
                0
            } else {
                i - full
            },
            returned: false,
            lines: 0,
            whole: true,
        }),
    decreases i,
{
    if i == 0 {
        assert(text.take(0) =~= Seq::<char>::empty());
    } else {
        lemma_long_line_is_read(text, full, end, i - 1);
        lemma_encoding_grows(text, i - 1);
        if i <= full {
            lemma_encoding_is_parted(text, i - 1, full - 1);
        }
        assert(text[i - 1] as u32 != 0x0A && text[i - 1] as u32 != 0x0D);
    }
}

/// Behind a line of which not all is looked at, each character that was left out is taken for one
/// byte: where the text ends with that line, it can be read just if it can be cut at the place that
/// this comes to.
pub proof fn law_long_lines_lose_the_place(text: Seq<char>, full: int, end: int)
    requires
        0 < full <= end,
        text.len() == end + 1,
        text[0] as u32 != 0xEF,
        text[end] as u32 == 0x0A || text[end] as u32 == 0x0D,
        forall|k: int|
            0 <= k < end ==> (#[trigger] text[k]) as u32 != 0x0A && text[k] as u32 != 0x0D,
        encode_utf8(text.take(full - 1)).len() < 16_663 <= encode_utf8(text.take(full)).len(),
    ensures
        is_readable(text) <==> is_cut(
            text,
            encode_utf8(text.take(full)).len() + (end - full) + 1,
        ),
{
    lemma_long_line_is_read(text, full, end, end);
    lemma_characters_are_cut(text, 0);
    assert(text.take(0) =~= Seq::<char>::empty());
    lemma_characters_are_cut(text, full);
}

/// An address that is too long to mark the end of its path has no other `robots.txt` than itself.
pub proof fn law_long_addresses_stay(text: Seq<char>, whole: Seq<char>, path: Seq<char>)
    requires
        url_text(text) == Some(whole),
        url_path(text) == Some(path),
        whole.len() > 0xffff_ffff,
        forall|i: int|
            0 <= i <= 0xffff_ffff ==> (#[trigger] whole[i]) != '?' && whole[i] != '#',
    ensures
        robots_txt_url(text) == text,
{
    let end = first_mark(whole, true, 0);
    law_marks_are_the_first(whole, true, 0, 0);
    if end <= 0xffff_ffff {
        law_marks_are_the_first(whole, true, 0, end);
    }
}

/// The user agent of a request is the first value of its `user-agent` header, as far as that is
/// text.
pub proof fn law_user_agent_is_the_first_value(headers: reqwest::header::HeaderMap)
    ensures
        !header_values(headers).contains_key("user-agent"@) ==> user_agent(headers) is None,
        header_values(headers).contains_key("user-agent"@) ==> user_agent(headers) == header_text(
            header_values(headers)["user-agent"@][0],
        ),
{
}

/// The path of an address ends at the first question mark or hash sign in it, and its fragment
/// starts at the first hash sign.
pub proof fn law_marks_are_the_first(text: Seq<char>, query: bool, start: int, i: int)
    requires
        0 <= start <= i < text.len(),
    ensures
        start <= first_mark(text, query, start) <= text.len(),
        i < first_mark(text, query, start) ==> text[i] != '#' && !(query && text[i] == '?'),
        i == first_mark(text, query, start) ==> text[i] == '#' || (query && text[i] == '?'),
    decreases text.len() - start,
{
    reveal_with_fuel(first_mark, 2);
    if !(text[start] == '#' || (query && text[start] == '?')) {
        if start < i {
            law_marks_are_the_first(text, query, start + 1, i);
        } else if start + 1 < text.len() {
            law_marks_are_the_first(text, query, start + 1, start + 1);
        }
    }
}

/// The path `robots.txt` can be put into an address as it is.
pub proof fn law_robots_path_is_plain()
    ensures
        is_plain_path("robots.txt"@),
{
    reveal_strlit("robots.txt");
}

/// An address is read as the text that it was made of: its host, its path and the address of its
/// `robots.txt` are those of that text.
pub proof fn law_addresses_are_their_text(
    text: String,
    url: Url,
    host: Option<String>,
    path: Option<String>,
    robots: Url,
)
    requires
        call_ensures(Url::new, (text,), url),
        call_ensures(Url::host_str, (&url,), host),
        call_ensures(Url::path, (&url,), path),
        call_ensures(Url::robots_txt, (&url,), robots),
    ensures
        url@ == text@,
        match host {
            Some(name) => url_host(text@) == Some(name@),
            None => url_host(text@) is None,
        },
        match path {
            Some(name) => url_path(text@) == Some(name@),
            None => url_path(text@) is None,
        },
        robots@ == robots_txt_url(text@),
{
}

/// A request goes to the host in its address, and is parted into the request that was taken in and
/// that address.
pub proof fn law_requests_go_to_their_host(
    inner: reqwest::Request,
    request: PageRequest,
    host: Option<&String>,
    agent: Option<String>,
    parts: (reqwest::Request, Url),
)
    requires
        call_ensures(PageRequest::new, (inner,), request),
        call_ensures(PageRequest::host_str, (&request,), host),
        call_ensures(PageRequest::agent, (&request,), agent),
        call_ensures(PageRequest::into_parts, (request,), parts),
    ensures
        parts.0 == inner,
        parts.1 == request.target(),
        match host {
            Some(name) => url_host(parts.1@) == Some(name@) && request.host_name() == Some(*name),
            None => url_host(parts.1@) is None && request.host_name() is None,
        },
        match agent {
            Some(name) => user_agent(request.headers()) == Some(name@),
            None => user_agent(request.headers()) is None,
        },
{
}

} // verus!
