//! Addresses, headers and requests: what the crawler reads of the web.
use reqwest::Response as HttpResponse;
use vstd::prelude::*;

verus! {

#[verifier::external_type_specification]
#[verifier::external_body]
pub struct ExRequest(reqwest::Request);

#[verifier::external_type_specification]
#[verifier::external_body]
pub struct ExResponse(HttpResponse);

#[verifier::external_type_specification]
#[verifier::external_body]
pub struct ExError(reqwest::Error);

#[verifier::external_type_specification]
#[verifier::external_body]
#[verifier::reject_recursive_types(T)]
pub struct ExHeaderMap<T>(reqwest::header::HeaderMap<T>);

#[verifier::external_type_specification]
#[verifier::external_body]
pub struct ExHeaderValue(reqwest::header::HeaderValue);

#[verifier::external_type_specification]
#[verifier::external_body]
pub struct ExClientWithMiddleware(reqwest_middleware::ClientWithMiddleware);

#[verifier::external_type_specification]
#[verifier::external_body]
pub struct ExRequestBuilder(reqwest_middleware::RequestBuilder);

#[verifier::external_type_specification]
#[verifier::external_body]
pub struct ExMiddlewareError(reqwest_middleware::Error);

/// `ClientWithMiddleware::clone` hands out another handle on the same client.
pub assume_specification[ <reqwest_middleware::ClientWithMiddleware as Clone>::clone ](
    client: &reqwest_middleware::ClientWithMiddleware,
) -> (copy: reqwest_middleware::ClientWithMiddleware)
    ensures
        copy == *client,
;

/// The host that `reqwest::Url::host_str` reads off the address once `reqwest::Url::parse` has
/// read it.
pub uninterp spec fn url_host(text: Seq<char>) -> Option<Seq<char>>;

/// The path that `reqwest::Url::path` reads off the address, where `reqwest::Url::parse` can read
/// it.
pub uninterp spec fn url_path(text: Seq<char>) -> Option<Seq<char>>;

/// The address that `reqwest::Url::set_path` makes of the address `text`, where
/// `reqwest::Url::parse` can read that.
pub uninterp spec fn url_with_path(text: Seq<char>, path: Seq<char>) -> Option<Seq<char>>;

/// The headers of a message: the values of each name, the name in lower case.
pub uninterp spec fn header_values(
    headers: reqwest::header::HeaderMap,
) -> Map<Seq<char>, Seq<Seq<u8>>>;

/// The address as `reqwest::Url` writes it down once `reqwest::Url::parse` has read it, where that
/// can read it.
pub uninterp spec fn url_text(text: Seq<char>) -> Option<Seq<char>>;

/// The last place in an address that a `reqwest::Url` can mark, in bytes from its start.
pub const MAX_URL_LEN: u128 = 0xffff_ffff;

/// Whether a path is written as it is: it holds letters, digits and dots only.
pub open spec fn is_plain_path(path: Seq<char>) -> bool {
    forall|i: int| 0 <= i < path.len() ==> is_plain(#[trigger] path[i])
}

/// Whether a character is a letter, a digit or a dot.
pub open spec fn is_plain(c: char) -> bool {
    ||| 'a' <= c && c <= 'z'
    ||| 'A' <= c && c <= 'Z'
    ||| '0' <= c && c <= '9'
    ||| c == '.'
}

/// Whether a character starts the fragment of an address, or, with `query`, what follows its path.
pub open spec fn is_mark(c: char, query: bool) -> bool {
    c == '#' || query && c == '?'
}

/// The place of the first such character from the place `i` on; the end of the text where there is
/// none.
pub open spec fn first_mark(text: Seq<char>, query: bool, i: int) -> int
    decreases text.len() - i,
{
    if i >= text.len() {
        text.len() as int
    } else if is_mark(text[i], query) {
        i
    } else {
        first_mark(text, query, i + 1)
    }
}

/// Whether the address `whole` with the path `own` can have the plain path `path`, and a slash
/// before it, in its place: the ends of the old and of the new path, and the place where the
/// fragment then starts, have to be places that can be marked.
pub open spec fn can_take_path(whole: Seq<char>, own: Seq<char>, path: Seq<char>) -> bool {
    let end = first_mark(whole, true, 0);
    let fragment = first_mark(whole, false, 0);
    &&& end <= MAX_URL_LEN
    &&& end - own.len() + path.len() < MAX_URL_LEN
    &&& fragment < whole.len() ==> fragment - own.len() + path.len() < MAX_URL_LEN
}

/// Whether the address that `text` spells out, if it is one, can have the plain path `path` in place
/// of its own.
///
/// As `reqwest::Url` writes it down, an address is all ASCII, so that its characters are its bytes.
/// The first `?` or `#` in it ends its path, and the first `#` starts its fragment.
pub open spec fn has_room_for(text: Seq<char>, path: Seq<char>) -> bool {
    match (url_text(text), url_path(text)) {
        (Some(whole), Some(own)) => can_take_path(whole, own, path),
        _ => true,
    }
}

/// `reqwest::Url::host_str` of the address that `reqwest::Url::parse` reads; `None` where there is
/// no host or where the text is no address.
#[verifier::external_body]
fn read_host(text: &str) -> (host: Option<String>)
    ensures
        optional_text(host) == url_host(text@),
{
    reqwest::Url::parse(text).ok().and_then(|url| url.host_str().map(|host| host.to_string()))
}

/// `reqwest::Url::path` of the address that `reqwest::Url::parse` reads; `None` where the text is
/// no address.
#[verifier::external_body]
fn read_path(text: &str) -> (path: Option<String>)
    ensures
        optional_text(path) == url_path(text@),
{
    reqwest::Url::parse(text).ok().map(|url| url.path().to_string())
}

/// `reqwest::Url::as_str` of the address that `reqwest::Url::parse` reads; `None` where the text is
/// no address.
#[verifier::external_body]
fn read_text(text: &str) -> (whole: Option<String>)
    ensures
        optional_text(whole) == url_text(text@),
{
    reqwest::Url::parse(text).ok().map(|url| url.as_str().to_string())
}

/// `reqwest::Url::set_path` on the address that `reqwest::Url::parse` reads; `None` where the text
/// is no address.
///
/// A plain path goes in as it is, with a slash before it. `set_path` panics where the end of the old
/// path, the end of the new one or the start of the fragment behind it is further from the start of
/// the address than a `u32` counts. How long the query and the fragment are does not matter.
#[verifier::external_body]
fn replace_path(text: &str, path: &str) -> (changed: Option<String>)
    requires
        is_plain_path(path@),
        has_room_for(text@, path@),
    ensures
        optional_text(changed) == url_with_path(text@, path@),
{
    reqwest::Url::parse(text).ok().map(|mut url| {
        url.set_path(path);
        String::from(url)
    })
}

/// `HeaderMap::get` with the name `user-agent`: the first value of that name, as bytes.
#[verifier::external_body]
fn read_user_agent(headers: &reqwest::header::HeaderMap) -> (value: Option<Vec<u8>>)
    ensures
        match value {
            Some(bytes) => {
                &&& header_values(*headers).contains_key("user-agent"@)
                &&& header_values(*headers)["user-agent"@].len() > 0
                &&& bytes@ == header_values(*headers)["user-agent"@][0]
            },
            None => !header_values(*headers).contains_key("user-agent"@),
        },
{
    headers.get(reqwest::header::USER_AGENT).map(|value| value.as_bytes().to_vec())
}

/// `reqwest::Request::url`, as text, and a copy of `reqwest::Request::headers`.
///
/// A `reqwest::Request` shows nothing of itself but through these calls, so nothing is claimed of
/// them.
#[verifier::external_body]
fn read_request(request: &reqwest::Request) -> (read: (String, reqwest::header::HeaderMap)) {
    (request.url().as_str().to_string(), request.headers().clone())
}

/// Whether these are the address and the headers that are read off a request.
pub closed spec fn reads(
    request: reqwest::Request,
    url: Seq<char>,
    headers: reqwest::header::HeaderMap,
) -> bool {
    exists|read: (String, reqwest::header::HeaderMap)| #[trigger]
        call_ensures(read_request, (&request,), read) && read.0@ == url && read.1 == headers
}

/// `ClientWithMiddleware::request` with the method GET.
///
/// The client's initialisers, which its user wrote, have a hand in the builder, so nothing is
/// claimed of it.
#[verifier::external_body]
fn start_get(
    client: &reqwest_middleware::ClientWithMiddleware,
    url: &str,
) -> (builder: reqwest_middleware::RequestBuilder) {
    client.request(reqwest::Method::GET, url)
}

/// Whether a builder is one that `ClientWithMiddleware::request` makes of a GET request to the
/// address.
pub closed spec fn starts_get(
    client: reqwest_middleware::ClientWithMiddleware,
    url: Seq<char>,
    builder: reqwest_middleware::RequestBuilder,
) -> bool {
    exists|text: &str| text@ == url && #[trigger] call_ensures(start_get, (&client, text), builder)
}

/// A GET request to the address.
pub(crate) fn get_request(
    client: &reqwest_middleware::ClientWithMiddleware,
    url: &str,
) -> (builder: reqwest_middleware::RequestBuilder)
    ensures
        starts_get(*client, url@, builder),
{
    start_get(client, url)
}

/// The client that `reqwest_middleware::ClientBuilder` makes of the one that
/// `reqwest::Client::new` makes.
///
/// The client is made after the environment that it is made in, so nothing is claimed of it.
#[verifier::external_body]
fn standard_client() -> (client: reqwest_middleware::ClientWithMiddleware) {
    reqwest_middleware::ClientBuilder::new(reqwest::Client::new()).build()
}

/// Whether a client is one that is made where none was set.
pub closed spec fn is_standard_client(client: reqwest_middleware::ClientWithMiddleware) -> bool {
    call_ensures(standard_client, (), client)
}

/// The client for a config that sets none.
pub(crate) fn new_client() -> (client: reqwest_middleware::ClientWithMiddleware)
    ensures
        is_standard_client(client),
{
    standard_client()
}

/// `RequestBuilder::build`: the request, or what went wrong while it was put together.
///
/// A builder shows nothing of itself, so nothing is claimed of the outcome.
#[verifier::external_body]
fn build_request(
    builder: reqwest_middleware::RequestBuilder,
) -> (built: Result<reqwest::Request, reqwest::Error>) {
    builder.build()
}

/// Whether that is what `RequestBuilder::build` makes of a builder.
pub closed spec fn builds_request(
    builder: reqwest_middleware::RequestBuilder,
    built: Result<reqwest::Request, reqwest::Error>,
) -> bool {
    call_ensures(build_request, (builder,), built)
}

/// Whether that is what a builder comes to: a request with its address, its host and its headers,
/// or what went wrong while it was put together.
pub open spec fn builds_page(
    builder: reqwest_middleware::RequestBuilder,
    built: Result<PageRequest, reqwest::Error>,
) -> bool {
    match built {
        Ok(page) => builds_request(builder, Ok(page.inner())) && page.is_read(),
        Err(error) => builds_request(builder, Err(error)),
    }
}

/// Puts a request together, and makes its address and its headers readable.
pub(crate) fn build_page(builder: reqwest_middleware::RequestBuilder) -> (built: Result<
    PageRequest,
    reqwest::Error,
>)
    ensures
        builds_page(builder, built),
{
    match build_request(builder) {
        Ok(inner) => Ok(PageRequest::new(inner)),
        Err(error) => Err(error),
    }
}

/// An address.
#[derive(Debug)]
pub struct Url {
    text: String,
}

impl View for Url {
    type V = Seq<char>;

    closed spec fn view(&self) -> Seq<char> {
        self.text@
    }
}

/// The address of the `robots.txt` that goes with the address `text`: the address with the path
/// `robots.txt`. A text that is no address, or one that is too long to take that path, stays as it
/// is.
pub open spec fn robots_txt_url(text: Seq<char>) -> Seq<char> {
    match url_with_path(text, "robots.txt"@) {
        Some(changed) => if has_room_for(text, "robots.txt"@) {
            changed
        } else {
            text
        },
        None => text,
    }
}

/// The place of the first character that starts the fragment of an address, or, with `query`, what
/// follows its path; the end of the text where there is none.
fn find_mark(text: &str, query: bool) -> (place: usize)
    ensures
        place == first_mark(text@, query, 0),
        place <= text@.len(),
{
    let len: usize = text.unicode_len();
    let mut place: usize = 0;
    for c in it: text.chars()
        invariant
            it.seq() == text@,
            place == it.index(),
            len == text@.len(),
            first_mark(text@, query, 0) == first_mark(text@, query, place as int),
    {
        if c == '#' || (query && c == '?') {
            return place;
        }
        place = place + 1;
    }
    place
}

/// Whether the address `whole` with the path `own` can have the plain path `path` in its place.
fn takes_path(whole: &str, own: &str, path: &str) -> (takes: bool)
    ensures
        takes == can_take_path(whole@, own@, path@),
{
    let end: u128 = find_mark(whole, true) as u128;
    let fragment: u128 = find_mark(whole, false) as u128;
    let len: u128 = whole.unicode_len() as u128;
    let old: u128 = own.unicode_len() as u128;
    let new: u128 = path.unicode_len() as u128;
    end <= MAX_URL_LEN && end + new < MAX_URL_LEN + old && (fragment >= len || fragment + new
        < MAX_URL_LEN + old)
}

impl Url {
    /// The address that `text` spells out.
    pub fn new(text: String) -> (url: Url)
        ensures
            url@ == text@,
    {
        Url { text }
    }

    /// The address as text.
    pub fn as_str(&self) -> (text: &str)
        ensures
            text@ == self@,
    {
        self.text.as_str()
    }

    /// The host, where the address has one.
    pub fn host_str(&self) -> (host: Option<String>)
        ensures
            optional_text(host) == url_host(self@),
    {
        read_host(self.text.as_str())
    }

    /// The path, where the text is an address.
    pub fn path(&self) -> (path: Option<String>)
        ensures
            optional_text(path) == url_path(self@),
    {
        read_path(self.text.as_str())
    }

    /// The address of the `robots.txt` on the same host: the address with the path `robots.txt`.
    ///
    /// A text that is no address, or one that is too long to take that path, stays as it is.
    pub fn robots_txt(&self) -> (url: Url)
        ensures
            url@ == robots_txt_url(self@),
    {
        let path: &str = "robots.txt";
        proof {
            reveal_strlit("robots.txt");
        }
        let room: bool = match (read_text(self.text.as_str()), read_path(self.text.as_str())) {
            (Some(whole), Some(own)) => takes_path(whole.as_str(), own.as_str(), path),
            _ => true,
        };
        if room {
            if let Some(text) = replace_path(self.text.as_str(), path) {
                return Url { text };
            }
        }
        self.clone()
    }
}

impl Clone for Url {
    fn clone(&self) -> (copy: Self)
        ensures
            copy == *self,
    {
        Url { text: self.text.clone() }
    }
}

/// Whether a header's byte may stand in text: a visible ASCII character, a blank or a tab.
pub open spec fn is_visible_ascii(byte: u8) -> bool {
    32 <= byte < 127 || byte == 9
}

/// The text that a header's bytes spell out, where all of them may stand in text.
pub open spec fn header_text(bytes: Seq<u8>) -> Option<Seq<char>> {
    if forall|i: int| 0 <= i < bytes.len() ==> is_visible_ascii(#[trigger] bytes[i]) {
        Some(bytes.map_values(|byte: u8| byte as char))
    } else {
        None
    }
}

/// `HeaderValue::to_str`, on the bytes of the value: the text, where all bytes may stand in text.
///
/// The bytes are those of a header value, so that `HeaderValue::from_bytes` takes them; bytes that
/// it does not take are none that may stand in text.
#[verifier::external_body]
fn value_text(bytes: &Vec<u8>) -> (text: Option<String>)
    ensures
        optional_text(text) == header_text(bytes@),
{
    let value = reqwest::header::HeaderValue::from_bytes(bytes).ok()?;
    value.to_str().ok().map(|text| text.to_string())
}

/// A request that is ready to be sent.
///
/// The request itself is carried along for the client; its address, the host in it and its
/// headers, which the rules of the crawler go by, stand beside it.
#[derive(Debug)]
pub struct PageRequest {
    inner: reqwest::Request,
    url: Url,
    host: Option<String>,
    headers: reqwest::header::HeaderMap,
}

/// The user agent that a request with these headers is sent under, as far as it is readable.
pub open spec fn user_agent(headers: reqwest::header::HeaderMap) -> Option<Seq<char>> {
    if header_values(headers).contains_key("user-agent"@) {
        header_text(header_values(headers)["user-agent"@][0])
    } else {
        None
    }
}

/// The text of a string, where there is one.
pub open spec fn optional_text(string: Option<String>) -> Option<Seq<char>> {
    match string {
        Some(string) => Some(string@),
        None => None,
    }
}

impl PageRequest {
    /// The address and the headers are those of the request, and the host is the one in the address.
    #[verifier::type_invariant]
    closed spec fn parts_agree(&self) -> bool {
        &&& reads(self.inner, self.url@, self.headers)
        &&& optional_text(self.host) == url_host(self.url@)
    }

    /// The request as the client takes it.
    pub closed spec fn inner(&self) -> reqwest::Request {
        self.inner
    }

    /// The address.
    pub closed spec fn target(&self) -> Url {
        self.url
    }

    /// The text of the address.
    pub open spec fn url(&self) -> Seq<char> {
        self.target()@
    }

    /// The headers.
    pub closed spec fn headers(&self) -> reqwest::header::HeaderMap {
        self.headers
    }

    /// The host that the request goes to, where its address has one.
    pub closed spec fn host_name(&self) -> Option<String> {
        self.host
    }

    /// The text of the host that the request goes to, where its address has one.
    pub open spec fn host(&self) -> Option<Seq<char>> {
        optional_text(self.host_name())
    }

    /// Whether the address and the headers are those of the request, and the host is the one in
    /// the address.
    pub open spec fn is_read(&self) -> bool {
        &&& reads(self.inner(), self.url(), self.headers())
        &&& self.host() == url_host(self.url())
    }

    /// Makes the address and the headers of a request readable.
    pub fn new(inner: reqwest::Request) -> (request: PageRequest)
        ensures
            request.inner() == inner,
            request.is_read(),
    {
        let (text, headers) = read_request(&inner);
        let url = Url::new(text);
        let host = url.host_str();
        PageRequest { inner, url, host, headers }
    }

    /// The address.
    pub fn address(&self) -> (url: &Url)
        ensures
            *url == self.target(),
            self.is_read(),
    {
        proof {
            use_type_invariant(self);
        }
        &self.url
    }

    /// The host that the request goes to, where its address has one.
    pub fn host_str(&self) -> (host: Option<&String>)
        ensures
            match host {
                Some(name) => self.host_name() == Some(*name),
                None => self.host_name() is None,
            },
            self.is_read(),
    {
        proof {
            use_type_invariant(self);
        }
        self.host.as_ref()
    }

    /// The user agent that the request is sent under, where it has one that is readable.
    pub fn agent(&self) -> (agent: Option<String>)
        ensures
            optional_text(agent) == user_agent(self.headers()),
    {
        match read_user_agent(&self.headers) {
            Some(bytes) => value_text(&bytes),
            None => None,
        }
    }

    /// Parts the request from its address, to send it.
    pub fn into_parts(self) -> (parts: (reqwest::Request, Url))
        ensures
            parts == (self.inner(), self.target()),
    {
        (self.inner, self.url)
    }
}

} // verus!
