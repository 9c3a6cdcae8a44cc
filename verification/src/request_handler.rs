//! The request flows: diagnostics, login, logout and the check that the
//! proxy asks for on every protected request.
//!
//! A request arrives parsed, as a [`Request`], and leaves as a [`Response`]:
//! a status, the session cookie to set, if any, and the [`Page`] to show. To
//! turn a page into HTML is the caller's part.
//!
//! A login attempt that comes before the throttle's deadline has to wait.
//! The library does not sleep: [`RequestHandler::respond`] hands such an
//! attempt back as [`Outcome::Wait`], and the caller, having waited, passes
//! it on to [`finish_login`].
use vstd::prelude::*;
use vstd::string::is_ascii;
use vstd::string::is_ascii_spec_bytes;
use vstd::string::StringSliceAdditionalSpecFns;
use vstd::utf8::encode_utf8;
use crate::cookie_store::to_cookie;
use crate::cookie_store::CookieKey;
use crate::cookie_store::CookieStore;
use crate::cookie_store::is_token;
use crate::cookie_store::lemma_token_is_ascii;
use crate::cookie_store::TOKEN_LENGTH;
use crate::router::classes;
use crate::router::matched_text;
use crate::router::RoutingTable;
use crate::text::ascii_chars;
use crate::text::ascii_text;
use crate::text::decimal;
use crate::text::is_ascii_bytes;
use crate::text::text_equal;
use crate::system::now_unix_epoch;
use crate::throttle::ThrottleController;
use crate::totp::any_accepts;
use crate::totp::verify_any_at;
use crate::totp::texts;

verus! {

/// The flows.
#[derive(Clone, Copy, Debug, PartialEq, Eq, Structural)]
pub enum Route {
    Login,
    Logout,
    Info,
    Check,
}

/// The method of a request, as far as the flows tell methods apart.
#[derive(Clone, Copy, Debug, PartialEq, Eq, Structural)]
pub enum Method {
    Get,
    Post,
    Other,
}

/// One header line of a request: its name and the bytes of its value.
pub struct Header {
    pub name: Vec<u8>,
    pub value: Vec<u8>,
}

/// A parsed request.
pub struct Request {
    pub method: Method,
    pub path: String,
    pub headers: Vec<Header>,
    pub body: Vec<u8>,
}

/// Why a request cannot be handled.
#[derive(Clone, Copy, Debug, PartialEq, Eq, Structural)]
pub enum HandlerError {
    /// The value of a secret header holds a byte that is no visible ASCII.
    SecretHeaderUnreadable,
    /// The value of a cookie header holds a byte that is no visible ASCII.
    CookieHeaderUnreadable,
    /// A cookie is no pair of a name and a value.
    CookieUnparsable,
    /// A login request is neither GET nor POST.
    WrongMethod,
    /// The login form lacks the field `token`.
    MissingFormField,
    /// A login was attempted and the request names no secret.
    NoSecretsConfigured,
}

/// What a response shows.
#[derive(Debug, PartialEq, Eq)]
pub enum Page {
    /// The diagnostics.
    Info { path_rest: String },
    /// The diagnostics with the sessions that the store shows, each with its
    /// end written out, and the throttle's deadline.
    InfoDebug { path_rest: String, sessions: Vec<(String, String)>, wait_until: u64 },
    /// The visitor has a session.
    LoggedIn,
    /// The login form, which carries the redirect target on.
    LoginForm { redirect: String },
    /// The login succeeded; the page refers to the redirect target.
    LoginSuccess { redirect: String },
    /// The login failed.
    LoginFailed,
    /// The session cookie was cleared.
    LoggedOut,
    /// Nothing: the check passed.
    Empty,
    /// No flow has this path.
    NotFound,
    /// The check failed.
    CookieExpired,
    /// The request could not be handled.
    Failure(HandlerError),
}

/// The value of a [`Page`].
pub enum PageView {
    Info { path_rest: Seq<char> },
    InfoDebug { path_rest: Seq<char>, sessions: Seq<(Seq<char>, Seq<char>)>, wait_until: u64 },
    LoggedIn,
    LoginForm { redirect: Seq<char> },
    LoginSuccess { redirect: Seq<char> },
    LoginFailed,
    LoggedOut,
    Empty,
    NotFound,
    CookieExpired,
    Failure(HandlerError),
}

impl View for Page {
    type V = PageView;

    open spec fn view(&self) -> PageView {
        match self {
            Page::Info { path_rest } => PageView::Info { path_rest: path_rest@ },
            Page::InfoDebug { path_rest, sessions, wait_until } => PageView::InfoDebug {
                path_rest: path_rest@,
                sessions: Seq::new(sessions@.len(), |i: int| (sessions@[i].0@, sessions@[i].1@)),
                wait_until: *wait_until,
            },
            Page::LoggedIn => PageView::LoggedIn,
            Page::LoginForm { redirect } => PageView::LoginForm { redirect: redirect@ },
            Page::LoginSuccess { redirect } => PageView::LoginSuccess { redirect: redirect@ },
            Page::LoginFailed => PageView::LoginFailed,
            Page::LoggedOut => PageView::LoggedOut,
            Page::Empty => PageView::Empty,
            Page::NotFound => PageView::NotFound,
            Page::CookieExpired => PageView::CookieExpired,
            Page::Failure(error) => PageView::Failure(*error),
        }
    }
}

/// What goes back to the client.
#[derive(Debug, PartialEq, Eq)]
pub struct Response {
    /// The HTTP status.
    pub status: u16,
    /// The value of a `Set-Cookie` header, where the response sets one.
    pub set_cookie: Option<String>,
    /// What the body shows.
    pub page: Page,
}

/// The value of a [`Response`].
pub struct ResponseView {
    pub status: u16,
    pub set_cookie: Option<Seq<char>>,
    pub page: PageView,
}

impl View for Response {
    type V = ResponseView;

    open spec fn view(&self) -> ResponseView {
        ResponseView {
            status: self.status,
            set_cookie: match self.set_cookie {
                Some(text) => Some(text@),
                None => None,
            },
            page: self.page@,
        }
    }
}

/// Status of a response that went well, a failed login included.
pub const STATUS_OK: u16 = 200;

/// Status of a failed check.
pub const STATUS_UNAUTHORIZED: u16 = 401;

/// Status where no flow has the path.
pub const STATUS_NOT_FOUND: u16 = 404;

/// Status of a request that could not be handled.
pub const STATUS_INTERNAL_SERVER_ERROR: u16 = 500;

/// The views of a list of headers, each a name and a value.
pub open spec fn header_views(headers: Seq<(String, String)>) -> Seq<(Seq<char>, Seq<char>)> {
    Seq::new(headers.len(), |i: int| (headers[i].0@, headers[i].1@))
}

/// A response that sets no cookie.
pub open spec fn plain(status: u16, page: PageView) -> ResponseView {
    ResponseView { status, set_cookie: None, page }
}

/// A response with status 200 that sets a cookie.
pub open spec fn with_cookie(cookie: Seq<char>, page: PageView) -> ResponseView {
    ResponseView { status: STATUS_OK, set_cookie: Some(cookie), page }
}

/// The response to a request that could not be handled.
pub open spec fn failure(error: HandlerError) -> ResponseView {
    plain(STATUS_INTERNAL_SERVER_ERROR, PageView::Failure(error))
}

fn reply(status: u16, page: Page) -> (response: Response)
    ensures
        response@ == plain(status, page@),
{
    Response { status, set_cookie: None, page }
}

fn fail(error: HandlerError) -> (response: Response)
    ensures
        response@ == failure(error),
{
    reply(STATUS_INTERNAL_SERVER_ERROR, Page::Failure(error))
}

fn owned(text: &str) -> (copy: String)
    ensures
        copy@ == text@,
{
    text.to_owned()
}

/// The headers that every response has: the type of the body, and that no
/// page may be shown inside a frame.
pub open spec fn default_header_views() -> Seq<(Seq<char>, Seq<char>)> {
    seq![("content-type"@, "text/html; charset=utf-8"@), ("x-frame-options"@, "DENY"@)]
}

/// The headers of a response: those that every response has, and after
/// them the cookie, where the response sets one.
pub open spec fn headers_of(response: ResponseView) -> Seq<(Seq<char>, Seq<char>)> {
    match response.set_cookie {
        Some(cookie) => default_header_views().push(("set-cookie"@, cookie)),
        None => default_header_views(),
    }
}

/// Computes [`default_header_views`].
pub fn default_headers() -> (headers: Vec<(String, String)>)
    ensures
        header_views(headers@) == default_header_views(),
{
    let mut headers: Vec<(String, String)> = Vec::new();
    headers.push((owned("content-type"), owned("text/html; charset=utf-8")));
    headers.push((owned("x-frame-options"), owned("DENY")));
    assert(header_views(headers@) =~= default_header_views());
    headers
}

impl Response {
    /// Computes [`headers_of`].
    pub fn headers(&self) -> (headers: Vec<(String, String)>)
        ensures
            header_views(headers@) == headers_of(self@),
    {
        let mut headers = default_headers();
        match &self.set_cookie {
            Some(cookie) => {
                let ghost before = header_views(headers@);
                headers.push((owned("set-cookie"), cookie.clone()));
                assert(header_views(headers@) =~= before.push(("set-cookie"@, cookie@)));
            },
            None => {},
        }
        headers
    }
}

impl HandlerError {
    /// The words for the error, as the body of the response says them.
    pub fn message(&self) -> (text: String)
        ensures
            text@ == match *self {
                HandlerError::SecretHeaderUnreadable => "Failed to read totp-secret header value"@,
                HandlerError::CookieHeaderUnreadable => "Failed to read cookie value"@,
                HandlerError::CookieUnparsable => "Failed to parse cookie value"@,
                HandlerError::WrongMethod => "Wrong method"@,
                HandlerError::MissingFormField => "missing argument 'token'"@,
                HandlerError::NoSecretsConfigured => "no secrets configured"@,
            },
    {
        match self {
            HandlerError::SecretHeaderUnreadable => owned(
                "Failed to read totp-secret header value",
            ),
            HandlerError::CookieHeaderUnreadable => owned("Failed to read cookie value"),
            HandlerError::CookieUnparsable => owned("Failed to parse cookie value"),
            HandlerError::WrongMethod => owned("Wrong method"),
            HandlerError::MissingFormField => owned("missing argument 'token'"),
            HandlerError::NoSecretsConfigured => owned("no secrets configured"),
        }
    }
}

impl Page {
    /// The body of a page that is plain words; nothing for a page of HTML.
    pub fn plain_text(&self) -> (text: Option<String>)
        ensures
            match self@ {
                PageView::Empty => text matches Some(t) && t@ == ""@,
                PageView::NotFound => text matches Some(t) && t@ == "Resource not found"@,
                PageView::CookieExpired => text matches Some(t) && t@ == "Cookie expired"@,
                PageView::Failure(error) => text matches Some(t) && t@ == match error {
                    HandlerError::SecretHeaderUnreadable =>
                        "Failed to read totp-secret header value"@,
                    HandlerError::CookieHeaderUnreadable => "Failed to read cookie value"@,
                    HandlerError::CookieUnparsable => "Failed to parse cookie value"@,
                    HandlerError::WrongMethod => "Wrong method"@,
                    HandlerError::MissingFormField => "missing argument 'token'"@,
                    HandlerError::NoSecretsConfigured => "no secrets configured"@,
                },
                _ => text is None,
            },
    {
        match self {
            Page::Empty => Some(owned("")),
            Page::NotFound => Some(owned("Resource not found")),
            Page::CookieExpired => Some(owned("Cookie expired")),
            Page::Failure(error) => Some(error.message()),
            _ => None,
        }
    }
}

/// What `cookie::Cookie::parse` reads from one cookie: its name and its
/// value, or nothing where the text is no cookie.
pub uninterp spec fn cookie_pair(part: Seq<char>) -> Option<(Seq<char>, Seq<char>)>;

/// What `url::form_urlencoded::parse` reads from a form: its fields, each a
/// name and a value, in the order of the form.
pub uninterp spec fn form_pairs(body: Seq<u8>) -> Seq<(Seq<char>, Seq<char>)>;

/// How `time::Tm::rfc822` writes the time that `time::at_utc` makes of a
/// number of seconds since the epoch.
pub uninterp spec fn rfc822_text(seconds: i64) -> Seq<char>;

/// How `time::strftime` writes, in a given format, the time that
/// `time::at_utc` makes of a number of seconds since the epoch; nothing
/// where the format is none.
pub uninterp spec fn formatted_time(format: Seq<char>, seconds: i64) -> Option<Seq<char>>;

/// The last second of the year 9999.
pub const LAST_CALENDAR_SECOND: u64 = 253_402_300_799;

/// `time::strftime` of `time::at_utc`: a time in a given format. The time
/// is one that `time::at_utc` can break down. The result depends on the
/// format and the seconds alone.
#[verifier::external_body]
fn format_time(format: &str, seconds: i64) -> (text: Option<String>)
    requires
        0 <= seconds <= LAST_CALENDAR_SECOND,
    ensures
        match text {
            Some(found) => formatted_time(format@, seconds) == Some(found@),
            None => formatted_time(format@, seconds) is None,
        },
{
    time::strftime(format, &time::at_utc(time::Timespec::new(seconds, 0))).ok()
}

/// How the diagnostics write the end of a session: date and time, or `</>`
/// for an end that the calendar does not reach.
pub open spec fn expiry_text(expiry: u64) -> Seq<char> {
    if expiry <= LAST_CALENDAR_SECOND {
        match formatted_time("%c"@, expiry as i64) {
            Some(text) => text,
            None => "</>"@,
        }
    } else {
        "</>"@
    }
}

/// Computes [`expiry_text`].
pub fn write_expiry(expiry: u64) -> (text: String)
    ensures
        text@ == expiry_text(expiry),
{
    if expiry <= LAST_CALENDAR_SECOND {
        match format_time("%c", expiry as i64) {
            Some(text) => text,
            None => owned("</>"),
        }
    } else {
        owned("</>")
    }
}

/// The views of a list of pairs of texts.
pub open spec fn pair_views(pairs: Seq<(String, String)>) -> Seq<(Seq<char>, Seq<char>)> {
    Seq::new(pairs.len(), |i: int| (pairs[i].0@, pairs[i].1@))
}

/// The beginning of a `Set-Cookie` value: the pair, `HttpOnly` where the
/// cookie is to be kept from scripts, and the path.
pub open spec fn cookie_head(
    name: Seq<char>,
    value: Seq<char>,
    http_only: bool,
    path: Seq<char>,
) -> Seq<char> {
    name + "="@ + value + (if http_only {
        "; HttpOnly"@
    } else {
        Seq::empty()
    }) + "; Path="@ + path
}

/// The `Set-Cookie` value of the session cookie: the token, `HttpOnly`, the
/// path `/` and the age in seconds.
pub open spec fn session_cookie_text(token: Seq<char>, max_age: u32) -> Seq<char> {
    cookie_head("totp_cookie"@, token, true, "/"@) + "; Max-Age="@ + ascii_chars(
        decimal(max_age as nat),
    )
}

/// The `Set-Cookie` value that clears the session cookie: no value,
/// `HttpOnly`, the path `/` and an expiry at the epoch.
pub open spec fn clearing_cookie_text() -> Seq<char> {
    cookie_head("totp_cookie"@, ""@, true, "/"@) + "; Expires="@ + rfc822_text(0)
}

/// `cookie::Cookie::parse`: the name and the value of one cookie. The result
/// depends on the text alone.
#[verifier::external_body]
fn parse_cookie(part: &str) -> (pair: Option<(String, String)>)
    ensures
        match pair {
            Some(found) => cookie_pair(part@) == Some((found.0@, found.1@)),
            None => cookie_pair(part@) is None,
        },
{
    match cookie::Cookie::parse(part) {
        Ok(found) => Some((found.name().to_string(), found.value().to_string())),
        Err(_) => None,
    }
}

/// `url::form_urlencoded::parse`: the fields of a form. The result depends
/// on the bytes alone.
#[verifier::external_body]
fn parse_form(body: &[u8]) -> (pairs: Vec<(String, String)>)
    ensures
        pair_views(pairs@) == form_pairs(body@),
{
    url::form_urlencoded::parse(body).into_owned().collect()
}

/// `cookie::CookieBuilder` and the cookie's `to_string`: a cookie with a
/// path and a maximal age, written out as the crate writes it: the pair
/// first, then `HttpOnly`, the path and the age, in the crate's order.
#[verifier::external_body]
fn render_cookie_with_age(
    name: &str,
    value: &str,
    http_only: bool,
    path: &str,
    max_age: u32,
) -> (text: String)
    ensures
        text@ == cookie_head(name@, value@, http_only, path@) + "; Max-Age="@ + ascii_chars(
            decimal(max_age as nat),
        ),
{
    cookie::CookieBuilder::new(name.to_string(), value.to_string())
        .http_only(http_only)
        .path(path.to_string())
        .max_age(time::Duration::seconds(i64::from(max_age)))
        .finish()
        .to_string()
}

/// `cookie::CookieBuilder` and the cookie's `to_string`: a cookie with a
/// path and an expiry, written out as the crate writes it. The expiry is one
/// that `time::at_utc` can break down.
#[verifier::external_body]
fn render_cookie_with_expiry(
    name: &str,
    value: &str,
    http_only: bool,
    path: &str,
    expires: i64,
) -> (text: String)
    requires
        0 <= expires <= i32::MAX,
    ensures
        text@ == cookie_head(name@, value@, http_only, path@) + "; Expires="@ + rfc822_text(
            expires,
        ),
{
    cookie::CookieBuilder::new(name.to_string(), value.to_string())
        .http_only(http_only)
        .path(path.to_string())
        .expires(time::at_utc(time::Timespec::new(expires, 0)))
        .finish()
        .to_string()
}

/// The lower-case letter of an upper-case ASCII letter; any other byte
/// itself.
pub open spec fn lower(byte: u8) -> u8 {
    if 65 <= byte <= 90 {
        (byte + 32) as u8
    } else {
        byte
    }
}

/// Whether a header's name is `wanted`, which is in lower case, whatever the
/// case of the header's letters.
pub open spec fn names(name: Seq<u8>, wanted: Seq<u8>) -> bool {
    name.len() == wanted.len() && forall|i: int|
        0 <= i < name.len() ==> lower(#[trigger] name[i]) == wanted[i]
}

/// A byte that may stand in a header's value that is text: visible ASCII, a
/// blank or a tab.
pub open spec fn is_visible(byte: u8) -> bool {
    (32 <= byte < 127) || byte == 9
}

/// Whether a header's value is text.
pub open spec fn readable(value: Seq<u8>) -> bool {
    forall|i: int| 0 <= i < value.len() ==> is_visible(#[trigger] value[i])
}

/// The pieces of `text` between the occurrences of `"; "`, found from
/// position `i` on, the first piece beginning at `start`.
pub open spec fn split_from(text: Seq<u8>, start: int, i: int) -> Seq<Seq<u8>>
    decreases text.len() - i,
{
    if i >= text.len() {
        seq![text.subrange(start, text.len() as int)]
    } else if i + 1 < text.len() && text[i] == 59 && text[i + 1] == 32 {
        seq![text.subrange(start, i)] + split_from(text, i + 2, i + 2)
    } else {
        split_from(text, start, i + 1)
    }
}

/// The pieces of a cookie header's value between the occurrences of `"; "`.
pub open spec fn cookie_parts(text: Seq<u8>) -> Seq<Seq<u8>> {
    split_from(text, 0, 0)
}

/// The secrets that the first `n` headers name: the values of the headers
/// named `x-totp-secret`, in order. An error where one of them is no text.
pub open spec fn secrets_in(headers: Seq<Header>, n: int) -> Result<Seq<Seq<char>>, HandlerError>
    decreases n,
{
    if n <= 0 {
        Ok(Seq::empty())
    } else {
        match secrets_in(headers, n - 1) {
            Err(error) => Err(error),
            Ok(secrets) => {
                let header = headers[n - 1];
                if !names(header.name@, "x-totp-secret".spec_bytes()) {
                    Ok(secrets)
                } else if !readable(header.value@) {
                    Err(HandlerError::SecretHeaderUnreadable)
                } else {
                    Ok(secrets.push(ascii_chars(header.value@)))
                }
            },
        }
    }
}

/// The cookies of the first `n` pieces of a cookie header: each piece that
/// is not empty gives one pair. An error where a piece is no cookie.
pub open spec fn cookies_of(parts: Seq<Seq<u8>>, n: int) -> Result<
    Seq<(Seq<char>, Seq<char>)>,
    HandlerError,
>
    decreases n,
{
    if n <= 0 {
        Ok(Seq::empty())
    } else {
        match cookies_of(parts, n - 1) {
            Err(error) => Err(error),
            Ok(cookies) => {
                let part = parts[n - 1];
                if part.len() == 0 {
                    Ok(cookies)
                } else {
                    match cookie_pair(ascii_chars(part)) {
                        None => Err(HandlerError::CookieUnparsable),
                        Some(pair) => Ok(cookies.push(pair)),
                    }
                }
            },
        }
    }
}

/// The cookies that the first `n` headers bring: those of the headers named
/// `cookie`, in order. An error where a value is no text or a piece of it is
/// no cookie.
pub open spec fn cookies_in(headers: Seq<Header>, n: int) -> Result<
    Seq<(Seq<char>, Seq<char>)>,
    HandlerError,
>
    decreases n,
{
    if n <= 0 {
        Ok(Seq::empty())
    } else {
        match cookies_in(headers, n - 1) {
            Err(error) => Err(error),
            Ok(cookies) => {
                let header = headers[n - 1];
                if !names(header.name@, "cookie".spec_bytes()) {
                    Ok(cookies)
                } else if !readable(header.value@) {
                    Err(HandlerError::CookieHeaderUnreadable)
                } else {
                    let parts = cookie_parts(header.value@);
                    match cookies_of(parts, parts.len() as int) {
                        Err(error) => Err(error),
                        Ok(more) => Ok(cookies + more),
                    }
                }
            },
        }
    }
}

/// What the flows read from the headers of a request.
pub struct HeaderExtract {
    /// The shared secrets that the request names.
    pub totp_secrets: Vec<String>,
    /// The cookies that the request brings, each a name and a value.
    pub cookies: Vec<(String, String)>,
}

/// What the headers of a request hold: the secrets and the cookies. The
/// secrets are read first: an unreadable secret is reported before anything
/// about the cookies.
pub open spec fn parsed(headers: Seq<Header>) -> Result<
    (Seq<Seq<char>>, Seq<(Seq<char>, Seq<char>)>),
    HandlerError,
> {
    match secrets_in(headers, headers.len() as int) {
        Err(error) => Err(error),
        Ok(secrets) => match cookies_in(headers, headers.len() as int) {
            Err(error) => Err(error),
            Ok(cookies) => Ok((secrets, cookies)),
        },
    }
}

/// Computes [`lower`].
pub fn lower_case(byte: u8) -> (low: u8)
    ensures
        low == lower(byte),
{
    if 65 <= byte && byte <= 90 {
        byte + 32
    } else {
        byte
    }
}

/// Computes [`names`].
pub fn header_named(name: &[u8], wanted: &str) -> (same: bool)
    ensures
        same == names(name@, wanted.spec_bytes()),
{
    let wanted_bytes = wanted.as_bytes();
    if name.len() != wanted_bytes.len() {
        return false;
    }
    let mut i: usize = 0;
    while i < name.len()
        invariant
            wanted_bytes@ == wanted.spec_bytes(),
            name@.len() == wanted_bytes@.len(),
            i <= name@.len(),
            forall|j: int| 0 <= j < i ==> lower(#[trigger] name@[j]) == wanted_bytes@[j],
        decreases name@.len() - i,
    {
        if lower_case(name[i]) != wanted_bytes[i] {
            assert(lower(name@[i as int]) != wanted_bytes@[i as int]);
            return false;
        }
        i += 1;
    }
    true
}

/// Computes [`readable`].
pub fn is_readable(value: &[u8]) -> (good: bool)
    ensures
        good == readable(value@),
{
    let mut i: usize = 0;
    while i < value.len()
        invariant
            i <= value@.len(),
            forall|j: int| 0 <= j < i ==> is_visible(#[trigger] value@[j]),
        decreases value@.len() - i,
    {
        let byte = value[i];
        if !((32 <= byte && byte < 127) || byte == 9) {
            return false;
        }
        i += 1;
    }
    true
}

/// The byte strings of a list.
pub open spec fn rows(list: Seq<Vec<u8>>) -> Seq<Seq<u8>> {
    Seq::new(list.len(), |i: int| list[i]@)
}

/// Computes [`cookie_parts`].
pub fn split_cookie_header(text: &[u8]) -> (parts: Vec<Vec<u8>>)
    ensures
        rows(parts@) == cookie_parts(text@),
{
    let mut parts: Vec<Vec<u8>> = Vec::new();
    let mut piece: Vec<u8> = Vec::new();
    let mut i: usize = 0;
    let ghost mut start: int = 0;
    assert(rows(parts@) + split_from(text@, start, 0) =~= cookie_parts(text@));
    while i < text.len()
        invariant
            0 <= start <= i <= text@.len(),
            piece@ == text@.subrange(start, i as int),
            rows(parts@) + split_from(text@, start, i as int) == cookie_parts(text@),
        decreases text@.len() - i,
    {
        if text[i] == 59 && i + 1 < text.len() && text[i + 1] == 32 {
            let ghost before = rows(parts@);
            parts.push(piece);
            piece = Vec::new();
            proof {
                assert(rows(parts@) =~= before.push(text@.subrange(start, i as int)));
                assert(rows(parts@) + split_from(text@, i + 2, i + 2) =~= before + split_from(
                    text@,
                    start,
                    i as int,
                ));
                start = i + 2;
                assert(piece@ =~= text@.subrange(start, i + 2));
            }
            i += 2;
        } else {
            piece.push(text[i]);
            proof {
                assert(piece@ =~= text@.subrange(start, i + 1));
            }
            i += 1;
        }
    }
    let ghost before = rows(parts@);
    parts.push(piece);
    proof {
        assert(rows(parts@) =~= before.push(text@.subrange(start, text@.len() as int)));
        assert(rows(parts@) =~= before + split_from(text@, start, i as int));
    }
    parts
}

/// The secrets that the headers of a request name.
pub fn read_secrets(headers: &Vec<Header>) -> (res: Result<Vec<String>, HandlerError>)
    ensures
        match secrets_in(headers@, headers@.len() as int) {
            Ok(secrets) => res is Ok && texts(res->Ok_0@) == secrets,
            Err(error) => res == Err::<Vec<String>, HandlerError>(error),
        },
{
    let mut secrets: Vec<String> = Vec::new();
    let mut i: usize = 0;
    assert(texts(secrets@) =~= Seq::<Seq<char>>::empty());
    while i < headers.len()
        invariant
            i <= headers@.len(),
            secrets_in(headers@, i as int) == Ok::<Seq<Seq<char>>, HandlerError>(texts(secrets@)),
        decreases headers@.len() - i,
    {
        let header = &headers[i];
        if header_named(header.name.as_slice(), "x-totp-secret") {
            if !is_readable(header.value.as_slice()) {
                proof {
                    lemma_secrets_error_stays(headers@, i + 1, headers@.len() as int);
                }
                return Err(HandlerError::SecretHeaderUnreadable);
            }
            let ghost before = texts(secrets@);
            secrets.push(ascii_text(header.value.as_slice()));
            proof {
                assert(texts(secrets@) =~= before.push(ascii_chars(header.value@)));
            }
        }
        i += 1;
    }
    Ok(secrets)
}

/// An error among the first `n` headers is the error of any more headers.
pub proof fn lemma_secrets_error_stays(headers: Seq<Header>, n: int, m: int)
    requires
        n <= m,
        secrets_in(headers, n) is Err,
    ensures
        secrets_in(headers, m) == secrets_in(headers, n),
    decreases m - n,
{
    if n < m {
        lemma_secrets_error_stays(headers, n, m - 1);
    }
}

/// An error among the first `n` headers is the error of any more headers.
pub proof fn lemma_cookies_error_stays(headers: Seq<Header>, n: int, m: int)
    requires
        n <= m,
        cookies_in(headers, n) is Err,
    ensures
        cookies_in(headers, m) == cookies_in(headers, n),
    decreases m - n,
{
    if n < m {
        lemma_cookies_error_stays(headers, n, m - 1);
    }
}

/// An error among the first `n` pieces is the error of any more pieces.
pub proof fn lemma_parts_error_stays(parts: Seq<Seq<u8>>, n: int, m: int)
    requires
        n <= m,
        cookies_of(parts, n) is Err,
    ensures
        cookies_of(parts, m) == cookies_of(parts, n),
    decreases m - n,
{
    if n < m {
        lemma_parts_error_stays(parts, n, m - 1);
    }
}

/// The cookies of one cookie header's value, which is text.
pub fn read_cookie_header(value: &[u8]) -> (res: Result<Vec<(String, String)>, HandlerError>)
    requires
        readable(value@),
    ensures
        match cookies_of(cookie_parts(value@), cookie_parts(value@).len() as int) {
            Ok(cookies) => res is Ok && pair_views(res->Ok_0@) == cookies,
            Err(error) => res == Err::<Vec<(String, String)>, HandlerError>(error),
        },
{
    let parts = split_cookie_header(value);
    let ghost all = cookie_parts(value@);
    proof {
        lemma_parts_are_text(value@, 0, 0);
    }
    let mut cookies: Vec<(String, String)> = Vec::new();
    let mut i: usize = 0;
    assert(pair_views(cookies@) =~= Seq::<(Seq<char>, Seq<char>)>::empty());
    while i < parts.len()
        invariant
            i <= parts@.len(),
            all == cookie_parts(value@),
            rows(parts@) == all,
            forall|j: int| 0 <= j < all.len() ==> is_ascii_bytes(#[trigger] all[j]),
            cookies_of(all, i as int) == Ok::<Seq<(Seq<char>, Seq<char>)>, HandlerError>(
                pair_views(cookies@),
            ),
        decreases parts@.len() - i,
    {
        let part = &parts[i];
        proof {
            assert(all[i as int] == part@);
        }
        if part.len() > 0 {
            let text = ascii_text(part.as_slice());
            match parse_cookie(text.as_str()) {
                None => {
                    proof {
                        assert(cookie_pair(ascii_chars(all[i as int])) is None);
                        assert(cookies_of(all, i + 1) == Err::<
                            Seq<(Seq<char>, Seq<char>)>,
                            HandlerError,
                        >(HandlerError::CookieUnparsable));
                        lemma_parts_error_stays(all, i + 1, all.len() as int);
                    }
                    return Err(HandlerError::CookieUnparsable);
                },
                Some(pair) => {
                    let ghost before = pair_views(cookies@);
                    let ghost found = (pair.0@, pair.1@);
                    cookies.push(pair);
                    proof {
                        assert(pair_views(cookies@) =~= before.push(found));
                    }
                },
            }
        }
        i += 1;
    }
    Ok(cookies)
}

/// The pieces of a text are text.
pub proof fn lemma_parts_are_text(text: Seq<u8>, start: int, i: int)
    requires
        readable(text),
        0 <= start <= i <= text.len(),
    ensures
        forall|j: int|
            0 <= j < split_from(text, start, i).len() ==> is_ascii_bytes(
                #[trigger] split_from(text, start, i)[j],
            ),
    decreases text.len() - i,
{
    let whole = split_from(text, start, i);
    if i >= text.len() {
        let piece = text.subrange(start, text.len() as int);
        assert forall|j: int| 0 <= j < piece.len() implies #[trigger] piece[j] < 128 by {
            assert(is_visible(text[start + j]));
        }
        assert(whole =~= seq![piece]);
        assert forall|j: int| 0 <= j < whole.len() implies is_ascii_bytes(#[trigger] whole[j]) by {
            assert(whole[j] == piece);
        }
    } else if i + 1 < text.len() && text[i] == 59 && text[i + 1] == 32 {
        let piece = text.subrange(start, i);
        assert forall|j: int| 0 <= j < piece.len() implies #[trigger] piece[j] < 128 by {
            assert(is_visible(text[start + j]));
        }
        lemma_parts_are_text(text, i + 2, i + 2);
        let rest = split_from(text, i + 2, i + 2);
        assert(whole =~= seq![piece] + rest);
        assert forall|j: int| 0 <= j < whole.len() implies is_ascii_bytes(#[trigger] whole[j]) by {
            if j > 0 {
                assert(whole[j] == rest[j - 1]);
            } else {
                assert(whole[j] == piece);
            }
        }
    } else {
        lemma_parts_are_text(text, start, i + 1);
        assert(whole == split_from(text, start, i + 1));
    }
}

/// The cookies that the headers of a request bring.
pub fn read_cookies(headers: &Vec<Header>) -> (res: Result<Vec<(String, String)>, HandlerError>)
    ensures
        match cookies_in(headers@, headers@.len() as int) {
            Ok(cookies) => res is Ok && pair_views(res->Ok_0@) == cookies,
            Err(error) => res == Err::<Vec<(String, String)>, HandlerError>(error),
        },
{
    let mut cookies: Vec<(String, String)> = Vec::new();
    let mut i: usize = 0;
    assert(pair_views(cookies@) =~= Seq::<(Seq<char>, Seq<char>)>::empty());
    while i < headers.len()
        invariant
            i <= headers@.len(),
            cookies_in(headers@, i as int) == Ok::<Seq<(Seq<char>, Seq<char>)>, HandlerError>(
                pair_views(cookies@),
            ),
        decreases headers@.len() - i,
    {
        let header = &headers[i];
        if header_named(header.name.as_slice(), "cookie") {
            if !is_readable(header.value.as_slice()) {
                proof {
                    lemma_cookies_error_stays(headers@, i + 1, headers@.len() as int);
                }
                return Err(HandlerError::CookieHeaderUnreadable);
            }
            match read_cookie_header(header.value.as_slice()) {
                Err(error) => {
                    proof {
                        lemma_cookies_error_stays(headers@, i + 1, headers@.len() as int);
                    }
                    return Err(error);
                },
                Ok(mut more) => {
                    let ghost before = pair_views(cookies@);
                    let ghost added = pair_views(more@);
                    cookies.append(&mut more);
                    proof {
                        assert(pair_views(cookies@) =~= before + added);
                    }
                },
            }
        }
        i += 1;
    }
    Ok(cookies)
}

/// Reads the secrets and the cookies from the headers of a request.
pub fn parse_header_infos(headers: &Vec<Header>) -> (res: Result<HeaderExtract, HandlerError>)
    ensures
        match parsed(headers@) {
            Ok((secrets, cookies)) => res is Ok && texts(res->Ok_0.totp_secrets@) == secrets
                && pair_views(res->Ok_0.cookies@) == cookies,
            Err(error) => res matches Err(e) && e == error,
        },
{
    match read_secrets(headers) {
        Err(error) => Err(error),
        Ok(totp_secrets) => match read_cookies(headers) {
            Err(error) => Err(error),
            Ok(cookies) => Ok(HeaderExtract { totp_secrets, cookies }),
        },
    }
}

/// The value of the last field of a form that has the given name.
pub open spec fn last_value(pairs: Seq<(Seq<char>, Seq<char>)>, name: Seq<char>) -> Option<
    Seq<char>,
>
    decreases pairs.len(),
{
    if pairs.len() == 0 {
        None
    } else if pairs.last().0 == name {
        Some(pairs.last().1)
    } else {
        last_value(pairs.drop_last(), name)
    }
}

/// The redirect target that a form names; none is the empty text.
pub open spec fn redirect_of(pairs: Seq<(Seq<char>, Seq<char>)>) -> Seq<char> {
    match last_value(pairs, "redirect"@) {
        Some(target) => target,
        None => Seq::empty(),
    }
}

/// What the login form submits.
pub struct LoginForm {
    /// The one-time password, if the form has the field.
    pub token: Option<String>,
    /// Where to go after the login.
    pub redirect: String,
}

/// Reads the fields `token` and `redirect` from the fields of a form. Of
/// several fields of one name the last counts.
pub fn form_fields(pairs: &Vec<(String, String)>) -> (form: LoginForm)
    ensures
        match last_value(pair_views(pairs@), "token"@) {
            Some(token) => form.token matches Some(t) && t@ == token,
            None => form.token is None,
        },
        form.redirect@ == redirect_of(pair_views(pairs@)),
{
    let mut token: Option<String> = None;
    let mut redirect: Option<String> = None;
    let mut i: usize = 0;
    let ghost all = pair_views(pairs@);
    assert(all.take(0) =~= Seq::empty());
    while i < pairs.len()
        invariant
            i <= pairs@.len(),
            all == pair_views(pairs@),
            match last_value(all.take(i as int), "token"@) {
                Some(text) => token matches Some(t) && t@ == text,
                None => token is None,
            },
            match last_value(all.take(i as int), "redirect"@) {
                Some(text) => redirect matches Some(t) && t@ == text,
                None => redirect is None,
            },
        decreases pairs@.len() - i,
    {
        let pair = &pairs[i];
        proof {
            let upto = all.take(i + 1);
            assert(upto.drop_last() =~= all.take(i as int));
            assert(upto.last() == (pair.0@, pair.1@));
            reveal_strlit("token");
            reveal_strlit("redirect");
            assert("token"@.len() == 5);
            assert("redirect"@.len() == 8);
        }
        if text_equal(pair.0.as_str(), "token") {
            token = Some(pair.1.clone());
        } else if text_equal(pair.0.as_str(), "redirect") {
            redirect = Some(pair.1.clone());
        }
        i += 1;
    }
    assert(all.take(i as int) =~= all);
    let redirect = match redirect {
        Some(target) => target,
        None => String::new(),
    };
    LoginForm { token, redirect }
}

/// A cookie that may name a session: it has the session cookie's name and a
/// value of 64 bytes.
pub open spec fn is_session_cookie(cookie: (Seq<char>, Seq<char>)) -> bool {
    cookie.0 == "totp_cookie"@ && encode_utf8(cookie.1).len() == TOKEN_LENGTH
}

/// Whether one of the cookies may name a session.
pub open spec fn has_session_cookie(cookies: Seq<(Seq<char>, Seq<char>)>) -> bool {
    exists|i: int| 0 <= i < cookies.len() && is_session_cookie(#[trigger] cookies[i])
}

/// Whether one of the cookies names a session that the store finds valid:
/// the store is asked for each of the [`session_keys`] in turn, until it
/// finds one valid, and the result is [`any_of`] its answers. Without a
/// cookie that may name a session the store is not asked, and nobody is
/// logged in.
pub fn is_logged_in(cookies: &Vec<(String, String)>, cookie_store: &CookieStore) -> (logged_in:
    bool)
    ensures
        logged_in ==> has_session_cookie(pair_views(cookies@)),
{
    let keys = session_keys(cookies);
    let mut answers: Vec<bool> = Vec::new();
    let mut found = false;
    let mut i: usize = 0;
    while i < keys.len() && !found
        invariant
            i <= keys@.len(),
            answers@.len() == i,
        decreases keys@.len() - i,
    {
        found = cookie_store.is_cookie_authenticated(&keys[i]);
        answers.push(found);
        i += 1;
    }
    any_of(&answers)
}

/// Whether one of the answers is yes.
pub open spec fn any_true(answers: Seq<bool>) -> bool {
    exists|i: int| 0 <= i < answers.len() && #[trigger] answers[i]
}

/// Computes [`any_true`].
pub fn any_of(answers: &Vec<bool>) -> (any: bool)
    ensures
        any == any_true(answers@),
{
    let mut i: usize = 0;
    while i < answers.len()
        invariant
            i <= answers@.len(),
            forall|j: int| 0 <= j < i ==> !#[trigger] answers@[j],
        decreases answers@.len() - i,
    {
        if answers[i] {
            return true;
        }
        i += 1;
    }
    false
}

/// The tokens that the first `n` cookies may name: the bytes of the value
/// of each cookie that has the session cookie's name and a value of 64
/// bytes, in the order of the cookies.
pub open spec fn session_tokens(cookies: Seq<(Seq<char>, Seq<char>)>, n: int) -> Seq<Seq<u8>>
    decreases n,
{
    if n <= 0 {
        Seq::empty()
    } else {
        let before = session_tokens(cookies, n - 1);
        if is_session_cookie(cookies[n - 1]) {
            before.push(encode_utf8(cookies[n - 1].1))
        } else {
            before
        }
    }
}

/// The bytes of a list of keys.
pub open spec fn key_views(keys: Seq<CookieKey>) -> Seq<Seq<u8>> {
    Seq::new(keys.len(), |i: int| keys[i]@)
}

/// The keys that the cookies may name, which are what the store is asked
/// for.
pub fn session_keys(cookies: &Vec<(String, String)>) -> (keys: Vec<CookieKey>)
    ensures
        key_views(keys@) == session_tokens(pair_views(cookies@), cookies@.len() as int),
        keys@.len() > 0 <==> has_session_cookie(pair_views(cookies@)),
{
    let mut keys: Vec<CookieKey> = Vec::new();
    let mut i: usize = 0;
    let ghost all = pair_views(cookies@);
    assert(key_views(keys@) =~= session_tokens(all, 0));
    while i < cookies.len()
        invariant
            i <= cookies@.len(),
            all == pair_views(cookies@),
            key_views(keys@) == session_tokens(all, i as int),
            keys@.len() > 0 <==> exists|j: int| 0 <= j < i && is_session_cookie(#[trigger] all[j]),
        decreases cookies@.len() - i,
    {
        let cookie = &cookies[i];
        let ghost before = key_views(keys@);
        proof {
            assert(all[i as int] == (cookie.0@, cookie.1@));
        }
        if text_equal(cookie.0.as_str(), "totp_cookie") {
            match to_cookie(cookie.1.as_str()) {
                Some(key) => {
                    let ghost bytes = key@;
                    keys.push(key);
                    proof {
                        assert(is_session_cookie(all[i as int]));
                        assert(key_views(keys@) =~= before.push(bytes));
                    }
                },
                None => {},
            }
        }
        proof {
            if !is_session_cookie(all[i as int]) {
                assert forall|j: int| 0 <= j < i + 1 && is_session_cookie(
                    #[trigger] all[j],
                ) implies j < i by {}
            }
        }
        i += 1;
    }
    keys
}

/// What the handlers share: the sessions, the age of the session cookie in
/// seconds, whether diagnostics show the sessions, and the throttle.
pub struct ApplicationState {
    pub cookie_store: CookieStore,
    pub cookie_max_age: u32,
    pub debug: bool,
    pub request_slowdown: ThrottleController,
}

impl Clone for ApplicationState {
    fn clone(&self) -> (copy: ApplicationState)
        ensures
            copy.cookie_max_age == self.cookie_max_age,
            copy.debug == self.debug,
    {
        ApplicationState {
            cookie_store: self.cookie_store.clone(),
            cookie_max_age: self.cookie_max_age,
            debug: self.debug,
            request_slowdown: self.request_slowdown.share(),
        }
    }
}

impl ApplicationState {
    /// A state without sessions, with cookies that live a day and a
    /// throttle that asks for no wait.
    pub fn new(debug: bool) -> (state: ApplicationState)
        ensures
            state.debug == debug,
            state.cookie_max_age == 86400,
    {
        ApplicationState {
            cookie_store: CookieStore::new(),
            cookie_max_age: 86400,
            debug,
            request_slowdown: ThrottleController::new(),
        }
    }
}

/// The `Set-Cookie` value that hands a session's token to the client.
pub fn session_cookie(token: &str, max_age: u32) -> (text: String)
    ensures
        text@ == session_cookie_text(token@, max_age),
{
    render_cookie_with_age("totp_cookie", token, true, "/", max_age)
}

/// The `Set-Cookie` value that clears the session cookie: no value, and an
/// expiry at the epoch.
pub fn clearing_cookie() -> (text: String)
    ensures
        text@ == clearing_cookie_text(),
{
    render_cookie_with_expiry("totp_cookie", "", true, "/", 0)
}

/// A login attempt that has to wait.
pub struct PendingLogin {
    /// The seconds to wait.
    pub seconds: u64,
    /// The secrets that the request names.
    pub secrets: Vec<String>,
}

/// What [`RequestHandler::respond`] hands back.
pub enum Outcome {
    /// The response.
    Reply(Response),
    /// A login attempt to pass on to [`finish_login`] after the wait.
    Wait(PendingLogin),
}

/// The value of an [`Outcome`].
pub enum OutcomeView {
    Reply(ResponseView),
    Wait { seconds: u64, secrets: Seq<Seq<char>> },
}

impl View for Outcome {
    type V = OutcomeView;

    open spec fn view(&self) -> OutcomeView {
        match self {
            Outcome::Reply(response) => OutcomeView::Reply(response@),
            Outcome::Wait(pending) => OutcomeView::Wait {
                seconds: pending.seconds,
                secrets: texts(pending.secrets@),
            },
        }
    }
}

/// The paths of the flows.
pub open spec fn standard_routes() -> Map<Seq<u8>, Route> {
    Map::<Seq<u8>, Route>::empty().insert(classes("/info".spec_bytes()), Route::Info).insert(
        classes("/login".spec_bytes()),
        Route::Login,
    ).insert(classes("/logout".spec_bytes()), Route::Logout).insert(
        classes("/check".spec_bytes()),
        Route::Check,
    )
}

/// The flow that a path leads to, with the number of bytes that name it.
pub open spec fn route_of(path: Seq<u8>) -> Option<(Route, int)> {
    matched_text(standard_routes(), path)
}

/// What the login flow answers to an attempt that is tested at `time`.
/// Without the field `token` and without a secret the request fails.
/// Otherwise the login succeeds if one of the secrets accepts the token at
/// that time, and fails if none does: a success sets a cookie with a new
/// token and names the redirect target of the form.
pub open spec fn login_answer_at(
    secrets: Seq<Seq<char>>,
    body: Seq<u8>,
    max_age: u32,
    time: u64,
    response: ResponseView,
) -> bool {
    let pairs = form_pairs(body);
    match last_value(pairs, "token"@) {
        None => response == failure(HandlerError::MissingFormField),
        Some(token) => if secrets.len() == 0 {
            response == failure(HandlerError::NoSecretsConfigured)
        } else {
            login_verdict_answer(
                any_accepts(secrets, encode_utf8(token), time),
                max_age,
                redirect_of(pairs),
                response,
            )
        },
    }
}

/// What the login flow answers to an attempt whose token was accepted, or
/// was not: the failure page, or a cookie with a new token and the page
/// that names the redirect target.
pub open spec fn login_verdict_answer(
    accepted: bool,
    max_age: u32,
    redirect: Seq<char>,
    response: ResponseView,
) -> bool {
    if accepted {
        exists|key: Seq<u8>| #[trigger]
            is_token(key) && response == with_cookie(
                session_cookie_text(ascii_chars(key), max_age),
                PageView::LoginSuccess { redirect },
            )
    } else {
        response == plain(STATUS_OK, PageView::LoginFailed)
    }
}

/// What the login flow answers once the wait is over: what
/// [`login_answer_at`] says for the time at which the attempt was tested.
pub open spec fn login_answer(
    secrets: Seq<Seq<char>>,
    body: Seq<u8>,
    max_age: u32,
    response: ResponseView,
) -> bool {
    exists|time: u64| #[trigger] login_answer_at(secrets, body, max_age, time, response)
}

/// The response to a login that failed.
pub fn login_failed() -> (response: Response)
    ensures
        response@ == plain(STATUS_OK, PageView::LoginFailed),
{
    reply(STATUS_OK, Page::LoginFailed)
}

/// The response to a login that succeeded: the cookie for the session's
/// token, and the page that refers to the redirect target.
pub fn login_succeeded(token: &str, max_age: u32, redirect: String) -> (response: Response)
    ensures
        response@ == with_cookie(
            session_cookie_text(token@, max_age),
            PageView::LoginSuccess { redirect: redirect@ },
        ),
{
    Response {
        status: STATUS_OK,
        set_cookie: Some(session_cookie(token, max_age)),
        page: Page::LoginSuccess { redirect },
    }
}

/// The response that clears the session cookie.
pub fn logged_out() -> (response: Response)
    ensures
        response@ == with_cookie(clearing_cookie_text(), PageView::LoggedOut),
{
    Response { status: STATUS_OK, set_cookie: Some(clearing_cookie()), page: Page::LoggedOut }
}

/// Answers a login attempt whose token was accepted, or was not, and
/// records it. An accepted attempt begins a session and leaves the
/// throttle's deadline as it is; a refused one moves the deadline, by the
/// penalty and by the `slept` seconds that the attempt has waited.
pub fn answer_login(
    state: &ApplicationState,
    accepted: bool,
    redirect: String,
    slept: u64,
) -> (response: Response)
    ensures
        login_verdict_answer(accepted, state.cookie_max_age, redirect@, response@),
{
    state.request_slowdown.record(accepted, slept);
    if accepted {
        let key = state.cookie_store.create_authenticated_cookie();
        proof {
            lemma_token_is_ascii(key@);
        }
        let text = key.to_string();
        let response = login_succeeded(text.as_str(), state.cookie_max_age, redirect);
        proof {
            assert(is_token(key@) && response@ == with_cookie(
                session_cookie_text(ascii_chars(key@), state.cookie_max_age),
                PageView::LoginSuccess { redirect: redirect@ },
            ));
        }
        response
    } else {
        login_failed()
    }
}

/// Ends a login attempt that is tested at `time`, after the wait that the
/// throttle asked for: `slept` is how long the attempt has waited. Reads the
/// form, tests the token against the secrets and answers as
/// [`answer_login`] does.
pub fn finish_login_at(
    state: &ApplicationState,
    secrets: &Vec<String>,
    body: &[u8],
    slept: u64,
    time: u64,
) -> (response: Response)
    ensures
        login_answer_at(texts(secrets@), body@, state.cookie_max_age, time, response@),
{
    let pairs = parse_form(body);
    let form = form_fields(&pairs);
    let token = match form.token {
        Some(token) => token,
        None => {
            return fail(HandlerError::MissingFormField);
        },
    };
    if secrets.len() == 0 {
        return fail(HandlerError::NoSecretsConfigured);
    }
    let accepted = verify_any_at(secrets, token.as_str(), time);
    answer_login(state, accepted, form.redirect, slept)
}

/// Ends a login attempt, after the wait that the throttle asked for:
/// [`finish_login_at`] the time that the clock gives at the moment of the
/// call.
pub fn finish_login(
    state: &ApplicationState,
    secrets: &Vec<String>,
    body: &[u8],
    slept: u64,
) -> (response: Response)
    ensures
        login_answer(texts(secrets@), body@, state.cookie_max_age, response@),
{
    let time = now_unix_epoch();
    let response = finish_login_at(state, secrets, body, slept, time);
    assert(login_answer_at(texts(secrets@), body@, state.cookie_max_age, time, response@));
    response
}

/// What the diagnostics answer: the page that names the rest of the path,
/// with the sessions and the deadline where the state asks for them.
pub open spec fn info_answer(debug: bool, rest: Seq<u8>, response: ResponseView) -> bool {
    &&& response.status == STATUS_OK
    &&& response.set_cookie is None
    &&& if debug {
        response.page matches PageView::InfoDebug { path_rest, .. } && encode_utf8(path_rest)
            == rest
    } else {
        response.page matches PageView::Info { path_rest } && encode_utf8(path_rest) == rest
    }
}

/// What the check answers: 200 and nothing, or 401. Without a cookie that
/// may name a session it is 401.
pub open spec fn check_answer(headers: Seq<Header>, response: ResponseView) -> bool {
    match parsed(headers) {
        Err(error) => response == failure(error),
        Ok((_, cookies)) => {
            ||| response == plain(STATUS_UNAUTHORIZED, PageView::CookieExpired)
            ||| response == plain(STATUS_OK, PageView::Empty) && has_session_cookie(cookies)
        },
    }
}

/// What the logout answers: the cookie is cleared, whoever asks.
pub open spec fn logout_answer(headers: Seq<Header>, response: ResponseView) -> bool {
    match parsed(headers) {
        Err(error) => response == failure(error),
        Ok(_) => response == with_cookie(clearing_cookie_text(), PageView::LoggedOut),
    }
}

/// What the login flow answers or asks for. A GET shows the form, which
/// carries the rest of the path on as the redirect target, or tells a
/// visitor with a session so. A POST is an attempt: it has to wait, or it
/// ends as [`login_answer`] says, having waited no time.
pub open spec fn login_outcome(
    max_age: u32,
    request: Request,
    rest: Seq<u8>,
    outcome: OutcomeView,
) -> bool {
    match parsed(request.headers@) {
        Err(error) => outcome == OutcomeView::Reply(failure(error)),
        Ok((secrets, cookies)) => match request.method {
            Method::Other => outcome == OutcomeView::Reply(failure(HandlerError::WrongMethod)),
            Method::Get => outcome matches OutcomeView::Reply(response) && {
                ||| response == plain(STATUS_OK, PageView::LoggedIn) && has_session_cookie(cookies)
                ||| {
                    &&& response.status == STATUS_OK
                    &&& response.set_cookie is None
                    &&& response.page matches PageView::LoginForm { redirect }
                    &&& encode_utf8(redirect) == rest
                }
            },
            Method::Post => match outcome {
                OutcomeView::Wait { seconds, secrets: named } => seconds > 0 && named == secrets,
                OutcomeView::Reply(response) => login_answer(
                    secrets,
                    request.body@,
                    max_age,
                    response,
                ),
            },
        },
    }
}

/// What a request is answered with, flow by flow. A path that leads to no
/// flow is answered with 404.
pub open spec fn outcome_of(
    debug: bool,
    max_age: u32,
    request: Request,
    outcome: OutcomeView,
) -> bool {
    let path = request.path@;
    match route_of(encode_utf8(path)) {
        None => outcome == OutcomeView::Reply(plain(STATUS_NOT_FOUND, PageView::NotFound)),
        Some((route, used)) => {
            let rest = encode_utf8(path).skip(used);
            match route {
                Route::Info => outcome matches OutcomeView::Reply(response) && info_answer(
                    debug,
                    rest,
                    response,
                ),
                Route::Check => outcome matches OutcomeView::Reply(response) && check_answer(
                    request.headers@,
                    response,
                ),
                Route::Logout => outcome matches OutcomeView::Reply(response) && logout_answer(
                    request.headers@,
                    response,
                ),
                Route::Login => login_outcome(max_age, request, rest, outcome),
            }
        },
    }
}

/// The bytes of the four paths.
proof fn lemma_paths()
    ensures
        classes("/info".spec_bytes()) =~= seq![47u8, 105u8, 110u8, 102u8, 111u8],
        classes("/login".spec_bytes()) =~= seq![47u8, 108u8, 111u8, 103u8, 105u8, 110u8],
        classes("/logout".spec_bytes()) =~= seq![47u8, 108u8, 111u8, 103u8, 111u8, 117u8, 116u8],
        classes("/check".spec_bytes()) =~= seq![47u8, 99u8, 104u8, 101u8, 99u8, 107u8],
        "/info".spec_bytes().len() == 5,
        "/login".spec_bytes().len() == 6,
        "/logout".spec_bytes().len() == 7,
        "/check".spec_bytes().len() == 6,
{
    reveal_strlit("/info");
    reveal_strlit("/login");
    reveal_strlit("/logout");
    reveal_strlit("/check");
    assert(is_ascii("/info"));
    assert(is_ascii("/login"));
    assert(is_ascii("/logout"));
    assert(is_ascii("/check"));
    is_ascii_spec_bytes("/info");
    is_ascii_spec_bytes("/login");
    is_ascii_spec_bytes("/logout");
    is_ascii_spec_bytes("/check");
}

/// The routing table of the flows.
pub fn create_routing_table() -> (table: RoutingTable<Route>)
    ensures
        table.wf(),
        table@ == standard_routes(),
{
    let mut table = RoutingTable::new();
    proof {
        lemma_paths();
    }
    table.insert("/info", Route::Info);
    table.insert("/login", Route::Login);
    table.insert("/logout", Route::Logout);
    table.insert("/check", Route::Check);
    table
}

/// The handler of all requests.
pub struct RequestHandler {
    routing_table: RoutingTable<Route>,
}

impl Clone for RequestHandler {
    fn clone(&self) -> RequestHandler {
        RequestHandler::make()
    }
}

impl RequestHandler {
    #[verifier::type_invariant]
    spec fn routes_are_standard(self) -> bool {
        self.routing_table.wf() && self.routing_table@ == standard_routes()
    }

    /// A handler for the four flows: its table leads `/info`, `/login`,
    /// `/logout` and `/check` each to its flow, and no other path anywhere.
    pub fn make() -> (handler: RequestHandler)
        ensures
            handler.routes() == standard_routes(),
    {
        RequestHandler { routing_table: create_routing_table() }
    }

    /// Answers a request, or hands a login attempt back that has to wait.
    pub fn respond(&self, state: &ApplicationState, request: &Request) -> (outcome: Outcome)
        ensures
            outcome_of(state.debug, state.cookie_max_age, *request, outcome@),
    {
        proof {
            use_type_invariant(self);
        }
        match self.routing_table.match_path(request.path.as_str()) {
            Ok((Route::Info, rest)) => Outcome::Reply(info(state, rest)),
            Ok((Route::Login, rest)) => login(state, request, rest),
            Ok((Route::Logout, _)) => Outcome::Reply(logout(request)),
            Ok((Route::Check, _)) => Outcome::Reply(check(state, request)),
            Err(_) => Outcome::Reply(reply(STATUS_NOT_FOUND, Page::NotFound)),
        }
    }

    /// The paths that the handler's table holds, each with its flow.
    pub closed spec fn routes(&self) -> Map<Seq<u8>, Route> {
        self.routing_table@
    }
}

/// The rows of the diagnostics for a list of sessions: each token as text,
/// with its end written out.
pub fn session_rows(sessions: &Vec<(CookieKey, u64)>) -> (table: Vec<(String, String)>)
    ensures
        table@.len() == sessions@.len(),
        forall|i: int|
            0 <= i < table@.len() ==> (#[trigger] table@[i]).1@ == expiry_text(sessions@[i].1) && (
            is_ascii_bytes(sessions@[i].0@) ==> table@[i].0@ == ascii_chars(sessions@[i].0@)),
{
    let mut table: Vec<(String, String)> = Vec::new();
    let mut i: usize = 0;
    while i < sessions.len()
        invariant
            i <= sessions@.len(),
            table@.len() == i,
            forall|j: int|
                0 <= j < i ==> (#[trigger] table@[j]).1@ == expiry_text(sessions@[j].1) && (
                is_ascii_bytes(sessions@[j].0@) ==> table@[j].0@ == ascii_chars(sessions@[j].0@)),
        decreases sessions@.len() - i,
    {
        table.push((sessions[i].0.to_string(), write_expiry(sessions[i].1)));
        i += 1;
    }
    table
}

/// The diagnostics.
pub fn info(state: &ApplicationState, path_rest: &str) -> (response: Response)
    ensures
        info_answer(state.debug, path_rest.spec_bytes(), response@),
{
    if state.debug {
        let sessions = session_rows(&state.cookie_store.reader.entries());
        let wait_until = state.request_slowdown.deadline();
        reply(STATUS_OK, Page::InfoDebug { path_rest: owned(path_rest), sessions, wait_until })
    } else {
        reply(STATUS_OK, Page::Info { path_rest: owned(path_rest) })
    }
}

/// The login flow.
pub fn login(state: &ApplicationState, request: &Request, path_rest: &str) -> (outcome: Outcome)
    ensures
        login_outcome(state.cookie_max_age, *request, path_rest.spec_bytes(), outcome@),
{
    let header_infos = match parse_header_infos(&request.headers) {
        Ok(infos) => infos,
        Err(error) => {
            return Outcome::Reply(fail(error));
        },
    };
    match request.method {
        Method::Get => {
            let logged_in = is_logged_in(&header_infos.cookies, &state.cookie_store);
            Outcome::Reply(login_page(logged_in, path_rest))
        },
        Method::Post => {
            let seconds = state.request_slowdown.wait_if_needed();
            if seconds > 0 {
                Outcome::Wait(PendingLogin { seconds, secrets: header_infos.totp_secrets })
            } else {
                Outcome::Reply(
                    finish_login(state, &header_infos.totp_secrets, request.body.as_slice(), 0),
                )
            }
        },
        Method::Other => Outcome::Reply(fail(HandlerError::WrongMethod)),
    }
}

/// The logout: clears the session cookie.
pub fn logout(request: &Request) -> (response: Response)
    ensures
        logout_answer(request.headers@, response@),
{
    match parse_header_infos(&request.headers) {
        Ok(_) => logged_out(),
        Err(error) => fail(error),
    }
}

/// The check that the proxy asks for.
pub fn check(state: &ApplicationState, request: &Request) -> (response: Response)
    ensures
        check_answer(request.headers@, response@),
{
    let header_infos = match parse_header_infos(&request.headers) {
        Ok(infos) => infos,
        Err(error) => {
            return fail(error);
        },
    };
    check_reply(is_logged_in(&header_infos.cookies, &state.cookie_store))
}

/// What the check answers to a visitor who is logged in, or is not: 200
/// and nothing, or 401.
pub fn check_reply(logged_in: bool) -> (response: Response)
    ensures
        response@ == (if logged_in {
            plain(STATUS_OK, PageView::Empty)
        } else {
            plain(STATUS_UNAUTHORIZED, PageView::CookieExpired)
        }),
{
    if logged_in {
        reply(STATUS_OK, Page::Empty)
    } else {
        reply(STATUS_UNAUTHORIZED, Page::CookieExpired)
    }
}

/// What a GET of the login flow shows to a visitor who is logged in, or is
/// not: that they are, or the form, which carries the rest of the path on as
/// the redirect target.
pub fn login_page(logged_in: bool, path_rest: &str) -> (response: Response)
    ensures
        response@ == (if logged_in {
            plain(STATUS_OK, PageView::LoggedIn)
        } else {
            plain(STATUS_OK, (PageView::LoginForm { redirect: path_rest@ }))
        }),
{
    if logged_in {
        reply(STATUS_OK, Page::LoggedIn)
    } else {
        reply(STATUS_OK, Page::LoginForm { redirect: owned(path_rest) })
    }
}

} // verus!
