use nginx_auth_totp::cookie_store::to_cookie;
use nginx_auth_totp::request_handler::{
    check, clearing_cookie, create_routing_table, finish_login, form_fields, header_named, info,
    is_logged_in, is_readable, logged_out, login_failed, login_succeeded, lower_case,
    parse_header_infos, read_cookie_header, session_cookie, session_rows, split_cookie_header,
    write_expiry, default_headers, session_keys, answer_login, any_of, check_reply,
    finish_login_at, login_page,
    ApplicationState, HandlerError, Header, Method, Outcome, Page, Request, RequestHandler,
    Response, Route,
};
use nginx_auth_totp::router::NoMatchingRoute;

const SECRET: &str = "3132333435363738393031323334353637383930";
const KEY: &[u8] = b"12345678901234567890";

fn now() -> u64 {
    std::time::SystemTime::now()
        .duration_since(std::time::UNIX_EPOCH)
        .unwrap()
        .as_secs()
}

fn current_code() -> String {
    format!("{:06}", oath::hotp_raw(KEY, now() / 30, 6))
}

fn wrong_code() -> String {
    let step = now() / 30;
    let near: Vec<String> = (step - 1..=step + 2)
        .map(|s| format!("{:06}", oath::hotp_raw(KEY, s, 6)))
        .collect();
    let mut n = 0;
    loop {
        let candidate = format!("{:06}", n);
        if !near.contains(&candidate) {
            return candidate;
        }
        n += 1;
    }
}

fn header(name: &str, value: &str) -> Header {
    Header { name: name.as_bytes().to_vec(), value: value.as_bytes().to_vec() }
}

fn request(method: Method, path: &str, headers: Vec<Header>, body: &str) -> Request {
    Request { method, path: path.to_string(), headers, body: body.as_bytes().to_vec() }
}

fn reply(outcome: Outcome) -> Response {
    match outcome {
        Outcome::Reply(response) => response,
        Outcome::Wait(_) => panic!("the request was asked to wait"),
    }
}

fn plain(status: u16, page: Page) -> Response {
    Response { status, set_cookie: None, page }
}

#[test]
fn routing_table_has_the_four_flows() {
    let table = create_routing_table();
    assert_eq!(table.match_path("/info"), Ok((Route::Info, "")));
    assert_eq!(table.match_path("/login"), Ok((Route::Login, "")));
    assert_eq!(table.match_path("/logout"), Ok((Route::Logout, "")));
    assert_eq!(table.match_path("/check"), Ok((Route::Check, "")));
    assert_eq!(table.match_path("/login/foo/bar"), Ok((Route::Login, "/foo/bar")));
    assert_eq!(table.match_path("/asdasdasd"), Err(NoMatchingRoute));
}

#[test]
fn unknown_path_is_404() {
    let handler = RequestHandler::make();
    let state = ApplicationState::new(false);
    let response = reply(handler.respond(&state, &request(Method::Get, "/nothing", vec![], "")));
    assert_eq!(response, plain(404, Page::NotFound));
    assert_eq!(response.page.plain_text(), Some("Resource not found".to_string()));
    let response = reply(handler.respond(&state, &request(Method::Get, "", vec![], "")));
    assert_eq!(response, plain(404, Page::NotFound));
}

#[test]
fn info_shows_the_rest_of_the_path() {
    let handler = RequestHandler::make();
    let state = ApplicationState::new(false);
    let response = reply(handler.respond(&state, &request(Method::Get, "/info/x", vec![], "")));
    assert_eq!(response, plain(200, Page::Info { path_rest: "/x".to_string() }));
    assert_eq!(response.page.plain_text(), None);
    assert_eq!(info(&state, "abc"), plain(200, Page::Info { path_rest: "abc".to_string() }));
}

#[test]
fn info_in_debug_mode_lists_sessions() {
    let handler = RequestHandler::make();
    let state = ApplicationState::new(true);
    let before = now();
    let key = state.cookie_store.create_authenticated_cookie();
    state.request_slowdown.penalize(0);
    let response = reply(handler.respond(&state, &request(Method::Get, "/info", vec![], "")));
    assert_eq!(response.status, 200);
    assert_eq!(response.set_cookie, None);
    match response.page {
        Page::InfoDebug { path_rest, sessions, wait_until } => {
            assert_eq!(path_rest, "");
            assert_eq!(sessions.len(), 1);
            assert_eq!(sessions[0].0, key.to_string());
            let ends: Vec<String> =
                (before + 86400..=before + 86400 + 5).map(write_expiry).collect();
            assert!(ends.contains(&sessions[0].1));
            assert_eq!(wait_until, state.request_slowdown.deadline());
            assert!(wait_until >= before + 8);
        }
        other => panic!("unexpected page {:?}", other),
    }
}

#[test]
fn check_without_cookie_is_401() {
    let handler = RequestHandler::make();
    let state = ApplicationState::new(false);
    let response = reply(handler.respond(&state, &request(Method::Get, "/check", vec![], "")));
    assert_eq!(response, plain(401, Page::CookieExpired));
    assert_eq!(response.page.plain_text(), Some("Cookie expired".to_string()));
}

#[test]
fn check_with_unknown_or_short_cookie_is_401() {
    let state = ApplicationState::new(false);
    let unknown = "0".repeat(64);
    let req = request(
        Method::Get,
        "/check",
        vec![header("Cookie", &format!("totp_cookie={}", unknown))],
        "",
    );
    assert_eq!(check(&state, &req), plain(401, Page::CookieExpired));
    let req = request(Method::Get, "/check", vec![header("Cookie", "totp_cookie=abc")], "");
    assert_eq!(check(&state, &req), plain(401, Page::CookieExpired));
    let req = request(Method::Get, "/check", vec![header("Cookie", "totp_cookie=")], "");
    assert_eq!(check(&state, &req), plain(401, Page::CookieExpired));
}

#[test]
fn check_with_session_cookie_is_200_and_empty() {
    let handler = RequestHandler::make();
    let state = ApplicationState::new(false);
    let key = state.cookie_store.create_authenticated_cookie();
    let cookie = format!("a=b; totp_cookie={}; c=d", key.to_string());
    let req = request(Method::Get, "/check", vec![header("cookie", &cookie)], "");
    let response = reply(handler.respond(&state, &req));
    assert_eq!(response, plain(200, Page::Empty));
    assert_eq!(response.page.plain_text(), Some(String::new()));
    // A session cookie under another name does not count.
    let cookie = format!("other={}", key.to_string());
    let req = request(Method::Get, "/check", vec![header("cookie", &cookie)], "");
    assert_eq!(check(&state, &req), plain(401, Page::CookieExpired));
}

#[test]
fn unreadable_headers_are_500() {
    let state = ApplicationState::new(false);
    let bad = Header { name: b"Cookie".to_vec(), value: vec![b'a', b'=', 0xff] };
    let req = Request {
        method: Method::Get,
        path: "/check".to_string(),
        headers: vec![bad],
        body: vec![],
    };
    let response = check(&state, &req);
    assert_eq!(response, plain(500, Page::Failure(HandlerError::CookieHeaderUnreadable)));
    assert_eq!(response.page.plain_text(), Some("Failed to read cookie value".to_string()));

    let bad_secret = Header { name: b"X-Totp-Secret".to_vec(), value: vec![0x01] };
    let bad_cookie = Header { name: b"Cookie".to_vec(), value: vec![0x7f] };
    let headers = vec![bad_cookie, bad_secret];
    assert_eq!(parse_header_infos(&headers).err(), Some(HandlerError::SecretHeaderUnreadable));
    assert_eq!(
        HandlerError::SecretHeaderUnreadable.message(),
        "Failed to read totp-secret header value"
    );
}

#[test]
fn unparsable_cookie_is_500() {
    let state = ApplicationState::new(false);
    let req = request(Method::Get, "/check", vec![header("Cookie", "novalue")], "");
    let response = check(&state, &req);
    assert_eq!(response, plain(500, Page::Failure(HandlerError::CookieUnparsable)));
    assert_eq!(response.page.plain_text(), Some("Failed to parse cookie value".to_string()));
    let req = request(Method::Get, "/check", vec![header("Cookie", "a=b; =c")], "");
    assert_eq!(check(&state, &req), plain(500, Page::Failure(HandlerError::CookieUnparsable)));
}

#[test]
fn header_extraction() {
    let headers = vec![
        header("Host", "example.org"),
        header("X-Totp-Secret", "aa"),
        header("cookie", "a=1; b=2"),
        header("x-totp-secret", "bb"),
        header("COOKIE", "c=\"3\"; ; d = 4"),
        header("Cookies", "e=5"),
    ];
    let extract = parse_header_infos(&headers).ok().unwrap();
    assert_eq!(extract.totp_secrets, vec!["aa".to_string(), "bb".to_string()]);
    let pairs: Vec<(&str, &str)> =
        extract.cookies.iter().map(|c| (c.0.as_str(), c.1.as_str())).collect();
    assert_eq!(pairs, vec![("a", "1"), ("b", "2"), ("c", "3"), ("d", "4")]);
    let none = parse_header_infos(&vec![]).ok().unwrap();
    assert!(none.totp_secrets.is_empty() && none.cookies.is_empty());
}

#[test]
fn cookie_header_is_split_on_semicolon_and_blank() {
    let parts = |text: &str| -> Vec<String> {
        split_cookie_header(text.as_bytes())
            .into_iter()
            .map(|p| String::from_utf8(p).unwrap())
            .collect()
    };
    assert_eq!(parts(""), vec![""]);
    assert_eq!(parts("a=b"), vec!["a=b"]);
    assert_eq!(parts("a=b; c=d"), vec!["a=b", "c=d"]);
    assert_eq!(parts("a=b;c=d"), vec!["a=b;c=d"]);
    assert_eq!(parts("a=b; "), vec!["a=b", ""]);
    assert_eq!(parts("; a"), vec!["", "a"]);
    assert_eq!(parts("a; ; b"), vec!["a", "", "b"]);
    assert_eq!(parts("a;; b"), vec!["a;", "b"]);
    assert_eq!(parts("a;"), vec!["a;"]);
    assert_eq!(parts("a;  b"), vec!["a", " b"]);
    // A cookie after a bare semicolon is an attribute of the one before.
    let cookies = read_cookie_header(b"a=b;c=d").ok().unwrap();
    assert_eq!(cookies, vec![("a".to_string(), "b".to_string())]);
}

#[test]
fn header_names_ignore_case() {
    assert!(header_named(b"cookie", "cookie"));
    assert!(header_named(b"Cookie", "cookie"));
    assert!(header_named(b"COOKIE", "cookie"));
    assert!(header_named(b"X-Totp-Secret", "x-totp-secret"));
    assert!(!header_named(b"cookies", "cookie"));
    assert!(!header_named(b"cooki", "cookie"));
    assert!(!header_named(b"", "cookie"));
    assert!(!header_named(b"cookiE ", "cookie"));
    assert_eq!(lower_case(b'A'), b'a');
    assert_eq!(lower_case(b'Z'), b'z');
    assert_eq!(lower_case(b'a'), b'a');
    assert_eq!(lower_case(b'@'), b'@');
    assert_eq!(lower_case(b'['), b'[');
    assert_eq!(lower_case(0xC1), 0xC1);
}

#[test]
fn header_values_are_visible_ascii() {
    assert!(is_readable(b""));
    assert!(is_readable(b"abc def\t~"));
    assert!(!is_readable(b"abc\n"));
    assert!(!is_readable(&[0x7f]));
    assert!(!is_readable(&[0x80]));
    assert!(!is_readable(&[0x1f]));
    assert!(is_readable(&[0x20, 0x7e, 0x09]));
}

#[test]
fn form_fields_take_the_last_of_a_name() {
    let pair = |a: &str, b: &str| (a.to_string(), b.to_string());
    let form = form_fields(&vec![]);
    assert_eq!(form.token, None);
    assert_eq!(form.redirect, "");
    let form = form_fields(&vec![pair("token", "1"), pair("redirect", "/a"), pair("token", "2")]);
    assert_eq!(form.token, Some("2".to_string()));
    assert_eq!(form.redirect, "/a");
    let form = form_fields(&vec![pair("Token", "1"), pair("redirect", "/a"), pair("redirect", "")]);
    assert_eq!(form.token, None);
    assert_eq!(form.redirect, "");
}

#[test]
fn session_cookie_text() {
    let token = "A".repeat(64);
    assert_eq!(
        session_cookie(&token, 86400),
        format!("totp_cookie={}; HttpOnly; Path=/; Max-Age=86400", token)
    );
    assert_eq!(session_cookie("x", 0), "totp_cookie=x; HttpOnly; Path=/; Max-Age=0");
    assert_eq!(
        session_cookie("", u32::MAX),
        "totp_cookie=; HttpOnly; Path=/; Max-Age=4294967295"
    );
    assert_eq!(
        login_succeeded("tok", 60, "/app".to_string()),
        Response {
            status: 200,
            set_cookie: Some("totp_cookie=tok; HttpOnly; Path=/; Max-Age=60".to_string()),
            page: Page::LoginSuccess { redirect: "/app".to_string() },
        }
    );
    assert_eq!(login_failed(), plain(200, Page::LoginFailed));
}

#[test]
fn clearing_cookie_text() {
    let expected = "totp_cookie=; HttpOnly; Path=/; Expires=Thu, 01 Jan 1970 00:00:00 GMT";
    assert_eq!(clearing_cookie(), expected);
    assert_eq!(
        logged_out(),
        Response { status: 200, set_cookie: Some(expected.to_string()), page: Page::LoggedOut }
    );
}

#[test]
fn logout_clears_the_cookie_whoever_asks() {
    let handler = RequestHandler::make();
    let state = ApplicationState::new(false);
    for method in [Method::Get, Method::Post, Method::Other] {
        let response = reply(handler.respond(&state, &request(method, "/logout", vec![], "")));
        assert_eq!(response, logged_out());
    }
}

#[test]
fn login_get_shows_the_form_with_the_redirect() {
    let handler = RequestHandler::make();
    let state = ApplicationState::new(false);
    let response =
        reply(handler.respond(&state, &request(Method::Get, "/login/app/x", vec![], "")));
    assert_eq!(response, plain(200, Page::LoginForm { redirect: "/app/x".to_string() }));
}

#[test]
fn login_get_with_session_says_logged_in() {
    let handler = RequestHandler::make();
    let state = ApplicationState::new(false);
    let key = state.cookie_store.create_authenticated_cookie();
    let cookie = format!("totp_cookie={}", key.to_string());
    let req = request(Method::Get, "/login", vec![header("Cookie", &cookie)], "");
    assert_eq!(reply(handler.respond(&state, &req)), plain(200, Page::LoggedIn));
}

#[test]
fn login_with_other_method_is_500() {
    let handler = RequestHandler::make();
    let state = ApplicationState::new(false);
    let response = reply(handler.respond(&state, &request(Method::Other, "/login", vec![], "")));
    assert_eq!(response, plain(500, Page::Failure(HandlerError::WrongMethod)));
    assert_eq!(response.page.plain_text(), Some("Wrong method".to_string()));
}

#[test]
fn login_post_without_token_is_500() {
    let handler = RequestHandler::make();
    let state = ApplicationState::new(false);
    let req = request(
        Method::Post,
        "/login",
        vec![header("X-Totp-Secret", SECRET)],
        "redirect=/app",
    );
    let response = reply(handler.respond(&state, &req));
    assert_eq!(response, plain(500, Page::Failure(HandlerError::MissingFormField)));
    assert_eq!(response.page.plain_text(), Some("missing argument 'token'".to_string()));
    assert_eq!(state.request_slowdown.deadline(), 0);
}

#[test]
fn login_post_without_secret_is_500() {
    let handler = RequestHandler::make();
    let state = ApplicationState::new(false);
    let req = request(Method::Post, "/login", vec![], "token=123456");
    let response = reply(handler.respond(&state, &req));
    assert_eq!(response, plain(500, Page::Failure(HandlerError::NoSecretsConfigured)));
    assert_eq!(response.page.plain_text(), Some("no secrets configured".to_string()));
    // A missing token is reported before a missing secret.
    let req = request(Method::Post, "/login", vec![], "");
    let response = reply(handler.respond(&state, &req));
    assert_eq!(response, plain(500, Page::Failure(HandlerError::MissingFormField)));
}

#[test]
fn failed_login_is_200_and_moves_the_deadline() {
    let handler = RequestHandler::make();
    let state = ApplicationState::new(false);
    let before = now();
    let body = format!("token={}", wrong_code());
    let req = request(Method::Post, "/login", vec![header("X-Totp-Secret", SECRET)], &body);
    let response = reply(handler.respond(&state, &req));
    assert_eq!(response, login_failed());
    let deadline = state.request_slowdown.deadline();
    assert!(deadline >= before + 8 && deadline <= before + 8 + 5);
    assert!(state.cookie_store.reader.entries().is_empty());
}

#[test]
fn attempt_before_the_deadline_has_to_wait() {
    let handler = RequestHandler::make();
    let state = ApplicationState::new(false);
    let body = format!("token={}", wrong_code());
    let req = request(Method::Post, "/login", vec![header("X-Totp-Secret", SECRET)], &body);
    assert_eq!(reply(handler.respond(&state, &req)), login_failed());
    let first = state.request_slowdown.deadline();
    let pending = match handler.respond(&state, &req) {
        Outcome::Wait(pending) => pending,
        Outcome::Reply(response) => panic!("no wait: {:?}", response),
    };
    assert!(pending.seconds >= 1 && pending.seconds <= 8);
    assert_eq!(pending.secrets, vec![SECRET.to_string()]);
    // Nothing happened yet.
    assert_eq!(state.request_slowdown.deadline(), first);
    let response = finish_login(&state, &pending.secrets, &req.body, pending.seconds);
    assert_eq!(response, login_failed());
    let second = state.request_slowdown.deadline();
    assert_eq!(second, first + 8 + pending.seconds);
    // GET requests and the check do not wait.
    let form = reply(handler.respond(&state, &request(Method::Get, "/login", vec![], "")));
    assert_eq!(form, plain(200, Page::LoginForm { redirect: String::new() }));
}

#[test]
fn success_does_not_move_the_deadline() {
    let state = ApplicationState::new(false);
    state.request_slowdown.penalize(0);
    let deadline = state.request_slowdown.deadline();
    let body = format!("token={}", current_code());
    let response = finish_login(&state, &vec![SECRET.to_string()], body.as_bytes(), 8);
    assert_eq!(response.status, 200);
    assert!(response.set_cookie.is_some());
    assert_eq!(state.request_slowdown.deadline(), deadline);
}

#[test]
fn login_check_logout_end_to_end() {
    let handler = RequestHandler::make();
    let state = ApplicationState::new(false);
    let body = format!("token={}&redirect=%2Fapp", current_code());
    let login = request(
        Method::Post,
        "/login",
        vec![header("X-Totp-Secret", "00"), header("X-Totp-Secret", SECRET)],
        &body,
    );
    let response = reply(handler.respond(&state, &login));
    assert_eq!(response.status, 200);
    assert_eq!(response.page, Page::LoginSuccess { redirect: "/app".to_string() });
    let set_cookie = response.set_cookie.unwrap();
    let prefix = "totp_cookie=";
    let suffix = "; HttpOnly; Path=/; Max-Age=86400";
    assert!(set_cookie.starts_with(prefix) && set_cookie.ends_with(suffix));
    let token = &set_cookie[prefix.len()..set_cookie.len() - suffix.len()];
    assert_eq!(token.len(), 64);
    assert!(token.bytes().all(|b| b.is_ascii_digit() || (b'A'..=b'F').contains(&b)));
    assert!(state.cookie_store.is_cookie_authenticated(&to_cookie(token).unwrap()));
    assert_eq!(state.request_slowdown.deadline(), 0);

    let cookie = format!("totp_cookie={}", token);
    let check_request = request(Method::Get, "/check", vec![header("Cookie", &cookie)], "");
    assert_eq!(reply(handler.respond(&state, &check_request)), plain(200, Page::Empty));

    let logout = request(Method::Get, "/logout", vec![header("Cookie", &cookie)], "");
    let response = reply(handler.respond(&state, &logout));
    assert_eq!(response.status, 200);
    assert_eq!(response.page, Page::LoggedOut);
    assert_eq!(
        response.set_cookie,
        Some("totp_cookie=; HttpOnly; Path=/; Expires=Thu, 01 Jan 1970 00:00:00 GMT".to_string())
    );

    // The client has dropped the cookie.
    let bare = request(Method::Get, "/check", vec![], "");
    assert_eq!(reply(handler.respond(&state, &bare)), plain(401, Page::CookieExpired));
    let cleared = request(Method::Get, "/check", vec![header("Cookie", "totp_cookie=")], "");
    assert_eq!(reply(handler.respond(&state, &cleared)), plain(401, Page::CookieExpired));
}

#[test]
fn is_logged_in_asks_only_for_session_cookies() {
    let state = ApplicationState::new(false);
    let key = state.cookie_store.create_authenticated_cookie();
    let pair = |a: &str, b: &str| (a.to_string(), b.to_string());
    assert!(!is_logged_in(&vec![], &state.cookie_store));
    assert!(!is_logged_in(&vec![pair("a", &key.to_string())], &state.cookie_store));
    assert!(!is_logged_in(&vec![pair("totp_cookie", "short")], &state.cookie_store));
    assert!(is_logged_in(
        &vec![pair("totp_cookie", &"0".repeat(64)), pair("totp_cookie", &key.to_string())],
        &state.cookie_store
    ));
}

#[test]
fn cloned_state_shares_sessions_and_throttle() {
    let state = ApplicationState::new(true);
    let copy = state.clone();
    assert!(copy.debug);
    assert_eq!(copy.cookie_max_age, 86400);
    let key = copy.cookie_store.create_authenticated_cookie();
    assert!(state.cookie_store.is_cookie_authenticated(&key));
    copy.request_slowdown.penalize(0);
    assert_eq!(state.request_slowdown.deadline(), copy.request_slowdown.deadline());
    let handler = RequestHandler::make();
    let twin = handler.clone();
    let response = reply(twin.respond(&state, &request(Method::Get, "/check", vec![], "")));
    assert_eq!(response, plain(401, Page::CookieExpired));
}

fn sendable<T: Send + 'static>() {}

#[test]
fn state_and_handler_can_move_between_threads() {
    sendable::<ApplicationState>();
    sendable::<RequestHandler>();
    sendable::<nginx_auth_totp::cookie_store::CookieStore>();
    sendable::<nginx_auth_totp::throttle::ThrottleController>();
}

#[test]
fn expiry_is_written_as_date_and_time() {
    assert_eq!(write_expiry(0), "Thu Jan  1 00:00:00 1970");
    assert_eq!(write_expiry(1_700_086_400), "Wed Nov 15 22:13:20 2023");
    assert_eq!(write_expiry(253_402_300_799), "Fri Dec 31 23:59:59 9999");
    assert_eq!(write_expiry(253_402_300_800), "</>");
    assert_eq!(write_expiry(u64::MAX), "</>");
}

#[test]
fn diagnostics_rows() {
    let key = to_cookie(&"7".repeat(64)).unwrap();
    let rows = session_rows(&vec![(key.clone(), 0), (key, u64::MAX)]);
    assert_eq!(
        rows,
        vec![
            ("7".repeat(64), "Thu Jan  1 00:00:00 1970".to_string()),
            ("7".repeat(64), "</>".to_string()),
        ]
    );
    assert!(session_rows(&vec![]).is_empty());
}

#[test]
fn response_headers() {
    let pair = |a: &str, b: &str| (a.to_string(), b.to_string());
    let defaults =
        vec![pair("content-type", "text/html; charset=utf-8"), pair("x-frame-options", "DENY")];
    assert_eq!(default_headers(), defaults);
    assert_eq!(login_failed().headers(), defaults);
    assert_eq!(plain(404, Page::NotFound).headers(), defaults);
    let mut with_cookie = defaults.clone();
    with_cookie.push(pair("set-cookie", "totp_cookie=tok; HttpOnly; Path=/; Max-Age=60"));
    assert_eq!(login_succeeded("tok", 60, String::new()).headers(), with_cookie);
}

#[test]
fn session_keys_are_the_64_byte_session_cookies() {
    let pair = |a: &str, b: &str| (a.to_string(), b.to_string());
    let one = "1".repeat(64);
    let two = "2".repeat(64);
    assert!(session_keys(&vec![]).is_empty());
    assert!(session_keys(&vec![pair("totp_cookie", "short"), pair("other", &one)]).is_empty());
    assert!(session_keys(&vec![pair("totp_cookie", &"3".repeat(65))]).is_empty());
    assert!(session_keys(&vec![pair("Totp_cookie", &one)]).is_empty());
    let keys = session_keys(&vec![
        pair("a", "b"),
        pair("totp_cookie", &one),
        pair("totp_cookie", ""),
        pair("totp_cookie", &two),
    ]);
    let texts: Vec<String> = keys.iter().map(|k| k.to_string()).collect();
    assert_eq!(texts, vec![one, two]);
}

#[test]
fn later_session_cookie_is_asked_for_too() {
    let state = ApplicationState::new(false);
    let key = state.cookie_store.create_authenticated_cookie();
    let cookie = format!("totp_cookie={}; totp_cookie={}", "0".repeat(64), key.to_string());
    let req = request(Method::Get, "/check", vec![header("Cookie", &cookie)], "");
    assert_eq!(check(&state, &req), plain(200, Page::Empty));
}

#[test]
fn check_answers_by_the_verdict() {
    assert_eq!(check_reply(true), plain(200, Page::Empty));
    assert_eq!(check_reply(false), plain(401, Page::CookieExpired));
}

#[test]
fn login_page_by_the_verdict() {
    assert_eq!(login_page(true, "/app"), plain(200, Page::LoggedIn));
    assert_eq!(
        login_page(false, "/app"),
        plain(200, Page::LoginForm { redirect: "/app".to_string() })
    );
    assert_eq!(login_page(false, ""), plain(200, Page::LoginForm { redirect: String::new() }));
}

#[test]
fn any_of_the_answers() {
    assert!(!any_of(&vec![]));
    assert!(!any_of(&vec![false, false]));
    assert!(any_of(&vec![false, true]));
    assert!(any_of(&vec![true]));
}

#[test]
fn accepted_login_begins_a_session_and_leaves_the_deadline() {
    let state = ApplicationState::new(false);
    state.request_slowdown.penalize(0);
    let deadline = state.request_slowdown.deadline();
    let response = answer_login(&state, true, "/app".to_string(), 3);
    assert_eq!(response.status, 200);
    assert_eq!(response.page, Page::LoginSuccess { redirect: "/app".to_string() });
    let set_cookie = response.set_cookie.unwrap();
    let token = &set_cookie["totp_cookie=".len().."totp_cookie=".len() + 64];
    assert_eq!(set_cookie, format!("totp_cookie={}; HttpOnly; Path=/; Max-Age=86400", token));
    assert!(state.cookie_store.is_cookie_authenticated(&to_cookie(token).unwrap()));
    assert_eq!(state.request_slowdown.deadline(), deadline);
}

#[test]
fn refused_login_fails_and_moves_the_deadline() {
    let state = ApplicationState::new(false);
    state.request_slowdown.penalize(0);
    let deadline = state.request_slowdown.deadline();
    let response = answer_login(&state, false, "/app".to_string(), 3);
    assert_eq!(response, login_failed());
    assert_eq!(state.request_slowdown.deadline(), deadline + 8 + 3);
    assert!(state.cookie_store.reader.entries().is_empty());
}

#[test]
fn login_at_a_given_time() {
    let state = ApplicationState::new(false);
    let time = 1_700_000_030;
    let code = format!("{:06}", oath::hotp_raw(KEY, time / 30, 6));
    let secrets = vec!["zz".to_string(), SECRET.to_string()];
    let body = format!("redirect=%2Fa&token={}", code);
    let response = finish_login_at(&state, &secrets, body.as_bytes(), 0, time);
    assert_eq!(response.page, Page::LoginSuccess { redirect: "/a".to_string() });
    assert!(response.set_cookie.is_some());
    assert_eq!(state.request_slowdown.deadline(), 0);
    // Two steps later the same code is refused.
    let response = finish_login_at(&state, &secrets, body.as_bytes(), 0, time + 60);
    assert_eq!(response, login_failed());
    assert!(state.request_slowdown.deadline() > 0);
    // A secret that cannot be decoded accepts nothing.
    let response = finish_login_at(&state, &vec!["zz".to_string()], body.as_bytes(), 0, time);
    assert_eq!(response, login_failed());
    let response = finish_login_at(&state, &secrets, b"redirect=%2Fa", 0, time);
    assert_eq!(response, plain(500, Page::Failure(HandlerError::MissingFormField)));
    let response = finish_login_at(&state, &vec![], body.as_bytes(), 0, time);
    assert_eq!(response, plain(500, Page::Failure(HandlerError::NoSecretsConfigured)));
}
