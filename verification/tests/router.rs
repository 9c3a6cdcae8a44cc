use nginx_auth_totp::router::{ConfigurationConflict, NoMatchingRoute, RoutingTable};

#[derive(Clone, Copy, Debug, PartialEq, Eq)]
enum Route {
    Login,
    Logout,
    Info,
    Check,
}

fn table() -> RoutingTable<Route> {
    let mut r = RoutingTable::new();
    r.insert("/login", Route::Login);
    r.insert("/info", Route::Info);
    r.insert("/logout", Route::Logout);
    r.insert("/logout2", Route::Info);
    r.insert("/check", Route::Check);
    r
}

#[test]
fn registered_paths_match_with_empty_rest() {
    let r = table();
    assert_eq!(r.match_path("/login"), Ok((Route::Login, "")));
    assert_eq!(r.match_path("/logout"), Ok((Route::Logout, "")));
    assert_eq!(r.match_path("/info"), Ok((Route::Info, "")));
    assert_eq!(r.match_path("/logout2"), Ok((Route::Info, "")));
    assert_eq!(r.match_path("/check"), Ok((Route::Check, "")));
}

#[test]
fn unknown_path_has_no_route() {
    let r = table();
    assert_eq!(r.match_path("/asdasdasd"), Err(NoMatchingRoute));
    assert_eq!(r.match_path("/"), Err(NoMatchingRoute));
    assert_eq!(r.match_path("/log"), Err(NoMatchingRoute));
    assert_eq!(r.match_path("x"), Err(NoMatchingRoute));
}

#[test]
fn empty_path_has_no_route() {
    let r = table();
    assert_eq!(r.match_path(""), Err(NoMatchingRoute));
    let empty: RoutingTable<Route> = RoutingTable::new();
    assert_eq!(empty.match_path(""), Err(NoMatchingRoute));
    assert_eq!(empty.match_path("/login"), Err(NoMatchingRoute));
}

#[test]
fn leaf_is_a_mount_point() {
    let r = table();
    assert_eq!(r.match_path("/login/foo/bar"), Ok((Route::Login, "/foo/bar")));
    assert_eq!(r.match_path("/loginX"), Ok((Route::Login, "X")));
    assert_eq!(r.match_path("/check?x=1"), Ok((Route::Check, "?x=1")));
    assert_eq!(r.match_path("/logout2/x"), Ok((Route::Info, "/x")));
}

#[test]
fn longer_path_takes_precedence_over_shorter() {
    let r = table();
    assert_eq!(r.match_path("/logout"), Ok((Route::Logout, "")));
    assert_eq!(r.match_path("/logout2"), Ok((Route::Info, "")));
    assert_eq!(r.match_path("/logoutX"), Err(NoMatchingRoute));
    assert_eq!(r.match_path("/logout/"), Err(NoMatchingRoute));
}

#[test]
fn shorter_path_registered_after_longer() {
    let mut r = RoutingTable::new();
    r.insert("/logout2", Route::Info);
    r.insert("/logout", Route::Logout);
    assert_eq!(r.match_path("/logout"), Ok((Route::Logout, "")));
    assert_eq!(r.match_path("/logout2"), Ok((Route::Info, "")));
    assert_eq!(r.match_path("/logout2x"), Ok((Route::Info, "x")));
    assert_eq!(r.match_path("/logout3"), Err(NoMatchingRoute));
}

#[test]
fn match_bytes_gives_consumed_length() {
    let r = table();
    assert_eq!(r.match_bytes(b"/login/foo/bar"), Ok((Route::Login, 6)));
    assert_eq!(r.match_bytes(b"/logout2"), Ok((Route::Info, 8)));
    assert_eq!(r.match_bytes(b"/nothing"), Err(NoMatchingRoute));
    assert_eq!(r.match_bytes(b""), Err(NoMatchingRoute));
}

#[test]
fn high_bytes_alias_to_their_low_seven_bits() {
    let r = table();
    // 0xEE is 'n' + 128, and 0xAF is '/' + 128.
    assert_eq!(r.match_bytes(&[b'/', b'l', b'o', b'g', b'i', 0xEE]), Ok((Route::Login, 6)));
    assert_eq!(r.match_bytes(&[0xAF, b'i', b'n', b'f', b'o', b'!']), Ok((Route::Info, 5)));
}

#[test]
fn rest_inside_a_character_is_no_match() {
    let r = table();
    // U+E000 is EE 80 80: its first byte is taken for 'n', the rest would
    // start inside the character.
    assert_eq!(r.match_path("/logi\u{e000}"), Err(NoMatchingRoute));
    // U+00AF is C2 AF; C2 is 'B' + 128.
    let mut t = RoutingTable::new();
    t.insert("/B", Route::Check);
    assert_eq!(t.match_path("/\u{af}"), Err(NoMatchingRoute));
    assert_eq!(t.match_bytes("/\u{af}".as_bytes()), Ok((Route::Check, 2)));
}

#[test]
fn nested_prefixes() {
    let mut r = RoutingTable::new();
    r.insert("/a", 1u32);
    r.insert("/ab", 2u32);
    r.insert("/abc", 3u32);
    r.insert("/aa", 4u32);
    assert_eq!(r.match_path("/a"), Ok((1, "")));
    assert_eq!(r.match_path("/ab"), Ok((2, "")));
    assert_eq!(r.match_path("/abc"), Ok((3, "")));
    assert_eq!(r.match_path("/abcd"), Ok((3, "d")));
    assert_eq!(r.match_path("/aa"), Ok((4, "")));
    assert_eq!(r.match_path("/aaz"), Ok((4, "z")));
    assert_eq!(r.match_path("/ax"), Err(NoMatchingRoute));
    assert_eq!(r.match_path("/abx"), Err(NoMatchingRoute));
}

#[test]
fn contains_tells_registered_paths() {
    let r = table();
    assert!(r.contains("/login"));
    assert!(r.contains("/logout"));
    assert!(r.contains("/logout2"));
    assert!(!r.contains("/logout3"));
    assert!(!r.contains("/logou"));
    assert!(!r.contains("/login/x"));
    assert!(!r.contains(""));
    assert!(!r.contains("/"));
    let empty: RoutingTable<Route> = RoutingTable::new();
    assert!(!empty.contains(""));
    assert!(!empty.contains("/login"));
}

#[test]
fn second_registration_of_a_path_is_a_conflict() {
    let mut r = table();
    assert_eq!(r.try_insert("/login", Route::Check), Err(ConfigurationConflict));
    assert_eq!(r.try_insert("/logout", Route::Logout), Err(ConfigurationConflict));
    assert_eq!(r.try_insert("", Route::Check), Err(ConfigurationConflict));
    // The table is as it was.
    assert_eq!(r.match_path("/login"), Ok((Route::Login, "")));
    assert_eq!(r.match_path("/logout"), Ok((Route::Logout, "")));
    assert_eq!(r.try_insert("/log", Route::Check), Ok(()));
    assert_eq!(r.match_path("/log"), Ok((Route::Check, "")));
    assert_eq!(r.match_path("/login"), Ok((Route::Login, "")));
    assert_eq!(r.match_path("/logx"), Err(NoMatchingRoute));
    assert_eq!(r.try_insert("/log", Route::Check), Err(ConfigurationConflict));
}

#[test]
fn aliasing_paths_conflict() {
    let mut r = RoutingTable::new();
    assert_eq!(r.try_insert("/B", 1u8), Ok(()));
    // U+00C2 is C3 82, and C3 is 'C' + 128: no conflict with "/B".
    assert_eq!(r.try_insert("/\u{c2}", 2u8), Ok(()));
    // 'C' followed by the byte 0x02 has the same classes.
    assert!(r.contains("/C\u{2}"));
    assert_eq!(r.try_insert("/C\u{2}", 3u8), Err(ConfigurationConflict));
}

#[test]
fn clone_is_the_same_table() {
    let r = table();
    let copy = r.clone();
    assert_eq!(copy.match_path("/login/x"), Ok((Route::Login, "/x")));
    assert_eq!(copy.match_path("/logout2"), Ok((Route::Info, "")));
    assert_eq!(copy.match_path("/zzz"), Err(NoMatchingRoute));
    assert!(copy.contains("/check"));
}
