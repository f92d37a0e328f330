use musidex_daemon::api::{
    base_and_db, collect_rows, content_type_of, parse_cookies, range_size_of, Codec, Cookies,
    StaticHandle,
};
use musidex_daemon::entity::UserID;
use musidex_daemon::pool::pick_connection;
use musidex_daemon::proxy::ProxyRoundRobin;
use musidex_daemon::store::Store;
use musidex_daemon::strutil::{i32_to_string, parse_i32, str_eq, str_le};

#[test]
fn test_i32_strings() {
    assert_eq!(i32_to_string(0), "0");
    assert_eq!(i32_to_string(-1), "-1");
    assert_eq!(i32_to_string(2147483647), "2147483647");
    assert_eq!(i32_to_string(-2147483648), "-2147483648");
    assert_eq!(UserID(-7).to_string(), "-7");
}

#[test]
fn test_parse_i32() {
    assert_eq!(parse_i32("123"), Some(123));
    assert_eq!(parse_i32("-45"), Some(-45));
    assert_eq!(parse_i32("+7"), Some(7));
    assert_eq!(parse_i32(""), None);
    assert_eq!(parse_i32("-"), None);
    assert_eq!(parse_i32("12a"), None);
    assert_eq!(parse_i32("2147483647"), Some(2147483647));
    assert_eq!(parse_i32("2147483648"), None);
    assert_eq!(parse_i32("-2147483648"), Some(-2147483648));
    assert_eq!(parse_i32("-2147483649"), None);
}

#[test]
fn test_str_helpers() {
    assert!(str_eq("héllo", "héllo"));
    assert!(!str_eq("a", "b"));
    assert!(str_le("abc", "abd"));
    assert!(str_le("ab", "abc"));
    assert!(!str_le("b", "a"));
}

#[test]
fn test_pick_connection() {
    assert_eq!(pick_connection(&vec![true, false, true], 5), 1);
    assert_eq!(pick_connection(&vec![true, true, true], 5), 2);
    assert_eq!(pick_connection(&vec![false, false], 9), 0);
}

#[test]
fn test_proxy_round_robin() {
    let mut p = ProxyRoundRobin::new(vec!["a".to_string(), "b".to_string(), "c".to_string()]);
    let (first, i1) = p.ask_proxy().unwrap();
    assert_eq!((first.as_str(), i1), ("b", 1));
    p.mark_bad_proxy(2);
    let (second, i2) = p.ask_proxy().unwrap();
    assert_eq!((second.as_str(), i2), ("a", 0));
    // with every proxy bad the rotation starts over clean
    p.mark_bad_proxy(0);
    p.mark_bad_proxy(1);
    let (third, _) = p.ask_proxy().unwrap();
    assert_eq!(third.as_str(), "b");
    let (fourth, _) = p.ask_proxy().unwrap();
    assert_eq!(fourth.as_str(), "c");

    let mut empty = ProxyRoundRobin::new(vec![]);
    assert!(empty.ask_proxy().is_none());
}

#[test]
fn test_parse_cookies_pairs() {
    let pairs = parse_cookies("cur_user=3; theme=dark; junk");
    assert_eq!(
        pairs,
        vec![
            ("cur_user".to_string(), "3".to_string()),
            ("theme".to_string(), "dark".to_string())
        ]
    );
    let jar = Cookies(pairs);
    assert_eq!(jar.get("cur_user").map(|s| s.as_str()), Some("3"));
    assert!(jar.get("missing").is_none());
}

#[test]
fn test_collect_rows_results() {
    let ok: Result<Vec<i32>, String> = collect_rows(vec![Ok(1), Ok(2)]);
    assert_eq!(ok, Ok(vec![1, 2]));
    let bad: Result<Vec<i32>, String> = collect_rows(vec![Ok(1), Err("x".to_string())]);
    assert_eq!(bad, Err("x".to_string()));
}

#[test]
fn test_stream_decisions() {
    assert_eq!(content_type_of("song.mp3"), "audio/mpeg");
    assert_eq!(content_type_of("song.webm"), "audio/webm");
    assert_eq!(content_type_of("song.txt"), "");
    assert!(StaticHandle::should_cache("app.wasm"));
    assert!(StaticHandle::is_wasm("app.wasm"));
    assert!(!StaticHandle::should_cache("index.html"));
    assert_eq!(range_size_of(10, 5, 100), (10, 14, 100));
    assert_eq!(range_size_of(10, 500, 100), (10, 99, 100));
    assert_eq!(range_size_of(0, 0, 0), (0, 0, 0));
}

#[test]
fn test_base_and_db() {
    let (base, db) = base_and_db("postgres://localhost:5433/musidex?sslmode=off").unwrap();
    assert_eq!(base, "postgres://localhost:5433");
    assert_eq!(db, "musidex");
    assert!(base_and_db("nohost").is_none());
}

#[test]
fn test_codec_none_marker() {
    assert_eq!(Codec::from_raw(Some("none".to_string())).0, None);
    assert_eq!(
        Codec::from_raw(Some("opus".to_string())).0,
        Some("opus".to_string())
    );
    assert_eq!(Codec::from_raw(None).0, None);
}

#[test]
fn test_settings() {
    let mut c = Store::new();
    c.init_settings().unwrap();
    assert_eq!(c.get_setting("config_test").as_deref(), Some("1"));
    // an existing key is never overwritten by seeding
    c.update_setting("config_test", "7").unwrap();
    c.init_settings().unwrap();
    assert_eq!(c.get_setting("config_test").as_deref(), Some("7"));
    // updating an absent key changes nothing
    c.update_setting("nope", "1").unwrap();
    assert!(c.get_setting("nope").is_none());
    assert_eq!(c.all_settings().len(), 1);
}
