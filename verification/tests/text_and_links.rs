use bochk_check::notifier::{bark_endpoint, build_map_links, mask_url, urlenc};
use bochk_check::parser::{format_date, to_api_date};
use bochk_check::history::{format_hhmm, format_hhmm_edge};
use bochk_check::message::format_duration_short;

#[test]
fn mask_url_shortens_long_token() {
    assert_eq!(mask_url("https://api.day.app/abcdefghij"), "https://api.day.app/abc...hij");
}

#[test]
fn mask_url_hides_short_token() {
    assert_eq!(mask_url("https://api.day.app/abcdef"), "https://api.day.app/***");
    assert_eq!(mask_url("https://api.day.app/"), "https://api.day.app/***");
}

#[test]
fn mask_url_without_slash() {
    assert_eq!(mask_url("no-slash-here"), "***");
}

#[test]
fn urlenc_keeps_unreserved_and_encodes_rest() {
    assert_eq!(urlenc("Az09-_.~"), "Az09-_.~");
    assert_eq!(urlenc("a b/c"), "a%20b%2Fc");
    assert_eq!(urlenc("香"), "%E9%A6%99");
    assert_eq!(urlenc(""), "");
}

#[test]
fn map_links_use_trimmed_query() {
    let (google, bing) = build_map_links("Central", "");
    assert_eq!(google, "https://www.google.com/maps/search/?api=1&query=%E9%A6%99%E6%B8%AF%20%20Central");
    assert_eq!(bing, "https://www.bing.com/maps?q=%E9%A6%99%E6%B8%AF%20%20Central");
    let (g2, _) = build_map_links("", "");
    assert_eq!(g2, "https://www.google.com/maps/search/?api=1&query=%E9%A6%99%E6%B8%AF");
}

#[test]
fn dates_are_reformatted() {
    assert_eq!(to_api_date("20240105"), "05/01/2024");
    assert_eq!(format_date("20240105"), "2024-01-05");
    assert_eq!(to_api_date("2024-01-05"), "2024-01-05");
    assert_eq!(format_date("bad"), "bad");
}

#[test]
fn clock_texts() {
    assert_eq!(format_hhmm(0), "00:00");
    assert_eq!(format_hhmm(3661), "01:01");
    assert_eq!(format_hhmm(86399), "23:59");
    assert_eq!(format_hhmm(90000), "01:00");
    assert_eq!(format_hhmm_edge(86400), "24:00");
    assert_eq!(format_hhmm_edge(1800), "00:30");
}

#[test]
fn short_durations() {
    assert_eq!(format_duration_short(0), "0s");
    assert_eq!(format_duration_short(45), "45s");
    assert_eq!(format_duration_short(125), "2m");
    assert_eq!(format_duration_short(3600), "1h");
    assert_eq!(format_duration_short(3660), "1h1m");
    assert_eq!(format_duration_short(86400), "1d");
    assert_eq!(format_duration_short(90000), "1d1h");
}

#[test]
fn bark_endpoints_lose_trailing_slashes() {
    assert_eq!(bark_endpoint(""), None);
    assert_eq!(bark_endpoint("https://api.day.app/key//"), Some("https://api.day.app/key".to_string()));
    assert_eq!(bark_endpoint("https://api.day.app/key"), Some("https://api.day.app/key".to_string()));
    assert_eq!(bark_endpoint("///"), Some(String::new()));
}

#[test]
fn masking_hides_the_middle_of_the_token() {
    assert_eq!(mask_url("https://api.day.app/abcXXXXXXhij"), mask_url("https://api.day.app/abc0hij"));
    assert_eq!(mask_url("https://api.day.app/abc"), mask_url("https://api.day.app/zzzzzz"));
    assert_ne!(mask_url("https://api.day.app/abcdefghij"), mask_url("https://api.day.app/abddefghij"));
}
