use blog_core::tz::resolve_timezone;

#[test]
fn header_wins_over_cookie() {
    let r = resolve_timezone(Some("America/New_York"), Some("Europe/London"));
    assert_eq!(r.0, "America/New_York");
}

#[test]
fn invalid_header_falls_back_to_cookie() {
    let r = resolve_timezone(Some("Not/A_Zone"), Some("Europe/London"));
    assert_eq!(r.0, "Europe/London");
}

#[test]
fn no_signal_means_utc() {
    let r = resolve_timezone(None, None);
    assert_eq!(r.0, "UTC");
}

#[test]
fn invalid_signals_mean_utc() {
    let r = resolve_timezone(Some("garbage"), Some("also garbage"));
    assert_eq!(r.0, "UTC");
}

#[test]
fn missing_header_with_valid_cookie_uses_cookie() {
    let r = resolve_timezone(None, Some("Asia/Tokyo"));
    assert_eq!(r.0, "Asia/Tokyo");
}
