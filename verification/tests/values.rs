use wikicorpus::coords::{format_coordinate, format_coordinates};
use wikicorpus::dates::format_date;

#[test]
fn dates_reformat_under_the_configured_pattern() {
    assert_eq!(
        format_date("+1952-03-11T00:00:00Z", "%Y-%m-%d", "missing date"),
        "1952-03-11"
    );
    assert_eq!(
        format_date("1969-07-20T20:17:40Z", "%d.%m.%Y", "missing date"),
        "20.07.1969"
    );
}

#[test]
fn unparsable_dates_fall_back_to_the_marker() {
    assert_eq!(
        format_date("+1952-00-00T00:00:00Z", "%Y-%m-%d", "missing date"),
        "missing date"
    );
    assert_eq!(format_date("", "%Y-%m-%d", "missing date"), "missing date");
    assert_eq!(
        format_date("not a date", "%Y-%m-%d", "datum fehlt"),
        "datum fehlt"
    );
}

#[test]
fn date_agrees_with_chrono_directly() {
    let dt = chrono::NaiveDateTime::parse_from_str("1969-07-20T20:17:40Z", "%Y-%m-%dT%H:%M:%SZ")
        .unwrap();
    assert_eq!(
        format_date("1969-07-20T20:17:40Z", "%Y-%m-%d %H:%M", "missing date"),
        dt.format("%Y-%m-%d %H:%M").to_string()
    );
}

#[test]
fn coordinates_render_degree_minute_second() {
    assert_eq!(
        format_coordinate("52.5", true),
        Some("52\u{b0}30'0\"N".to_string())
    );
    assert_eq!(
        format_coordinate("-13.4", false),
        Some("13\u{b0}24'0\"W".to_string())
    );
    assert_eq!(format_coordinate("garbage", true), None);
}

#[test]
fn coordinate_pairs_and_altitude() {
    assert_eq!(
        format_coordinates("52.5", "13.4", None),
        Some("52\u{b0}30'0\"N, 13\u{b0}24'0\"E".to_string())
    );
    assert_eq!(
        format_coordinates("52.5", "13.4", Some("34.7")),
        Some("52\u{b0}30'0\"N, 13\u{b0}24'0\"E (35m)".to_string())
    );
    assert_eq!(format_coordinates("x", "13.4", None), None);
}

#[test]
fn seconds_round_to_the_nearest_whole() {
    // 10.9999 degrees: 59 minutes, 59.64 seconds, rounded to 60.
    assert_eq!(
        format_coordinate("10.9999", true),
        Some("10\u{b0}59'60\"N".to_string())
    );
    // 10.2625 degrees: 15 minutes, 45 seconds exactly.
    assert_eq!(
        format_coordinate("10.2625", true),
        Some("10\u{b0}15'45\"N".to_string())
    );
}
