use action_log::input::split_tags;
use action_log::text::escape_pipes;
use action_log::filter::in_range;
use action_log::store::older_than;
use action_log::timestamp::{deserialize, serialize, Timestamp};

#[test]
fn tag_lists_are_split_trimmed_and_cleaned() {
    assert_eq!(split_tags(" work , urgent,,  ,home "), vec!["work", "urgent", "home"]);
    assert_eq!(split_tags(""), Vec::<String>::new());
    assert_eq!(split_tags("solo"), vec!["solo"]);
    assert_eq!(split_tags("\ta b\n"), vec!["a b"]);
    assert_eq!(split_tags("\u{3000}x\u{a0}, \u{2003}"), vec!["x"]);
}

#[test]
fn pipes_are_escaped_for_tables() {
    assert_eq!(escape_pipes("a|b||c"), "a\\|b\\|\\|c");
    assert_eq!(escape_pipes("plain"), "plain");
    assert_eq!(escape_pipes(""), "");
}

#[test]
fn date_and_time_texts() {
    let t = Timestamp::from_parts(2024, 7, 4, 8, 5, 9, -60).unwrap();
    assert_eq!(t.date_text(), "2024-07-04");
    assert_eq!(t.time_text(), "08:05:09");
}

#[test]
fn now_is_a_valid_timestamp() {
    let t = Timestamp::now().unwrap();
    assert!(Timestamp::from_parts(t.year, t.month, t.day, t.hour, t.minute, t.second, t.offset_minutes).is_some());
    assert!(t.year >= 2000);
}

#[test]
fn timestamp_text_round_trip() {
    let t = Timestamp::from_parts(2021, 11, 30, 23, 0, 1, 345).unwrap();
    let text = serialize(&t);
    assert_eq!(text, "2021-11-30T23:00:01+05:45");
    assert_eq!(deserialize(&text).unwrap(), t);
    assert!(deserialize("2021-11-30T23:00:01-00:00").is_err());
    assert!(deserialize("2021-11-30T23:00:01+05:45 ").is_err());
    assert!(deserialize("2021-11-31T23:00:01+05:45").is_err());
    assert!(deserialize("2021-11-30 23:00:01+05:45").is_err());
}

#[test]
fn age_limits() {
    assert!(in_range(100, 107, Some(7)));
    assert!(!in_range(100, 108, Some(7)));
    assert!(in_range(120, 107, Some(0)));
    assert!(in_range(0, 1_000_000, None));
    assert!(older_than(100, 108, 7));
    assert!(!older_than(100, 107, 7));
    assert!(older_than(100, 100, -1));
}
