use action_log::codec::{decode, encode, DecodeError};
use action_log::config::Config;
use action_log::error::LogError;
use action_log::filter::{has_tags, keyword_matches, occurs, Filter};
use action_log::record::Record;
use action_log::store::LogFile;
use action_log::tags::rank_tags;
use action_log::timestamp::Timestamp;
use action_log::util::sort_tags;

fn s(x: &str) -> String {
    x.to_string()
}

fn strings(xs: &[&str]) -> Vec<String> {
    xs.iter().map(|x| x.to_string()).collect()
}

fn at(year: i32, month: u32, day: u32) -> Timestamp {
    Timestamp::from_parts(year, month, day, 9, 30, 0, 120).unwrap()
}

fn record_at(f: &LogFile, id: usize) -> Record {
    decode(&f.lines()[id - 1]).unwrap()
}

fn four_records() -> LogFile {
    let mut f = LogFile::missing();
    for (i, c) in ["one", "two", "three", "four"].iter().enumerate() {
        f.append(s(c), &strings(&["t"]), at(2024, 5, 1 + i as u32));
    }
    f
}

#[test]
fn test_serialize_deserialize() {
    let now = Timestamp::now().unwrap();
    let log_entry = Record::new(now, "Test content".to_string(), &vec!["tag1".to_string(), "tag2".to_string()]);

    let serialized = encode(&log_entry);
    let deserialized = decode(&serialized).unwrap();

    assert_eq!(log_entry.content, deserialized.content);
    assert_eq!(log_entry.tags, deserialized.tags);
    assert_eq!(log_entry.timestamp, deserialized.timestamp);
}

#[test]
fn test_log_action() {
    let mut file = LogFile::missing();
    let now = Timestamp::now().unwrap();
    file.append("Test content".to_string(), &vec!["tag1".to_string(), "tag2".to_string()], now);

    let log_entries: Vec<Record> = file.lines().iter().map(|line| decode(line).unwrap()).collect();

    assert_eq!(log_entries.len(), 1);
    assert_eq!(log_entries[0].content, "Test content");
    assert!(log_entries[0].tags.contains(&"tag1".to_string()));
    assert!(log_entries[0].tags.contains(&"tag2".to_string()));
}

#[test]
fn test_tag_counting() {
    let mut file = LogFile::missing();
    let now = Timestamp::now().unwrap();
    file.append("Log 1".to_string(), &vec!["work".to_string(), "urgent".to_string()], now);
    file.append("Log 2".to_string(), &vec!["work".to_string(), "meeting".to_string()], now);
    file.append("Log 3".to_string(), &vec!["rest".to_string()], now);

    let counts = file.tag_counts();
    let get = |t: &str| counts.iter().find(|(k, _)| k == t).map(|(_, c)| *c);

    assert_eq!(get("work").unwrap(), 2);
    assert_eq!(get("urgent").unwrap(), 1);
    assert_eq!(get("meeting").unwrap(), 1);
    assert_eq!(get("rest").unwrap(), 1);
    assert!(get("unknown").is_none());
}

#[test]
fn tag_counts_skip_bad_lines_and_missing_file() {
    assert!(LogFile::missing().tag_counts().is_empty());
    let mut f = LogFile::from_lines(vec![s("not a record")]);
    f.append(s("x"), &strings(&["a", "b"]), at(2024, 1, 1));
    f.append(s("y"), &strings(&["b"]), at(2024, 1, 2));
    assert_eq!(f.tag_counts(), vec![(s("a"), 1), (s("b"), 2)]);
}

#[test]
fn count_equals_number_of_appends() {
    let mut f = LogFile::missing();
    assert_eq!(f.count(), 0);
    for i in 0..5 {
        let id = f.append(format!("entry {}", i), &vec![], at(2024, 2, 1));
        assert_eq!(id, i + 1);
        assert_eq!(f.count(), i + 1);
    }
}

#[test]
fn encoded_line_is_exact() {
    let r = Record::new(at(2024, 5, 10), s("hi"), &strings(&["a"]));
    assert_eq!(
        encode(&r),
        "{\"timestamp\":\"2024-05-10T09:30:00+02:00\",\"content\":\"hi\",\"tags\":[\"a\"]}"
    );
    let neg = Timestamp::from_parts(999, 12, 31, 23, 59, 59, -330).unwrap();
    let r = Record::new(neg, s(""), &vec![]);
    assert_eq!(
        encode(&r),
        "{\"timestamp\":\"0999-12-31T23:59:59-05:30\",\"content\":\"\",\"tags\":[]}"
    );
}

#[test]
fn round_trip_with_escapes() {
    let content = "line one\nline \"two\"\twith \\ and\r é ✓";
    let r = Record::new(at(2023, 2, 28), s(content), &strings(&["x,y", "q\"uote", ""]));
    let line = encode(&r);
    assert!(!line.contains('\n'));
    let back = decode(&line).unwrap();
    assert_eq!(back.content, content);
    assert_eq!(back.tags, strings(&["x,y", "q\"uote", ""]));
    assert_eq!(back.timestamp, r.timestamp);
}

#[test]
fn encoded_line_is_json() {
    let r = Record::new(at(2024, 3, 3), s("say \"hi\"\nnow\\"), &strings(&["b", "a"]));
    let v: serde_json::Value = serde_json::from_str(&encode(&r)).unwrap();
    assert_eq!(v["timestamp"], "2024-03-03T09:30:00+02:00");
    assert_eq!(v["content"], "say \"hi\"\nnow\\");
    assert_eq!(v["tags"][0], "b");
    assert_eq!(v["tags"][1], "a");
}

#[test]
fn decode_rejects_malformed_lines() {
    let good = encode(&Record::new(at(2024, 1, 1), s("c"), &strings(&["t"])));
    assert!(decode(&good).is_ok());
    assert_eq!(decode("").unwrap_err(), DecodeError);
    assert!(decode("{}").is_err());
    assert!(decode(&good.replace("2024-01-01", "2024-02-30")).is_err());
    assert!(decode(&good.replace("+02:00", "+02:60")).is_err());
    assert!(decode(&good.replace("\"c\"", "\"c")).is_err());
    assert!(decode(&good.replace("]}", "]} ")).is_err());
    assert!(decode(&good.replace("\"c\"", "\"\\x\"")).is_err());
    assert!(decode(&good.replace("[\"t\"]", "[\"t\",]")).is_err());
}

#[test]
fn timestamp_parts_are_checked() {
    assert!(Timestamp::from_parts(2024, 2, 29, 0, 0, 0, 0).is_some());
    assert!(Timestamp::from_parts(2023, 2, 29, 0, 0, 0, 0).is_none());
    assert!(Timestamp::from_parts(1900, 2, 29, 0, 0, 0, 0).is_none());
    assert!(Timestamp::from_parts(2000, 2, 29, 0, 0, 0, 0).is_some());
    assert!(Timestamp::from_parts(2024, 4, 31, 0, 0, 0, 0).is_none());
    assert!(Timestamp::from_parts(2024, 1, 1, 24, 0, 0, 0).is_none());
    assert!(Timestamp::from_parts(2024, 1, 1, 0, 0, 0, 1440).is_none());
    assert!(Timestamp::from_parts(10000, 1, 1, 0, 0, 0, 0).is_none());
}

#[test]
fn day_numbers_follow_the_calendar() {
    assert_eq!(at(1970, 1, 1).day_number(), 719_163);
    assert_eq!(at(1, 1, 1).day_number(), 1);
    assert_eq!(at(2024, 3, 1).day_number() - at(2024, 2, 28).day_number(), 2);
}

#[test]
fn appended_tags_are_deduplicated() {
    let mut f = LogFile::missing();
    f.append(s("dup"), &strings(&["a", "a", "b"]), at(2024, 1, 1));
    let r = record_at(&f, 1);
    assert_eq!(r.tags.len(), 2);
    assert!(r.tags.contains(&s("a")) && r.tags.contains(&s("b")));
}

#[test]
fn update_without_tags_keeps_tags() {
    let mut f = four_records();
    f.update(2, s("X"), None).unwrap();
    let r = record_at(&f, 2);
    assert_eq!(r.content, "X");
    assert_eq!(r.tags, strings(&["t"]));
    assert_eq!(r.timestamp, at(2024, 5, 2));
    assert_eq!(record_at(&f, 1).content, "one");
    assert_eq!(record_at(&f, 3).content, "three");
}

#[test]
fn update_with_empty_tags_clears_them() {
    let mut f = four_records();
    f.update(3, s("X"), Some(vec![])).unwrap();
    assert!(record_at(&f, 3).tags.is_empty());
    f.update(3, s("Y"), Some(strings(&["p", "p", "q"]))).unwrap();
    assert_eq!(record_at(&f, 3).tags, strings(&["p", "q"]));
}

#[test]
fn update_errors() {
    let mut f = four_records();
    let before = f.lines().clone();
    assert_eq!(f.update(0, s("X"), None), Err(LogError::InvalidId { id: 0 }));
    assert_eq!(f.update(5, s("X"), None), Err(LogError::InvalidId { id: 5 }));
    assert_eq!(f.lines(), &before);
    assert_eq!(LogFile::missing().update(1, s("X"), None), Err(LogError::NotFound));
    let mut bad = LogFile::from_lines(vec![s("garbage")]);
    assert_eq!(bad.update(1, s("X"), None), Err(LogError::Decode { line: 1 }));
    let mut lines = four_records().lines().clone();
    lines.push(s("corrupt"));
    let mut f = LogFile::from_lines(lines.clone());
    assert_eq!(f.update(1, s("X"), None), Err(LogError::Decode { line: 5 }));
    assert_eq!(f.update(9, s("X"), None), Err(LogError::Decode { line: 5 }));
    assert_eq!(f.copy(1, None, at(2024, 6, 1)), Err(LogError::Decode { line: 5 }));
    assert_eq!(f.lines(), &lines);
}

#[test]
fn delete_renumbers_remaining_records() {
    let mut f = four_records();
    let out = f.delete(&vec![4, 2]).unwrap();
    assert_eq!(out.removed, 2);
    assert!(out.invalid.is_empty());
    assert_eq!(f.count(), 2);
    assert_eq!(record_at(&f, 1).content, "one");
    assert_eq!(record_at(&f, 2).content, "three");
}

#[test]
fn delete_of_unknown_id_leaves_file_identical() {
    let mut f = four_records();
    let before = f.lines().clone();
    let out = f.delete(&vec![99]).unwrap();
    assert_eq!(out.removed, 0);
    assert_eq!(out.invalid, vec![99]);
    assert_eq!(f.lines(), &before);
}

#[test]
fn delete_counts_duplicates_once_and_reports_invalid() {
    let mut f = four_records();
    let out = f.delete(&vec![3, 0, 3, 1, 7]).unwrap();
    assert_eq!(out.removed, 2);
    assert_eq!(out.invalid, vec![0, 7]);
    assert_eq!(record_at(&f, 1).content, "two");
    assert_eq!(record_at(&f, 2).content, "four");
}

#[test]
fn delete_errors() {
    assert_eq!(LogFile::missing().delete(&vec![1]), Err(LogError::NotFound));
    let mut f = four_records();
    let mut lines = f.lines().clone();
    lines.insert(2, s("oops"));
    f = LogFile::from_lines(lines.clone());
    assert_eq!(f.delete(&vec![1]), Err(LogError::Decode { line: 3 }));
    assert_eq!(f.lines(), &lines);
}

#[test]
fn copy_appends_with_new_time_and_same_tags() {
    let mut f = LogFile::missing();
    f.append(s("orig"), &strings(&["w", "x"]), at(2024, 1, 1));
    let id = f.copy(1, None, at(2024, 6, 1)).unwrap();
    assert_eq!(id, 2);
    let r = record_at(&f, 2);
    assert_eq!(r.content, "orig");
    assert_eq!(r.tags, strings(&["w", "x"]));
    assert_eq!(r.timestamp, at(2024, 6, 1));
    let id = f.copy(1, Some(s("changed")), at(2024, 6, 2)).unwrap();
    assert_eq!(id, 3);
    assert_eq!(record_at(&f, 3).content, "changed");
    assert_eq!(f.copy(4, None, at(2024, 6, 2)), Err(LogError::InvalidId { id: 4 }));
    assert_eq!(LogFile::missing().copy(1, None, at(2024, 6, 2)), Err(LogError::NotFound));
}

#[test]
fn archive_moves_only_older_records() {
    let today = at(2024, 5, 20);
    let mut f = LogFile::missing();
    f.append(s("old"), &vec![], at(2024, 5, 10));
    f.append(s("new"), &vec![], today);
    let moved = f.archive(7, today.day_number()).unwrap();
    assert_eq!(moved.len(), 1);
    assert_eq!(decode(&moved[0]).unwrap().content, "old");
    assert_eq!(f.count(), 1);
    assert_eq!(record_at(&f, 1).content, "new");
}

#[test]
fn archive_boundary_and_bad_lines() {
    let today = at(2024, 5, 20);
    let mut f = LogFile::from_lines(vec![s("broken")]);
    f.append(s("seven days"), &vec![], at(2024, 5, 13));
    f.append(s("eight days"), &vec![], at(2024, 5, 12));
    let moved = f.archive(7, today.day_number()).unwrap();
    assert_eq!(moved.len(), 1);
    assert_eq!(decode(&moved[0]).unwrap().content, "eight days");
    assert_eq!(f.count(), 1);
    assert_eq!(record_at(&f, 1).content, "seven days");
    assert_eq!(LogFile::missing().archive(7, today.day_number()), Err(LogError::NotFound));
}

#[test]
fn filter_requires_all_tags() {
    let mut f = LogFile::missing();
    f.append(s("task"), &strings(&["work", "urgent"]), at(2024, 1, 1));
    let today = at(2024, 1, 2).day_number();
    let one = Filter::new(None, None, strings(&["work"]), None).unwrap();
    assert_eq!(f.scan(&one, today).unwrap().len(), 1);
    let two = Filter::new(None, None, strings(&["work", "missing"]), None).unwrap();
    assert_eq!(f.scan(&two, today).unwrap().len(), 0);
    assert!(has_tags(&strings(&["urgent", "work"]), &strings(&["work", "urgent"])));
    assert!(!has_tags(&strings(&["wor"]), &strings(&["work"])));
}

#[test]
fn keyword_is_case_insensitive_over_content_or_tags() {
    let mut f = LogFile::missing();
    f.append(s("Team Meeting"), &strings(&["Planning"]), at(2024, 1, 1));
    f.append(s("lunch"), &strings(&["food"]), at(2024, 1, 1));
    let today = at(2024, 1, 1).day_number();
    let by_content = Filter::new(None, None, vec![], Some("MEETING")).unwrap();
    let hits = f.scan(&by_content, today).unwrap();
    assert_eq!(hits.len(), 1);
    assert_eq!(hits[0].0, 1);
    let by_tag = Filter::new(None, None, vec![], Some("plan")).unwrap();
    assert_eq!(f.scan(&by_tag, today).unwrap()[0].0, 1);
    let second = Filter::new(None, None, vec![], Some("FOO")).unwrap();
    let hits = f.scan(&second, today).unwrap();
    assert_eq!(hits.len(), 1);
    assert_eq!(hits[0].0, 2);
    assert!(keyword_matches("ab", "xaby", &vec![]));
    assert!(keyword_matches("ab", "x", &strings(&["zz", "cab"])));
    assert!(!keyword_matches("ab", "a b", &strings(&["ba"])));
    assert!(occurs("", "abc"));
    assert!(!occurs("abcd", "abc"));
}

#[test]
fn date_and_range_filters() {
    let mut f = LogFile::missing();
    f.append(s("a"), &vec![], at(2024, 5, 1));
    f.append(s("b"), &vec![], at(2024, 5, 15));
    f.append(s("future"), &vec![], at(2024, 6, 1));
    let today = at(2024, 5, 20).day_number();
    let on = Filter::new(Some("2024-05-15"), None, vec![], None).unwrap();
    let hits = f.scan(&on, today).unwrap();
    assert_eq!(hits.len(), 1);
    assert_eq!(hits[0].0, 2);
    let recent = Filter::new(None, Some(5), vec![], None).unwrap();
    let ids: Vec<usize> = f.scan(&recent, today).unwrap().iter().map(|h| h.0).collect();
    assert_eq!(ids, vec![2, 3]);
    assert_eq!(Filter::new(Some("2024-13-01"), None, vec![], None).unwrap_err(), LogError::InvalidDate);
    assert_eq!(Filter::new(Some("yesterday"), None, vec![], None).unwrap_err(), LogError::InvalidDate);
}

#[test]
fn scan_of_missing_file_fails_and_append_creates_it() {
    let mut f = LogFile::missing();
    assert!(!f.is_present());
    assert_eq!(f.scan(&Filter::all(), 1).unwrap_err(), LogError::NotFound);
    f.append(s("first"), &vec![], at(2024, 1, 1));
    assert!(f.is_present());
    let hits = f.scan(&Filter::all(), 1).unwrap();
    assert_eq!(hits.len(), 1);
    assert_eq!(hits[0].1.content, "first");
}

#[test]
fn scan_stops_at_first_bad_line() {
    let mut f = LogFile::missing();
    f.append(s("ok"), &vec![], at(2024, 1, 1));
    let mut lines = f.lines().clone();
    lines.push(s("bad"));
    lines.push(s("worse"));
    let f = LogFile::from_lines(lines);
    assert_eq!(f.scan(&Filter::all(), 1).unwrap_err(), LogError::Decode { line: 2 });
}

#[test]
fn tags_sort_shorter_first_then_alphabetically() {
    assert_eq!(
        sort_tags(strings(&["banana", "fig", "apple", "kiwi", "date", "b"])),
        strings(&["b", "fig", "date", "kiwi", "apple", "banana"])
    );
    assert_eq!(sort_tags(vec![]), Vec::<String>::new());
    assert_eq!(sort_tags(strings(&["ab", "é"])), strings(&["ab", "é"]));
    assert_eq!(
        sort_tags(strings(&["bb", "é", "a", "ab", "z"])),
        strings(&["a", "z", "ab", "bb", "é"])
    );
}

#[test]
fn ranking_orders_by_count_then_name() {
    let ranked = rank_tags(vec![(s("rest"), 1), (s("work"), 2), (s("meeting"), 1), (s("urgent"), 3)]);
    assert_eq!(
        ranked,
        vec![(s("urgent"), 3), (s("work"), 2), (s("meeting"), 1), (s("rest"), 1)]
    );
}

#[test]
fn default_config_names_the_log_file() {
    assert_eq!(Config::default().log_file, "action_log.json");
}
