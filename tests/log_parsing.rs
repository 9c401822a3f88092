use txt2excel::label::normalize_time;
use txt2excel::log::{parse_log, DailyRecord};

fn pairs(r: &DailyRecord) -> Vec<(String, String)> {
    r.readings.iter().map(|x| (x.label.clone(), x.value.clone())).collect()
}

fn p(a: &str, b: &str) -> (String, String) {
    (a.to_string(), b.to_string())
}

#[test]
fn normalize_pads_hour_and_minute() {
    assert_eq!(normalize_time("1:00"), "01:00");
    assert_eq!(normalize_time("01:00"), "01:00");
    assert_eq!(normalize_time("9:5"), "09:05");
    assert_eq!(normalize_time(" 9 : 15 "), "09:15");
    assert_eq!(normalize_time(":"), "00:00");
    assert_eq!(normalize_time("123:4567"), "123:4567");
}

#[test]
fn normalize_keeps_other_values() {
    assert_eq!(normalize_time("abc"), "abc");
    assert_eq!(normalize_time("1:2:3"), "1:2:3");
    assert_eq!(normalize_time(""), "");
    assert_eq!(normalize_time(" 7 "), " 7 ");
}

#[test]
fn normalize_is_idempotent_on_examples() {
    for s in ["1:00", " 9 : 5", "x", "1:2:3", "", ":", "  :  ", "10:30"] {
        let once = normalize_time(s);
        assert_eq!(normalize_time(&once), once);
    }
}

#[test]
fn colliding_labels_keep_last_value() {
    let text = "日期: 2024-01-01\n1:00 23.5\n01:00 24.0\n9:15 10\n";
    let recs = parse_log(text);
    assert_eq!(recs.len(), 1);
    assert_eq!(recs[0].date, "2024-01-01");
    assert_eq!(pairs(&recs[0]), vec![p("01:00", "24.0"), p("09:15", "10")]);
    let v: Vec<f64> = recs[0].readings.iter().map(|x| x.value.parse().unwrap()).collect();
    assert_eq!(v, vec![24.0, 10.0]);
}

#[test]
fn reading_before_any_date_is_dropped() {
    let recs = parse_log("1:00 5\n日期：2024-01-02\n2:00 6");
    assert_eq!(recs.len(), 1);
    assert_eq!(recs[0].date, "2024-01-02");
    assert_eq!(pairs(&recs[0]), vec![p("02:00", "6")]);
    assert!(parse_log("1:00 5\n2:00 6\n").is_empty());
}

#[test]
fn date_without_readings_yields_no_record() {
    let recs = parse_log("日期: 2024-01-01\n日期: 2024-01-02\n3:00 1.5\n日期: 2024-01-03\n");
    assert_eq!(recs.len(), 1);
    assert_eq!(recs[0].date, "2024-01-02");
    assert_eq!(pairs(&recs[0]), vec![p("03:00", "1.5")]);
}

#[test]
fn record_count_matches_dates_with_readings() {
    let text = "日期: 2024-01-01\n\nnoise\n1:00 1\n日期: 2024-01-02\n日期:2024-01-03\n2:00 2\n3:00 3\n日期: 2024-01-04\n";
    let recs = parse_log(text);
    let dates: Vec<&str> = recs.iter().map(|r| r.date.as_str()).collect();
    assert_eq!(dates, vec!["2024-01-01", "2024-01-03"]);
    assert_eq!(pairs(&recs[1]), vec![p("02:00", "2"), p("03:00", "3")]);
}

#[test]
fn empty_log_has_no_records() {
    assert!(parse_log("").is_empty());
    assert!(parse_log("\n\n   \n").is_empty());
}

#[test]
fn line_shapes_are_found_anywhere_in_a_line() {
    let text = "  记录 日期：  2024-13-40 extra\r\nt=123:45 \t 6.25kg\r\nat 7:8 9.\r\n";
    let recs = parse_log(text);
    assert_eq!(recs.len(), 1);
    assert_eq!(recs[0].date, "2024-13-40");
    assert_eq!(pairs(&recs[0]), vec![p("23:45", "6.25"), p("07:08", "9")]);
}

#[test]
fn lines_of_neither_shape_are_ignored() {
    let text = "日期 2024-01-01\n日期: 24-01-01\n日期: 2024-01-01\n1:00\n1:00x5\n1:234 5\n12:30 7\n";
    let recs = parse_log(text);
    assert_eq!(recs.len(), 1);
    assert_eq!(pairs(&recs[0]), vec![p("12:30", "7")]);
}

#[test]
fn date_line_wins_over_reading_shape() {
    let recs = parse_log("日期: 2024-05-06 1:00 5\n2:00 8\n");
    assert_eq!(recs.len(), 1);
    assert_eq!(recs[0].date, "2024-05-06");
    assert_eq!(pairs(&recs[0]), vec![p("02:00", "8")]);
}
