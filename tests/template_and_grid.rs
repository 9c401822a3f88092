use txt2excel::grid::build_grid;
use txt2excel::log::{parse_log, DailyRecord, Reading};
use txt2excel::template::{header_cell_label, template_columns};

fn cells(v: &[Option<&str>]) -> Vec<Option<String>> {
    v.iter().map(|c| c.map(|s| s.to_string())).collect()
}

fn strs(v: &[&str]) -> Vec<String> {
    v.iter().map(|s| s.to_string()).collect()
}

#[test]
fn template_header_labels_are_cleaned_and_normalized() {
    let h = cells(&[Some("日期"), Some("【09:00】"), Some("9:15")]);
    assert_eq!(template_columns(&h), strs(&["09:00", "09:15"]));
}

#[test]
fn template_skips_empty_and_non_text_cells() {
    let h = cells(&[Some("日期"), None, Some("  "), Some("【】"), Some(" 【 1:5】 "), Some("1:05"), Some("x")]);
    assert_eq!(template_columns(&h), strs(&["01:05", "01:05", "x"]));
    assert!(template_columns(&Vec::new()).is_empty());
    assert!(template_columns(&cells(&[Some("9:00")])).is_empty());
}

#[test]
fn header_cell_label_cases() {
    assert_eq!(header_cell_label(&Some("【 9:00】".to_string())), Some("09:00".to_string()));
    assert_eq!(header_cell_label(&Some("【 】".to_string())), Some(" ".to_string()));
    assert_eq!(header_cell_label(&Some(" ".to_string())), None);
    assert_eq!(header_cell_label(&None), None);
}

fn record(date: &str, rs: &[(&str, &str)]) -> DailyRecord {
    DailyRecord {
        date: date.to_string(),
        readings: rs
            .iter()
            .map(|(l, v)| Reading { label: l.to_string(), value: v.to_string() })
            .collect(),
    }
}

#[test]
fn grid_leaves_missing_cells_blank() {
    let recs = vec![record("2024-01-01", &[("09:00", "5.0")])];
    let cols = strs(&["09:00", "09:15"]);
    let g = build_grid(&recs, &cols);
    assert_eq!(g.header, strs(&["日期", "09:00", "09:15"]));
    assert_eq!(g.rows.len(), 1);
    assert_eq!(g.rows[0].date, "2024-01-01");
    assert_eq!(g.rows[0].cells, vec![Some("5.0".to_string()), None]);
    let v: f64 = g.rows[0].cells[0].as_ref().unwrap().parse().unwrap();
    assert_eq!(v, 5.0);
}

#[test]
fn grid_header_round_trips_columns() {
    let cols = strs(&["09:00", "1:00", "x", "09:00"]);
    let g = build_grid(&Vec::new(), &cols);
    assert_eq!(g.header[1..].to_vec(), cols);
    assert!(g.rows.is_empty());
}

#[test]
fn grid_falls_back_to_normalized_column() {
    let recs = vec![record("d1", &[("09:00", "1"), ("10:30", "2")]), record("d2", &[])];
    let cols = strs(&["9:00", "10:30", "11:00"]);
    let g = build_grid(&recs, &cols);
    assert_eq!(g.rows[0].cells, vec![Some("1".to_string()), Some("2".to_string()), None]);
    assert_eq!(g.rows[1].date, "d2");
    assert_eq!(g.rows[1].cells, vec![None, None, None]);
}

#[test]
fn parsed_log_into_grid() {
    let recs = parse_log("日期: 2024-01-01\n9:00 5.0\n日期: 2024-01-02\n9:15 7\n9:00 1");
    let cols = template_columns(&cells(&[Some("日期"), Some("【09:00】"), Some("9:15")]));
    let g = build_grid(&recs, &cols);
    assert_eq!(g.rows.len(), 2);
    assert_eq!(g.rows[0].cells, vec![Some("5.0".to_string()), None]);
    assert_eq!(g.rows[1].cells, vec![Some("1".to_string()), Some("7".to_string())]);
}
