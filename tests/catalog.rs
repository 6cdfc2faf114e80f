use tsnapshot::catalog::{BackupCatalog, CatalogError};
use tsnapshot::config::KeepLimit;

fn chars(s: &str) -> Vec<char> {
    s.chars().collect()
}

fn entries(c: &BackupCatalog) -> Vec<(String, i64)> {
    (0..c.len())
        .map(|i| (c.entry(i).path().iter().collect::<String>(), c.entry(i).timestamp()))
        .collect()
}

fn timestamps(c: &BackupCatalog) -> Vec<i64> {
    entries(c).into_iter().map(|e| e.1).collect()
}

fn five() -> BackupCatalog {
    BackupCatalog::new(&chars("/d/5 500\n/d/4 400\n/d/3 300\n/d/2 200\n/d/1 100\n")).unwrap()
}

#[test]
fn parse_reads_lines_in_order() {
    let c = BackupCatalog::new(&chars("a 12\nb\t34\n")).unwrap();
    assert_eq!(entries(&c), vec![("a".to_string(), 12), ("b".to_string(), 34)]);
}

#[test]
fn parse_keeps_extra_whitespace_in_the_path() {
    let c = BackupCatalog::new(&chars("my path  42")).unwrap();
    assert_eq!(entries(&c), vec![("my path ".to_string(), 42)]);
    let c = BackupCatalog::new(&chars("x\u{3000}7\n")).unwrap();
    assert_eq!(entries(&c), vec![("x".to_string(), 7)]);
}

#[test]
fn parse_accepts_crlf_line_ends() {
    let c = BackupCatalog::new(&chars("x 5\r\ny 6")).unwrap();
    assert_eq!(entries(&c), vec![("x".to_string(), 5), ("y".to_string(), 6)]);
}

#[test]
fn parse_rejects_malformed_lines() {
    for text in ["nodigits\n", " 5\n", "a5\n", "a 99999999999999999999\n", "a 1\n\nb 2\n", "a 1x\n"] {
        assert!(matches!(BackupCatalog::new(&chars(text)), Err(CatalogError::ParseError)), "{}", text);
    }
    assert_eq!(BackupCatalog::new(&chars("")).unwrap().len(), 0);
}

#[test]
fn text_is_one_line_per_entry() {
    let mut c = BackupCatalog::empty();
    c.push_at(&chars("/b"), -5);
    c.push_at(&chars("/a"), 12);
    assert_eq!(c.to_text().iter().collect::<String>(), "/a 12\n/b -5\n");
}

#[test]
fn parse_then_write_round_trips() {
    let text = "/snap/2024-01-02 1704153600\n/snap/2024-01-01 1704067200\n";
    let c = BackupCatalog::new(&chars(text)).unwrap();
    assert_eq!(c.to_text().iter().collect::<String>(), text);
    let spaced = BackupCatalog::new(&chars("/p\t10\n")).unwrap();
    assert_eq!(spaced.to_text().iter().collect::<String>(), "/p 10\n");
    let again = BackupCatalog::new(&c.to_text()).unwrap();
    assert_eq!(entries(&again), entries(&c));
}

#[test]
fn push_prepends_and_most_recent_is_first() {
    let mut c = BackupCatalog::empty();
    assert!(c.most_recent().is_none());
    c.push_at(&chars("/old"), 1);
    c.push_at(&chars("/new"), 2);
    assert_eq!(c.most_recent().unwrap().iter().collect::<String>(), "/new");
    assert_eq!(timestamps(&c), vec![2, 1]);
}

#[test]
fn push_stamps_with_the_clock() {
    let mut c = five();
    c.push(&chars("/now"));
    assert_eq!(c.len(), 6);
    assert_eq!(c.most_recent().unwrap().iter().collect::<String>(), "/now");
    assert!(c.entry(0).timestamp() > 1_600_000_000);
}

#[test]
fn retention_scenario_keeps_three() {
    let mut c = five();
    c.clean(vec![KeepLimit { count: 2, timespan: 100 }]);
    assert_eq!(timestamps(&c), vec![500, 400, 300]);
}

#[test]
fn retention_drops_entries_inside_the_window() {
    let mut c = five();
    c.clean(vec![KeepLimit { count: 1, timespan: 150 }]);
    assert_eq!(timestamps(&c), vec![500, 300]);
    let mut c = five();
    c.clean(vec![KeepLimit { count: 1, timespan: 50 }, KeepLimit { count: 5, timespan: 200 }]);
    assert_eq!(timestamps(&c), vec![500, 400, 200]);
}

#[test]
fn retention_stops_when_entries_run_out() {
    let mut c = five();
    c.clean(vec![KeepLimit { count: 10, timespan: 1000 }]);
    assert_eq!(timestamps(&c), vec![500]);
    let mut c = five();
    c.clean(vec![KeepLimit { count: 10, timespan: 0 }]);
    assert_eq!(timestamps(&c), vec![500, 400, 300, 200, 100]);
}

#[test]
fn retention_keeps_most_recent_iff_nonempty() {
    let mut c = five();
    c.clean(vec![]);
    assert_eq!(timestamps(&c), vec![500]);
    let mut c = five();
    c.clean(vec![KeepLimit { count: 0, timespan: 10 }]);
    assert_eq!(timestamps(&c), vec![500]);
    let mut e = BackupCatalog::empty();
    e.clean(vec![KeepLimit { count: 3, timespan: 10 }]);
    assert_eq!(e.len(), 0);
}
