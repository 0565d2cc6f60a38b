use log_analyzer::analysis_store::{find_sorted_index, InMemmoryAnalysisStore};
use log_analyzer::color::parse_color;
use log_analyzer::log_line::LogLine;
use log_analyzer::log_store::InMemmoryLogStore;
use log_analyzer::processing_store::InMemmoryProcessingStore;
use log_analyzer::filter::FilterAction;
use log_analyzer::regex_cache::RegexCache;
use log_analyzer::styled::LogLineStyled;
use log_analyzer::text::{decimal_string, parse_number, same_text};

fn line_with_index(index: usize) -> LogLine {
    let mut l = LogLine::default();
    l.index = index.to_string();
    l
}

#[test]
fn no_regex() {
    let r_cache = RegexCache::new();
    let r = r_cache.get(&".*".to_string());
    assert!(r.is_none());
}

#[test]
fn put_regex() {
    let mut r_cache = RegexCache::new();
    r_cache.put(&".*".to_string());
    let r = r_cache.get(&".*".to_string());
    assert!(r.is_some());
}

#[test]
fn regex_cache_refuses_invalid_pattern() {
    let mut r_cache = RegexCache::new();
    assert!(r_cache.put(&"(".to_string()).is_none());
    assert!(r_cache.get(&"(".to_string()).is_none());
    let p = r_cache.put(&"a+".to_string()).unwrap();
    assert_eq!(p.as_str(), "a+");
    assert!(p.is_match("caat"));
}

#[test]
fn log_lines_window_is_clamped() {
    let mut store = InMemmoryAnalysisStore::new();
    let lines: Vec<LogLine> = (0..5).map(line_with_index).collect();
    store.add_lines(&lines);
    assert_eq!(store.get_log_lines(0, 100).len(), 5);
    assert_eq!(store.get_log_lines(3, 100), lines[3..5].to_vec());
    assert!(store.get_log_lines(7, 9).is_empty());
    assert!(store.get_log_lines(4, 2).is_empty());
    assert_eq!(store.get_log_lines(1, 3), lines[1..3].to_vec());
    assert!(store.get_search_lines(0, 10).is_empty());
    assert_eq!(store.get_total_filtered_lines(), 5);
}

#[test]
fn analysis_store_resets_and_query() {
    let mut store = InMemmoryAnalysisStore::new();
    store.add_lines(&[line_with_index(0)]);
    store.add_search_lines(&[line_with_index(0)]);
    assert_eq!(store.get_search_query(), None);
    store.add_search_query(&"q".to_string());
    assert_eq!(store.get_search_query(), Some("q".to_string()));
    store.reset_search();
    assert_eq!(store.get_total_searched_lines(), 0);
    assert_eq!(store.get_total_filtered_lines(), 1);
    store.reset_log();
    assert_eq!(store.get_total_filtered_lines(), 0);
}

#[test]
fn binary_search_finds_position_or_insertion_point() {
    let lines: Vec<LogLine> = [0usize, 2, 4, 6, 8].iter().map(|i| line_with_index(*i)).collect();
    assert_eq!(find_sorted_index(&lines, &line_with_index(4)), 2);
    assert_eq!(find_sorted_index(&lines, &line_with_index(5)), 3);
    assert_eq!(find_sorted_index(&lines, &line_with_index(100)), 5);
    assert_eq!(find_sorted_index(&lines, &line_with_index(0)), 0);
}

#[test]
fn window_centred_on_target() {
    let mut store = InMemmoryAnalysisStore::new();
    let lines: Vec<LogLine> = (0..100).map(line_with_index).collect();
    store.add_lines(&lines);
    let (window, start, pos) = store.get_log_lines_containing(&line_with_index(50), 10);
    assert_eq!(start, 45);
    assert_eq!(window, lines[45..55].to_vec());
    assert_eq!(pos, 5);
    let (window, start, pos) = store.get_log_lines_containing(&line_with_index(2), 10);
    assert_eq!(start, 0);
    assert_eq!(window, lines[0..7].to_vec());
    assert_eq!(pos, 2);
    let (window, start, pos) = store.get_log_lines_containing(&line_with_index(98), 10);
    assert_eq!(start, 93);
    assert_eq!(window, lines[93..100].to_vec());
    assert_eq!(pos, 5);
}

#[test]
fn raw_store_ranges_are_contiguous() {
    let mut store: InMemmoryLogStore<()> = InMemmoryLogStore::new();
    let a = store.add_lines("s", &["1".to_string(), "2".to_string()]);
    assert_eq!(a, 0..2);
    let b = store.add_lines("s", &["3".to_string()]);
    assert_eq!(b, 2..3);
    store.add_line("t", "x");
    assert_eq!(store.get_total_lines(), 4);
    assert_eq!(store.get_lines("s"), vec!["1".to_string(), "2".to_string(), "3".to_string()]);
    let taken = store.extract_lines("s");
    assert_eq!(taken.len(), 3);
    assert!(store.get_lines("s").is_empty());
    assert_eq!(store.add_lines("s", &["4".to_string()]), 0..1);
    assert!(store.extract_lines("missing").is_empty());
    assert!(store.get_logs().is_empty());
}

#[test]
fn raw_store_registration() {
    let mut store: InMemmoryLogStore<u32> = InMemmoryLogStore::new();
    store.add_log("a", 7, Some(&"fmt".to_string()), true);
    store.add_log("b", 8, None, false);
    assert_eq!(
        store.get_logs(),
        vec![(true, "a".to_string(), Some("fmt".to_string())), (false, "b".to_string(), None)]
    );
    assert_eq!(store.get_format("a"), Some("fmt".to_string()));
    assert_eq!(store.get_source("b"), Some(&8));
    assert_eq!(store.get_source("c"), None);
    store.toggle_log("a");
    store.toggle_log("b");
    assert_eq!(store.get_logs()[0].0, false);
    assert_eq!(store.get_logs()[1].0, true);
    store.add_log("a", 9, None, true);
    assert_eq!(store.get_format("a"), Some("fmt".to_string()));
    assert_eq!(store.get_source("a"), Some(&9));
}

#[test]
fn processing_store_formats_and_filters() {
    let mut store = InMemmoryProcessingStore::new();
    store.add_format("f".to_string(), "a".to_string());
    store.add_format("f".to_string(), "b".to_string());
    assert_eq!(store.get_format("f"), Some("b".to_string()));
    assert_eq!(store.get_format("g"), None);
    assert_eq!(store.get_formats().len(), 1);
    store.add_filter("x".to_string(), LogLine::default(), FilterAction::EXCLUDE, false);
    store.toggle_filter("x");
    let filters = store.get_filters();
    assert_eq!(filters.len(), 1);
    assert_eq!(filters[0].0, true);
    assert_eq!(filters[0].1.alias, "x");
    assert_eq!(filters[0].1.action, FilterAction::EXCLUDE);
    store.toggle_filter("nope");
    assert_eq!(store.get_filters()[0].0, true);
}

#[test]
fn record_fields_by_name() {
    let mut l = LogLine::default();
    l.severity = "WARN".to_string();
    assert_eq!(l.get("Severity"), Some(&"WARN".to_string()));
    assert_eq!(l.get("severity"), None);
    assert_eq!(LogLine::columns().len(), 8);
    assert_eq!(LogLine::columns()[0], "Log");
    assert_eq!(LogLine::columns()[7], "Payload");
    let values = l.values();
    assert_eq!(values.len(), 7);
    assert_eq!(values[4].0, "Severity");
    assert_eq!(values[4].1, "WARN");
}

#[test]
fn styled_record_fields_and_unformat() {
    let mut s = LogLineStyled {
        log: vec![(None, "a".to_string())],
        index: vec![(None, "1".to_string())],
        date: vec![],
        timestamp: vec![],
        app: vec![],
        severity: vec![],
        function: vec![],
        payload: vec![(None, "x ".to_string()), (Some("G".to_string()), "y".to_string())],
        color: Some((1, 1, 1)),
    };
    assert_eq!(LogLineStyled::columns().len(), 8);
    assert_eq!(s.get("Payload").unwrap().len(), 2);
    assert!(s.get("Other").is_none());
    assert_eq!(s.values().len(), 7);
    let plain = s.unformat();
    assert_eq!(plain.payload, "x y");
    assert_eq!(plain.index, "1");
    assert_eq!(plain.color, Some((1, 1, 1)));
    s.payload.clear();
    assert_eq!(s.unformat().payload, "");
}

#[test]
fn colour_parsing() {
    assert_eq!(parse_color("10", "20", "30"), Some((10, 20, 30)));
    assert_eq!(parse_color("10", "", "x"), Some((10, 0, 0)));
    assert_eq!(parse_color("", "", ""), None);
    assert_eq!(parse_color("256", "a", ""), None);
    assert_eq!(parse_color("+7", "", ""), Some((7, 0, 0)));
}

#[test]
fn decimal_text_helpers() {
    assert_eq!(decimal_string(0), "0");
    assert_eq!(decimal_string(1234567), "1234567");
    assert_eq!(decimal_string(usize::MAX), usize::MAX.to_string());
    assert_eq!(parse_number("42", usize::MAX), Some(42));
    assert_eq!(parse_number("", usize::MAX), None);
    assert_eq!(parse_number("4a", usize::MAX), None);
    assert_eq!(parse_number("300", 255), None);
    assert_eq!(parse_number("18446744073709551616", usize::MAX), None);
    assert!(same_text("abc", "abc"));
    assert!(!same_text("abc", "abd"));
}

#[test]
fn records_order_by_numeric_index() {
    let nine = line_with_index(9);
    let ten = line_with_index(10);
    assert!(nine < ten);
    assert_eq!(ten.partial_cmp(&nine), Some(std::cmp::Ordering::Greater));
    assert_eq!(nine.partial_cmp(&line_with_index(9)), Some(std::cmp::Ordering::Equal));
    let mut bad = LogLine::default();
    bad.index = "x".to_string();
    assert_eq!(bad.partial_cmp(&nine), None);
}
