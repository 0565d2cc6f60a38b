use log_analyzer::filter::{Filter, FilterAction};
use log_analyzer::log_line::LogLine;
use log_analyzer::pipeline::{chunk_size, Event};
use log_analyzer::service::{LogService, SourceType};

fn lines(v: &[&str]) -> Vec<String> {
    v.iter().map(|s| s.to_string()).collect()
}

fn filter(alias: &str, action: FilterAction, severity: &str, payload: &str, color: Option<(u8, u8, u8)>) -> Filter {
    let mut l = LogLine::default();
    l.severity = severity.to_string();
    l.payload = payload.to_string();
    l.color = color;
    Filter { alias: alias.to_string(), action, filter: l }
}

fn service_with_format() -> LogService<()> {
    let mut svc: LogService<()> = LogService::new();
    svc.add_format(&"fmt".to_string(), &"^(?P<DATE>\\d{4}-\\d\\d-\\d\\d) (?P<SEVERITY>\\w+) (?P<PAYLOAD>.*)$".to_string())
        .unwrap();
    svc.add_log("a.log", (), Some(&"fmt".to_string()));
    svc
}

#[test]
fn scenario_file_source_with_format() {
    let mut svc = service_with_format();
    svc.ingest("a.log", lines(&["2024-01-02 INFO hello"]));
    let got = svc.get_log_lines(0, 10);
    assert_eq!(got.len(), 1);
    let r = &got[0];
    assert_eq!(r.log, "a.log");
    assert_eq!(r.index, "0");
    assert_eq!(r.date, "2024-01-02");
    assert_eq!(r.severity, "INFO");
    assert_eq!(r.payload, "hello");
    assert_eq!(r.timestamp, "");
    assert_eq!(r.app, "");
    assert_eq!(r.function, "");
    assert_eq!(r.color, None);
}

fn service_with_severity_format() -> LogService<()> {
    let mut svc: LogService<()> = LogService::new();
    svc.add_format(&"sev".to_string(), &"^(?P<SEVERITY>\\w+) (?P<PAYLOAD>.*)$".to_string()).unwrap();
    svc.add_log("s", (), Some(&"sev".to_string()));
    svc
}

#[test]
fn scenario_include_filter() {
    let mut svc = service_with_severity_format();
    svc.add_filter(filter("errors", FilterAction::INCLUDE, "ERROR", "", None));
    svc.toggle_filter("errors");
    svc.ingest("s", lines(&["INFO a", "ERROR b", "WARN c"]));
    let got = svc.get_log_lines(0, 10);
    assert_eq!(got.len(), 1);
    assert_eq!(got[0].severity, "ERROR");
    assert_eq!(got[0].payload, "b");
    assert_eq!(got[0].index, "1");
}

#[test]
fn scenario_marker_colour() {
    let mut svc = service_with_severity_format();
    svc.add_filter(filter("errors", FilterAction::INCLUDE, "ERROR", "", None));
    svc.toggle_filter("errors");
    svc.add_filter(filter("mark", FilterAction::MARKER, "", "b", Some((10, 20, 30))));
    svc.toggle_filter("mark");
    svc.ingest("s", lines(&["ERROR b"]));
    let got = svc.get_log_lines(0, 10);
    assert_eq!(got.len(), 1);
    assert_eq!(got[0].color, Some((10, 20, 30)));
}

#[test]
fn scenario_two_sources_totals() {
    let mut svc: LogService<()> = LogService::new();
    svc.add_log("one", (), None);
    svc.add_log("two", (), None);
    let batch: Vec<String> = (0..1000).map(|i| format!("line {}", i)).collect();
    svc.ingest("one", batch.clone());
    svc.ingest("two", batch);
    assert_eq!(svc.get_total_raw_lines(), 2000);
    assert_eq!(svc.get_total_filtered_lines(), 2000);
    let all = svc.get_log_lines(0, 2000);
    for r in &all[0..1000] {
        assert_eq!(r.log, "one");
    }
    for r in &all[1000..2000] {
        assert_eq!(r.log, "two");
    }
}

#[test]
fn scenario_search_spans() {
    let mut svc: LogService<()> = LogService::new();
    svc.add_log("s", (), None);
    svc.ingest("s", lines(&["an error occurred", "all good"]));
    let events = svc.add_search(&"(?P<H>error)".to_string());
    assert_eq!(events, vec![Event::Searching, Event::SearchFinished]);
    assert_eq!(svc.get_total_searched_lines(), 1);
    let styled = log_analyzer::search::format_search(
        &log_analyzer::pattern::Pattern::new("(?P<H>error)").unwrap(),
        &svc.get_search_lines(0, 1)[0],
    );
    assert_eq!(
        styled.payload,
        vec![
            (None, "an ".to_string()),
            (Some("H".to_string()), "error".to_string()),
            (None, " occurred".to_string()),
        ]
    );
}

#[test]
fn scenario_toggle_exclude_filter() {
    let mut svc: LogService<()> = LogService::new();
    svc.add_format(&"sev".to_string(), &"^(?P<SEVERITY>\\w+) (?P<PAYLOAD>.*)$".to_string()).unwrap();
    svc.add_log("a", (), Some(&"sev".to_string()));
    svc.add_log("b", (), Some(&"sev".to_string()));
    svc.ingest("a", lines(&["INFO 1", "DEBUG 2", "INFO 3"]));
    svc.ingest("b", lines(&["DEBUG 4", "INFO 5"]));
    svc.add_filter(filter("nodebug", FilterAction::EXCLUDE, "DEBUG", "", None));
    let events = svc.toggle_filter("nodebug");
    assert_eq!(
        events,
        vec![
            Event::Filtering,
            Event::Processing(0, 2),
            Event::NewLines(0, 2),
            Event::NewSearchLines(0, 2),
            Event::FilterFinished,
            Event::Filtering,
            Event::Processing(0, 1),
            Event::NewLines(0, 1),
            Event::NewSearchLines(0, 1),
            Event::FilterFinished,
        ]
    );
    assert_eq!(svc.get_total_filtered_lines(), 3);
    let got = svc.get_log_lines(0, 10);
    let view: Vec<(String, String, String)> =
        got.iter().map(|r| (r.log.clone(), r.index.clone(), r.payload.clone())).collect();
    assert_eq!(
        view,
        vec![
            ("a".to_string(), "0".to_string(), "1".to_string()),
            ("a".to_string(), "2".to_string(), "3".to_string()),
            ("b".to_string(), "1".to_string(), "5".to_string()),
        ]
    );
    assert_eq!(svc.get_total_raw_lines(), 5);
}

#[test]
fn toggle_skips_disabled_sources_and_reports_empty_ones() {
    let mut svc: LogService<()> = LogService::new();
    svc.add_log("a", (), None);
    svc.add_log("b", (), None);
    svc.add_log("c", (), None);
    svc.ingest("a", lines(&["x"]));
    svc.ingest("c", lines(&["y"]));
    svc.toggle_source("c");
    svc.add_filter(filter("f", FilterAction::MARKER, "", "x", Some((1, 2, 3))));
    let events = svc.toggle_filter("f");
    assert_eq!(
        events,
        vec![
            Event::Filtering,
            Event::Processing(0, 0),
            Event::NewLines(0, 0),
            Event::NewSearchLines(0, 0),
            Event::FilterFinished,
            Event::FilterFinished,
        ]
    );
    let got = svc.get_log_lines(0, 10);
    assert_eq!(got.len(), 1);
    assert_eq!(got[0].color, Some((1, 2, 3)));
}

#[test]
fn batch_indices_continue_from_previous_length() {
    let mut svc: LogService<()> = LogService::new();
    svc.add_log("s", (), None);
    let first = svc.ingest("s", lines(&["a", "b"]));
    assert_eq!(first, vec![Event::Processing(0, 1), Event::NewLines(0, 1), Event::NewSearchLines(0, 1)]);
    let second = svc.ingest("s", lines(&["c", "d", "e"]));
    assert_eq!(second, vec![Event::Processing(2, 4), Event::NewLines(2, 4), Event::NewSearchLines(2, 4)]);
    assert!(svc.ingest("s", vec![]).is_empty());
    let idx: Vec<String> = svc.get_log_lines(0, 10).iter().map(|r| r.index.clone()).collect();
    assert_eq!(idx, vec!["0", "1", "2", "3", "4"]);
    for r in svc.get_log_lines(0, 10) {
        assert_eq!(r.log, "s");
    }
}

#[test]
fn no_filters_no_search_keeps_everything() {
    let mut svc: LogService<()> = LogService::new();
    svc.add_log("s", (), None);
    svc.ingest("s", lines(&["a", "b", "c"]));
    assert_eq!(svc.get_total_filtered_lines(), 3);
    assert_eq!(svc.get_total_searched_lines(), 0);
    assert_eq!(svc.get_log_lines(0, 10)[2].payload, "c");
}

#[test]
fn search_log_follows_new_lines_and_stays_in_filtered_log() {
    let mut svc: LogService<()> = LogService::new();
    svc.add_log("s", (), None);
    assert!(svc.add_search(&"b".to_string()).is_empty());
    svc.ingest("s", lines(&["a", "b1", "c", "b2"]));
    assert_eq!(svc.get_total_searched_lines(), 2);
    let filtered = svc.get_log_lines(0, 10);
    let searched = svc.get_search_lines(0, 10);
    let mut pos = 0;
    for s in &searched {
        while filtered[pos] != *s {
            pos += 1;
        }
        pos += 1;
    }
    assert_eq!(searched[1].payload, "b2");
    assert!(svc.add_search(&"(".to_string()).is_empty());
    assert_eq!(svc.get_total_searched_lines(), 2);
    svc.add_search(&"c".to_string());
    assert_eq!(svc.get_total_searched_lines(), 1);
    let (window, start, pos) = svc.get_search_lines_containing(&svc.get_search_lines(0, 1)[0], 4);
    assert_eq!((window.len(), start, pos), (1, 0, 0));
}

#[test]
fn windows_through_the_service() {
    let mut svc: LogService<()> = LogService::new();
    svc.add_log("s", (), None);
    let batch: Vec<String> = (0..20).map(|i| format!("{}", i)).collect();
    svc.ingest("s", batch);
    let target = svc.get_log_lines(10, 11)[0].clone();
    let (window, start, pos) = svc.get_log_lines_containing(&target, 6);
    assert_eq!(start, 7);
    assert_eq!(window.len(), 6);
    assert_eq!(window[pos], target);
}

#[test]
fn formats_filters_and_sources_are_listed() {
    let mut svc: LogService<u8> = LogService::new();
    assert!(svc.add_format(&"".to_string(), &"x".to_string()).is_err());
    assert!(svc.add_format(&"bad".to_string(), &"(".to_string()).is_err());
    svc.add_format(&"ok".to_string(), &".*".to_string()).unwrap();
    assert_eq!(svc.get_formats().len(), 1);
    svc.add_filter(filter("f", FilterAction::INCLUDE, "E", "", None));
    assert_eq!(svc.get_filters().len(), 1);
    assert_eq!(svc.get_filters()[0].0, false);
    svc.add_log("x", 3, Some(&"ok".to_string()));
    assert_eq!(svc.get_logs(), vec![(true, "x".to_string(), Some("ok".to_string()))]);
    assert_eq!(svc.get_source("x"), Some(&3));
    svc.toggle_source("x");
    assert_eq!(svc.get_logs()[0].0, false);
}

#[test]
fn source_type_codes_and_chunks() {
    assert_eq!(SourceType::try_from(0), Ok(SourceType::FILE));
    assert_eq!(SourceType::try_from(1), Ok(SourceType::WS));
    assert!(SourceType::try_from(2).is_err());
    assert_eq!(SourceType::FILE.code(), 0);
    assert_eq!(SourceType::WS.code(), 1);
    assert_eq!(chunk_size(100, 4), 25);
    assert_eq!(chunk_size(10, 4), 4);
}

#[test]
fn chunked_ingest_matches_single_chunk() {
    let batch: Vec<String> = (0..23).map(|i| format!("{} {}", if i % 3 == 0 { "ERROR" } else { "INFO" }, i)).collect();
    let mut results = Vec::new();
    for workers in [1usize, 2, 3, 8] {
        let mut svc: LogService<()> = LogService::with_workers(workers);
        svc.add_format(&"sev".to_string(), &"^(?P<SEVERITY>\\w+) (?P<PAYLOAD>.*)$".to_string()).unwrap();
        svc.add_log("s", (), Some(&"sev".to_string()));
        svc.add_filter(filter("errors", FilterAction::INCLUDE, "ERROR", "", None));
        svc.toggle_filter("errors");
        svc.add_search(&"1".to_string());
        let events = svc.ingest("s", batch.clone());
        assert_eq!(events, vec![Event::Processing(0, 22), Event::NewLines(0, 22), Event::NewSearchLines(0, 22)]);
        results.push((svc.get_log_lines(0, 100), svc.get_search_lines(0, 100)));
    }
    assert_eq!(results[0].0.len(), 8);
    let searched: Vec<String> = results[0].1.iter().map(|r| r.payload.clone()).collect();
    assert_eq!(searched, vec!["12", "15", "18", "21"]);
    for r in &results[1..] {
        assert_eq!(r, &results[0]);
    }
}

#[test]
fn styled_search_results() {
    let mut svc: LogService<()> = LogService::new();
    svc.add_log("s", (), None);
    svc.ingest("s", lines(&["an error occurred"]));
    svc.add_search(&"(?P<H>error)".to_string());
    let styled = svc.get_search_lines_styled(0, 5);
    assert_eq!(styled.len(), 1);
    assert_eq!(styled[0].payload[1], (Some("H".to_string()), "error".to_string()));
    assert_eq!(styled[0].log, vec![(None, "s".to_string())]);
}
