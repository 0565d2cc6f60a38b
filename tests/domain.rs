use log_analyzer::filter::{apply_filters, filter_line, Filter, FilterAction, LogFilter};
use log_analyzer::format::{apply_format, Format, FormatError};
use log_analyzer::log_line::LogLine;
use log_analyzer::pattern::Pattern;
use log_analyzer::search::{apply_search, format_search};

fn sample_line() -> LogLine {
    LogLine {
        log: "".to_string(),
        index: "0".to_string(),
        date: "2022-01-02".to_string(),
        timestamp: "200.05".to_string(),
        app: "python".to_string(),
        severity: "INFO".to_string(),
        function: "call".to_string(),
        payload: "some useful information".to_string(),
        color: None,
    }
}

#[test]
fn match_found_on_every_individual_field() {
    let run_test = |filter: LogFilter, mut line: LogLine| {
        let is_match = filter_line(&filter, &mut line);

        assert_eq!(is_match, true);
        assert_eq!(filter.color, line.color);
    };

    let line = sample_line();

    let mut filter = LogFilter::from(Filter {
        filter: LogLine {
            log: "".to_string(),
            index: "0".to_string(),
            date: "2022-01-".to_string(),
            timestamp: "".to_string(),
            app: "".to_string(),
            severity: "".to_string(),
            function: "".to_string(),
            payload: "".to_string(),
            color: Some((255, 0, 0)),
        },
        ..Default::default()
    });
    run_test(filter, line.clone());

    filter = LogFilter::from(Filter {
        filter: LogLine {
            log: "".to_string(),
            index: "0".to_string(),
            date: "".to_string(),
            timestamp: "200".to_string(),
            app: "".to_string(),
            severity: "".to_string(),
            function: "".to_string(),
            payload: "".to_string(),
            color: Some((254, 0, 0)),
        },
        ..Default::default()
    });
    run_test(filter, line.clone());

    filter = LogFilter::from(Filter {
        filter: LogLine {
            log: "".to_string(),
            index: "0".to_string(),
            date: "".to_string(),
            timestamp: "".to_string(),
            app: "python".to_string(),
            severity: "".to_string(),
            function: "".to_string(),
            payload: "".to_string(),
            color: Some((253, 0, 0)),
        },
        ..Default::default()
    });
    run_test(filter, line.clone());

    filter = LogFilter::from(Filter {
        filter: LogLine {
            log: "".to_string(),
            index: "0".to_string(),
            date: "".to_string(),
            timestamp: "".to_string(),
            app: "".to_string(),
            severity: "INFO".to_string(),
            function: "".to_string(),
            payload: "".to_string(),
            color: Some((252, 0, 0)),
        },
        ..Default::default()
    });
    run_test(filter, line.clone());

    filter = LogFilter::from(Filter {
        filter: LogLine {
            log: "".to_string(),
            index: "0".to_string(),
            date: "".to_string(),
            timestamp: "".to_string(),
            app: "".to_string(),
            severity: "".to_string(),
            function: "call".to_string(),
            payload: "".to_string(),
            color: Some((251, 0, 0)),
        },
        ..Default::default()
    });
    run_test(filter, line.clone());

    filter = LogFilter::from(Filter {
        filter: LogLine {
            log: "".to_string(),
            index: "0".to_string(),
            date: "".to_string(),
            timestamp: "".to_string(),
            app: "".to_string(),
            severity: "".to_string(),
            function: "".to_string(),
            payload: "some use".to_string(),
            color: Some((250, 0, 0)),
        },
        ..Default::default()
    });
    run_test(filter, line.clone());
}

#[test]
fn dont_match_on_multiple_conditions_unsatisfied() {
    let mut line = sample_line();
    let filter = LogFilter::from(Filter {
        filter: LogLine {
            log: "".to_string(),
            index: "0".to_string(),
            date: "2022-01-".to_string(),
            timestamp: "100".to_string(),
            app: "".to_string(),
            severity: "".to_string(),
            function: "".to_string(),
            payload: "".to_string(),
            color: Some((255, 0, 0)),
        },
        ..Default::default()
    });

    let is_match = filter_line(&filter, &mut line);
    assert_eq!(is_match, false);
    assert_ne!(filter.color, line.color);
}

#[test]
fn assign_content_to_payload_if_no_format() {
    let line = "Test";
    let log_line = apply_format(&None, "", line, 0);
    assert_eq!(line, log_line.payload)
}

#[test]
fn assign_content_to_payload_if_no_matches() {
    let line = "Test";
    let re = Pattern::new("\\d").unwrap();
    let log_line = apply_format(&Some(&re), "", line, 0);
    assert_eq!(line, log_line.payload)
}

#[test]
fn test_format() {
    let line = "2022-05-27 [1234] test INFO assign_content_to_payload_if_no_matches testing if formatting works";
    let re = Pattern::new("(?P<DATE>[\\d]{4}-[\\d]{2}-[\\d]{2}) \\[(?P<TIMESTAMP>[\\d]{4})\\] (?P<APP>[\\w]*) (?P<SEVERITY>[\\w]*) (?P<FUNCTION>[\\w_]*) (?P<PAYLOAD>.*)").unwrap();
    let log_line = apply_format(&Some(&re), "", line, 0);
    assert_eq!("2022-05-27", log_line.date);
    assert_eq!("1234", log_line.timestamp);
    assert_eq!("test", log_line.app);
    assert_eq!("INFO", log_line.severity);
    assert_eq!("assign_content_to_payload_if_no_matches", log_line.function);
    assert_eq!("testing if formatting works", log_line.payload);
}

#[test]
fn correct_formatting() {
    let line = LogLine {
        log: "test.log".into(),
        index: "0".into(),
        date: "2022-06-02".into(),
        timestamp: "42".into(),
        app: "test".into(),
        severity: "INFO".into(),
        function: "test_format".into(),
        payload: "Highlighting search matches is going to be awesome, I tell you\\".into(),
        ..Default::default()
    };

    let regex = Pattern::new("(?P<BLACK>awesome)").unwrap();

    let formatted_line = format_search(&regex, &line);

    // Just to test its not crashing
    let _unformat = formatted_line.unformat();

    // We expect 3 groups since they are splitted by the formatted block "awesome"
    assert!(formatted_line.payload.len() == 3);
    // The second block "awesome" is formatted with the "BLACK" group
    assert!(formatted_line.payload[1].0 == Some("BLACK".to_string()));
    assert!(formatted_line.payload[1].1 == "awesome");
}

#[test]
fn format_sets_source_and_index_on_every_record() {
    let re = Pattern::new("^(?P<SEVERITY>\\w+) (?P<PAYLOAD>.*)$").unwrap();
    let matched = apply_format(&Some(&re), "a.log", "INFO hi", 12);
    assert_eq!(matched.log, "a.log");
    assert_eq!(matched.index, "12");
    assert_eq!(matched.severity, "INFO");
    assert_eq!(matched.payload, "hi");
    assert_eq!(matched.date, "");
    let unmatched = apply_format(&Some(&re), "a.log", "nospace", 3);
    assert_eq!(unmatched.log, "a.log");
    assert_eq!(unmatched.index, "3");
    assert_eq!(unmatched.payload, "nospace");
    assert_eq!(unmatched.severity, "");
}

#[test]
fn format_handles_multibyte_text() {
    let re = Pattern::new("^(?P<APP>\\S+) (?P<PAYLOAD>.*)$").unwrap();
    let r = apply_format(&Some(&re), "s", "héllo wörld ✓", 0);
    assert_eq!(r.app, "héllo");
    assert_eq!(r.payload, "wörld ✓");
}

#[test]
fn format_new_rejects_empty_and_invalid() {
    assert_eq!(Format::new(&"".to_string(), &"x".to_string()).unwrap_err(), FormatError::Empty);
    assert_eq!(Format::new(&"a".to_string(), &"".to_string()).unwrap_err(), FormatError::Empty);
    assert_eq!(Format::new(&"a".to_string(), &"(".to_string()).unwrap_err(), FormatError::InvalidPattern);
    let f = Format::new(&"All".to_string(), &"(?P<PAYLOAD>.*)".to_string()).unwrap();
    assert_eq!(f.alias, "All");
    assert_eq!(f.regex, "(?P<PAYLOAD>.*)");
    assert!(FormatError::Empty.message().contains("empty"));
    assert!(FormatError::InvalidPattern.message().contains("compile"));
}

fn filter_of(action: FilterAction, severity: &str, payload: &str, color: Option<(u8, u8, u8)>) -> LogFilter {
    let mut line = LogLine::default();
    line.severity = severity.to_string();
    line.payload = payload.to_string();
    line.color = color;
    LogFilter::from(Filter { alias: "f".to_string(), action, filter: line })
}

fn record(severity: &str, payload: &str) -> LogLine {
    let mut line = LogLine::default();
    line.index = "0".to_string();
    line.severity = severity.to_string();
    line.payload = payload.to_string();
    line
}

#[test]
fn include_keeps_only_matching_records() {
    let fs = vec![filter_of(FilterAction::INCLUDE, "ERROR", "", Some((1, 2, 3)))];
    assert!(apply_filters(&fs, record("INFO", "a")).is_none());
    let kept = apply_filters(&fs, record("ERROR", "b")).unwrap();
    assert_eq!(kept.color, Some((1, 2, 3)));
    assert_eq!(kept.payload, "b");
}

#[test]
fn include_wins_over_exclude_and_last_marker_colours() {
    let fs = vec![
        filter_of(FilterAction::EXCLUDE, "ERROR", "", None),
        filter_of(FilterAction::MARKER, "", "b", Some((10, 20, 30))),
        filter_of(FilterAction::INCLUDE, "ERROR", "", Some((1, 1, 1))),
        filter_of(FilterAction::MARKER, "", "^b", Some((40, 50, 60))),
    ];
    let kept = apply_filters(&fs, record("ERROR", "b")).unwrap();
    assert_eq!(kept.color, Some((40, 50, 60)));
    let plain = apply_filters(&fs, record("ERROR", "c")).unwrap();
    assert_eq!(plain.color, Some((1, 1, 1)));
    assert!(apply_filters(&fs, record("WARN", "b")).is_none());
}

#[test]
fn exclude_drops_and_markers_colour_without_include() {
    let fs = vec![
        filter_of(FilterAction::EXCLUDE, "DEBUG", "", None),
        filter_of(FilterAction::MARKER, "", "x", Some((9, 9, 9))),
    ];
    assert!(apply_filters(&fs, record("DEBUG", "x")).is_none());
    assert_eq!(apply_filters(&fs, record("INFO", "x")).unwrap().color, Some((9, 9, 9)));
    assert_eq!(apply_filters(&fs, record("INFO", "y")).unwrap().color, None);
}

#[test]
fn marker_without_colour_keeps_colour() {
    let fs = vec![filter_of(FilterAction::MARKER, "", "x", None)];
    let mut r = record("INFO", "x");
    r.color = Some((5, 5, 5));
    assert_eq!(apply_filters(&fs, r).unwrap().color, Some((5, 5, 5)));
}

#[test]
fn empty_filters_never_match() {
    let empty_include = vec![filter_of(FilterAction::INCLUDE, "", "", Some((1, 1, 1)))];
    assert!(apply_filters(&empty_include, record("INFO", "a")).is_none());
    let empty_exclude = vec![filter_of(FilterAction::EXCLUDE, "", "", None)];
    assert_eq!(apply_filters(&empty_exclude, record("INFO", "a")).unwrap(), record("INFO", "a"));
    let empty_marker = vec![filter_of(FilterAction::MARKER, "", "", Some((1, 1, 1)))];
    assert_eq!(apply_filters(&empty_marker, record("INFO", "a")).unwrap(), record("INFO", "a"));
    let mut r = record("INFO", "a");
    assert!(!filter_line(&empty_marker[0], &mut r));
}

#[test]
fn invalid_field_pattern_is_dropped_but_filter_kept() {
    let f = filter_of(FilterAction::INCLUDE, "(", "a", None);
    assert_eq!(f.filters.len(), 1);
    assert!(apply_filters(&[f], record("anything", "a")).is_some());
}

#[test]
fn no_filters_keep_record_unchanged() {
    let r = record("INFO", "a");
    assert_eq!(apply_filters(&[], r.clone()).unwrap(), r);
}

#[test]
fn filter_action_from_selector() {
    assert_eq!(FilterAction::from(0), FilterAction::INCLUDE);
    assert_eq!(FilterAction::from(1), FilterAction::EXCLUDE);
    assert_eq!(FilterAction::from(7), FilterAction::MARKER);
    assert_eq!(FilterAction::default(), FilterAction::MARKER);
}

#[test]
fn search_matches_any_field() {
    let p = Pattern::new("python").unwrap();
    let line = sample_line();
    assert!(apply_search(&p, &line));
    let q = Pattern::new("^nowhere$").unwrap();
    assert!(!apply_search(&q, &line));
    let idx = Pattern::new("^0$").unwrap();
    assert!(apply_search(&idx, &line));
}

#[test]
fn search_spans_of_scenario() {
    let p = Pattern::new("(?P<H>error)").unwrap();
    let mut line = LogLine::default();
    line.payload = "an error occurred".to_string();
    let styled = format_search(&p, &line);
    assert_eq!(
        styled.payload,
        vec![
            (None, "an ".to_string()),
            (Some("H".to_string()), "error".to_string()),
            (None, " occurred".to_string()),
        ]
    );
    assert_eq!(styled.date, vec![(None, "".to_string())]);
}

#[test]
fn search_spans_keep_last_character_and_skip_empty_prefix() {
    let p = Pattern::new("(?P<A>ab)").unwrap();
    let mut line = LogLine::default();
    line.payload = "abc".to_string();
    let styled = format_search(&p, &line);
    assert_eq!(styled.payload, vec![(Some("A".to_string()), "ab".to_string()), (None, "c".to_string())]);
}

#[test]
fn search_spans_without_named_groups_are_whole_field() {
    let p = Pattern::new("err").unwrap();
    let mut line = LogLine::default();
    line.payload = "an error".to_string();
    let styled = format_search(&p, &line);
    assert_eq!(styled.payload, vec![(None, "an error".to_string())]);
}

#[test]
fn search_spans_nested_groups_round_trip() {
    let p = Pattern::new("(?P<O>a(?P<I>b))c").unwrap();
    let mut line = LogLine::default();
    line.payload = "xabcx".to_string();
    let styled = format_search(&p, &line);
    assert_eq!(styled.payload, vec![(None, "x".to_string()), (Some("O".to_string()), "ab".to_string()), (None, "cx".to_string())]);
    assert_eq!(styled.unformat(), line);
}

#[test]
fn unformat_of_annotation_is_identity() {
    let p = Pattern::new("(?P<W>\\w+)é(?P<Z>.)").unwrap();
    let mut line = sample_line();
    line.log = "ünï".to_string();
    line.payload = "caféx and more".to_string();
    line.color = Some((1, 2, 3));
    let styled = format_search(&p, &line);
    assert_eq!(styled.unformat(), line);
    assert_eq!(styled.color, Some((1, 2, 3)));
}
