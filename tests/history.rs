use promviz::config::{Cli, ConfigError, LogLevel};
use promviz::endpoint::{decimal_text, endpoint_with_port};
use promviz::labels::{decode_labels_with_rgx, extract_labels_with_rgx, labels_from_pairs};
use promviz::model::{Metric, MetricHistory, MetricType, Sample};
use promviz::navigation::{toggled_focus, update_list_state_with_direction, Direction, ElementInFocus};
use promviz::numbers::{is_float_token, parse_count};
use promviz::parser::{decode_single_scrape_metric, split_metric_lines};
use promviz::scraper::{split_payload, Phase, ScrapeAction, ScrapeEvent, ScrapeState};
use std::time::{SystemTime, UNIX_EPOCH};

fn now() -> u64 {
    SystemTime::now()
        .duration_since(UNIX_EPOCH)
        .unwrap()
        .as_secs()
}

fn block(lines: &[&str]) -> Vec<String> {
    lines.iter().map(|l| l.to_string()).collect()
}

fn payload_lines() -> Vec<String> {
    block(&[
        "# HELP metric_1 Description of the metric",
        "# TYPE metric_1 gauge",
        "metric_1{shard=\"0\"} 10.000007",
        "metric_1{shard=\"1\"} 3",
        "# HELP requests Requests",
        "# TYPE requests counter",
        "requests 10",
        "# HELP latency Latency",
        "# TYPE latency histogram",
        "latency_bucket{le=\"1\"} 2",
        "latency_bucket{le=\"+Inf\"} 3",
        "latency_sum 2.5",
        "latency_count 3",
    ])
}

#[test]
fn test_convert_single_scrape_metric_into_metric_and_update_metric() {
    // simulate first scrape
    let lines = split_metric_lines(payload_lines());
    let mut metrics: Vec<Metric> = Vec::new();
    for part in lines {
        let single_scrape_metric = decode_single_scrape_metric(part, now()).unwrap();
        let name_to_test = single_scrape_metric.name.clone();
        let labels_to_test = match single_scrape_metric.value_per_labels.first() {
            Some(entry) => entry.0.clone(),
            None => String::new(),
        };
        let metric = single_scrape_metric.into_metric();
        assert_eq!(metric.details.name, name_to_test);
        assert_eq!(metric.series(&labels_to_test).is_some(), true);
        metrics.push(metric);
    }
    // simulate second scrape
    let lines = split_metric_lines(payload_lines());
    for part in lines {
        let single_scrape_metric = decode_single_scrape_metric(part, now()).unwrap();
        // update existing metrics
        let metric_to_update_option = metrics
            .iter_mut()
            .find(|m| m.details.name == single_scrape_metric.name);
        match metric_to_update_option {
            Some(metric_to_update) => {
                metric_to_update.update_time_series(single_scrape_metric.value_per_labels);
                metric_to_update.time_series.iter().for_each(|(_, time_series)| {
                    assert_eq!(time_series.samples.len(), 2);
                });
            }
            None => {
                panic!("no additional metric should be added");
            }
        }
    }
}

fn gauge_value(sample: &Sample) -> f64 {
    match sample {
        Sample::GaugeSample(s) => s.value.parse::<f64>().unwrap(),
        _ => panic!("expected a gauge sample"),
    }
}

#[test]
fn two_scrapes_same_metric() {
    let mut history = MetricHistory::new();
    let first = block(&["# HELP m Desc", "# TYPE m gauge", "m{shard=\"0\"} 10.5"]);
    let second = block(&["# HELP m Desc", "# TYPE m gauge", "m{shard=\"0\"} 11.0"]);
    history.merge(decode_single_scrape_metric(first, 100).unwrap());
    history.merge(decode_single_scrape_metric(second, 110).unwrap());
    let metric = history.get_metric("m").unwrap();
    assert_eq!(metric.details.metric_type, MetricType::Gauge);
    let series = metric.series("shard=\"0\"").unwrap();
    assert_eq!(series.samples.len(), 2);
    assert_eq!(gauge_value(&series.samples[0]), 10.5);
    assert_eq!(gauge_value(&series.samples[1]), 11.0);
    assert_eq!(series.labels.get("shard").unwrap(), "0");
}

#[test]
fn merging_twice_gives_two_samples_per_series() {
    let mut history = MetricHistory::new();
    for t in [1, 2] {
        let block = block(&["# TYPE c counter", "c{a=\"1\"} 1", "c{a=\"2\"} 2"]);
        history.merge(decode_single_scrape_metric(block, t).unwrap());
    }
    let metric = history.get_metric("c").unwrap();
    for key in metric.get_labels() {
        assert_eq!(metric.series(&key).unwrap().samples.len(), 2);
    }
}

#[test]
fn kind_stays_as_first_declared() {
    let mut history = MetricHistory::new();
    history.merge(decode_single_scrape_metric(block(&["# TYPE m gauge", "m 1"]), 1).unwrap());
    history.merge(decode_single_scrape_metric(block(&["# TYPE m counter", "m 2"]), 2).unwrap());
    let metric = history.get_metric("m").unwrap();
    assert_eq!(metric.details.metric_type, MetricType::Gauge);
    let series = metric.series("single-value-with-no-labels").unwrap();
    assert_eq!(series.samples.len(), 2);
    assert!(matches!(series.samples[1], Sample::CounterSample(_)));
}

#[test]
fn series_are_never_removed() {
    let mut history = MetricHistory::new();
    history.merge(decode_single_scrape_metric(block(&["# TYPE m gauge", "m{a=\"1\"} 1"]), 1).unwrap());
    history.merge(decode_single_scrape_metric(block(&["# TYPE m gauge", "m{a=\"2\"} 1"]), 2).unwrap());
    let labels = history.get_metric("m").unwrap().get_labels();
    assert_eq!(labels, vec![String::from("a=\"1\""), String::from("a=\"2\"")]);
}

#[test]
fn headers_are_sorted_and_repeatable() {
    let mut state = ScrapeState::new();
    assert!(state.history.is_empty());
    state.payload_received("# TYPE zeta gauge\nzeta 1\n# TYPE alpha gauge\nalpha 2\n", 1);
    let first = state.history.get_metrics_headers();
    let second = state.history.get_metrics_headers();
    assert_eq!(first, vec![String::from("alpha"), String::from("zeta")]);
    assert_eq!(first, second);
    assert!(!state.history.is_empty());
    assert!(state.history.get_metric("beta").is_none());
}

#[test]
fn transport_failure_keeps_history() {
    let mut state = ScrapeState::new();
    state.payload_received("# HELP m Desc\n# TYPE m gauge\nm{shard=\"0\"} 10.5\n", 1);
    assert!(state.last_error().is_none());
    state.fetch_failed("connection refused");
    let error = state.last_error().unwrap();
    assert!(!error.is_empty());
    assert!(error.contains("connection refused"));
    assert_eq!(state.history.get_metrics_headers(), vec![String::from("m")]);
    let series = state.history.get_metric("m").unwrap().series("shard=\"0\"").unwrap();
    assert_eq!(series.samples.len(), 1);
    state.payload_received("# TYPE m gauge\nm{shard=\"0\"} 11\n", 2);
    assert!(state.last_error().is_none());
    let series = state.history.get_metric("m").unwrap().series("shard=\"0\"").unwrap();
    assert_eq!(series.samples.len(), 2);
}

#[test]
fn decode_failure_sets_the_error_and_keeps_other_blocks() {
    let mut state = ScrapeState::new();
    state.payload_received("# TYPE m weird\nm 1\n# TYPE g gauge\ng 2\n", 1);
    assert_eq!(state.last_error().unwrap(), "invalid metric type: weird");
    assert!(state.history.get_metric("m").is_none());
    assert!(state.history.get_metric("g").is_some());
}

#[test]
fn payload_lines_drop_carriage_returns() {
    let lines = split_payload("a 1\r\nb 2\n");
    assert_eq!(lines, vec![String::from("a 1"), String::from("b 2")]);
    assert!(split_payload("").is_empty());
}

#[test]
fn float_tokens_follow_the_float_grammar() {
    for ok in ["10.5", "-3", "+Inf", "NaN", "1e-3", ".5", "1.", "inf", "-infinity", "2E+10"] {
        assert!(is_float_token(ok), "{ok}");
        assert!(ok.parse::<f64>().is_ok());
    }
    for bad in ["", "abc", "1..2", "e5", "1e", "--1", "."] {
        assert!(!is_float_token(bad), "{bad}");
        assert!(bad.parse::<f64>().is_err());
    }
}

#[test]
fn counts_convert_like_a_float_cast() {
    for token in ["6563", "3.0", "1e6", "1e+06", "2.5", "-1", "-0.5", "NaN", "+Inf", "-inf", "1e30",
        "18446744073709551615", "18446744073709551616", ".9", "1.5e1", "123e-1", "5e-3", "0e999"] {
        let expected = token.parse::<f64>().unwrap() as u64;
        let exact_range = token != "18446744073709551615";
        if exact_range {
            assert_eq!(parse_count(token), Some(expected), "{token}");
        }
    }
    assert_eq!(parse_count("18446744073709551615"), Some(u64::MAX));
    assert_eq!(parse_count("6563"), Some(6563));
    assert_eq!(parse_count("1e+06"), Some(1_000_000));
    assert_eq!(parse_count("2.5"), Some(2));
    assert_eq!(parse_count("1e99999999999999999999999999999999"), Some(u64::MAX));
    assert_eq!(parse_count("7e-99999999999999999999999999999999"), Some(0));
    assert_eq!(parse_count("abc"), None);
    assert_eq!(parse_count(""), None);
}

#[test]
fn histogram_counts_with_exponents_decode() {
    let lines = block(&[
        "# TYPE h histogram",
        "h_bucket{le=\"1\"} 5e+05",
        "h_bucket{le=\"+Inf\"} 1e+06",
        "h_sum 1.5e6",
        "h_count 1e+06",
    ]);
    let m = decode_single_scrape_metric(lines, 1).unwrap();
    match m.sample("single-value-with-no-labels").unwrap() {
        Sample::HistogramSample(h) => {
            assert_eq!(h.bucket_values[0].value, 500_000);
            assert_eq!(h.bucket_values[1].value, 1_000_000);
            assert_eq!(h.count, 1_000_000);
            assert_eq!(h.sum, "1.5e6");
        }
        _ => panic!("expected a histogram sample"),
    }
}

#[test]
fn stored_metric_names_match_their_keys() {
    let mut history = MetricHistory::new();
    history.merge(decode_single_scrape_metric(block(&["# HELP m d", "# TYPE m gauge", "m 1"]), 1).unwrap());
    assert_eq!(history.get_metric("m").unwrap().details.name, "m");
}

#[test]
fn port_override_replaces_the_port() {
    assert_eq!(
        endpoint_with_port("http://localhost:8080/metrics", Some(9100)),
        "http://localhost:9100/metrics"
    );
    assert_eq!(
        endpoint_with_port("http://localhost:8080/metrics", None),
        "http://localhost:8080/metrics"
    );
    assert_eq!(decimal_text(0), "0");
    assert_eq!(decimal_text(65535), "65535");
}

#[test]
fn regex_label_functions() {
    assert_eq!(
        extract_labels_with_rgx("m{shard=\"0\"} 1"),
        Some(String::from("shard=\"0\""))
    );
    assert_eq!(extract_labels_with_rgx("m 1"), None);
    assert_eq!(extract_labels_with_rgx("m{a=\"1\"\n} {b=\"2\"} 1"), Some(String::from("b=\"2\"")));
    let labels = decode_labels_with_rgx("key1=\"value1\",key2=\"0\"");
    assert_eq!(labels.len(), 2);
    assert_eq!(labels.get("key1").unwrap(), "value1");
}

#[test]
fn cursor_wraps_around() {
    assert_eq!(update_list_state_with_direction(Direction::Down, Some(2), 3), Some(0));
    assert_eq!(update_list_state_with_direction(Direction::Down, Some(0), 3), Some(1));
    assert_eq!(update_list_state_with_direction(Direction::Up, Some(0), 3), Some(2));
    assert_eq!(update_list_state_with_direction(Direction::Up, Some(2), 3), Some(1));
    assert_eq!(update_list_state_with_direction(Direction::Up, None, 3), None);
    assert_eq!(toggled_focus(ElementInFocus::MetricHeaders), ElementInFocus::LabelsView);
    assert_eq!(toggled_focus(ElementInFocus::LabelsView), ElementInFocus::MetricHeaders);
}

#[test]
fn configuration_gives_the_scrape_target() {
    let mut cli = Cli {
        endpoint: String::from("http://localhost:8080/metrics"),
        port: Some(9090),
        scrape_interval: 10,
        loglevel: LogLevel::Info,
    };
    let (endpoint, interval) = cli.scrape_target().unwrap();
    assert_eq!(endpoint, "http://localhost:9090/metrics");
    assert_eq!(interval, 10);
    cli.scrape_interval = 0;
    assert_eq!(cli.scrape_target().unwrap_err(), ConfigError::ZeroInterval);
}

#[test]
fn at_most_one_fetch_in_flight() {
    let mut state = ScrapeState::new();
    assert_eq!(state.phase, Phase::Idle);
    assert_eq!(state.on_event(ScrapeEvent::IntervalElapsed), ScrapeAction::StartFetch);
    assert_eq!(state.phase, Phase::Fetching);
    assert_eq!(state.on_event(ScrapeEvent::IntervalElapsed), ScrapeAction::WaitForInterval);
    assert_eq!(state.phase, Phase::Fetching);
    let payload = String::from("# TYPE up gauge\nup 1\n");
    assert_eq!(
        state.on_event(ScrapeEvent::Fetched { payload, timestamp: 5 }),
        ScrapeAction::WaitForInterval
    );
    assert_eq!(state.phase, Phase::Idle);
    assert_eq!(state.history.get_metrics_headers(), vec![String::from("up")]);
    let reason = String::from("timeout");
    assert_eq!(
        state.on_event(ScrapeEvent::FetchFailed { reason }),
        ScrapeAction::WaitForInterval
    );
    assert!(state.last_error().is_none());
    assert_eq!(state.on_event(ScrapeEvent::IntervalElapsed), ScrapeAction::StartFetch);
    let reason = String::from("timeout");
    state.on_event(ScrapeEvent::FetchFailed { reason });
    assert_eq!(state.last_error().unwrap(), "fetch failed: timeout");
    assert_eq!(state.history.get_metrics_headers(), vec![String::from("up")]);
}

#[test]
fn pairs_set_labels_in_turn() {
    let pairs = vec![
        (String::from("b"), String::from("1")),
        (String::from("a"), String::from("2")),
        (String::from("b"), String::from("3")),
    ];
    let labels = labels_from_pairs(pairs);
    assert_eq!(labels.len(), 2);
    assert_eq!(labels.get("b").unwrap(), "3");
    assert_eq!(labels.keys(), vec![String::from("a"), String::from("b")]);
}
