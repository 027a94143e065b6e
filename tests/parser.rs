use promviz::labels::{decode_labels, extract_labels, extract_labels_key_and_map, NO_LABELS_KEY};
use promviz::model::{Bucket, MetricType, Sample};
use promviz::parser::{
    decode_single_scrape_metric, extract_name_docstring, extract_type,
    further_split_metric_lines_for_histogram, split_metric_lines, DecodeError,
};
use std::time::{SystemTime, UNIX_EPOCH};

fn now() -> u64 {
    SystemTime::now()
        .duration_since(UNIX_EPOCH)
        .unwrap()
        .as_secs()
}

fn histogram_group(name: &str, shard: &str, lines: &mut Vec<String>) {
    let bounds = ["0.001", "0.005", "0.01", "0.05", "0.1", "0.5", "1", "+Inf"];
    let mut cumulative = 0;
    for bound in bounds.iter() {
        cumulative += 2;
        lines.push(format!(
            "{name}_bucket{{shard=\"{shard}\",le=\"{bound}\"}} {cumulative}"
        ));
    }
    lines.push(format!("{name}_sum{{shard=\"{shard}\"}} 3.25"));
    lines.push(format!("{name}_count{{shard=\"{shard}\"}} {cumulative}"));
}

/// Six metric families: four of one sample each, a histogram with two label
/// groups and a histogram with one.
fn generate_metric_lines() -> Vec<String> {
    let mut lines = Vec::new();
    lines.push(String::from("# HELP metric_1 Description of the metric"));
    lines.push(String::from("# TYPE metric_1 gauge"));
    lines.push(String::from("metric_1{shard=\"0\"} 10.000007"));
    lines.push(String::from("# HELP metric_2 Requests served"));
    lines.push(String::from("# TYPE metric_2 counter"));
    lines.push(String::from("metric_2{shard=\"0\",label1=\"test1\"} 5"));
    lines.push(String::from("# HELP incoming_requests Incoming requests"));
    lines.push(String::from("# TYPE incoming_requests counter"));
    lines.push(String::from("incoming_requests 10"));
    lines.push(String::from("# HELP memory_free Free memory"));
    lines.push(String::from("# TYPE memory_free gauge"));
    lines.push(String::from("memory_free{shard=\"1\"} 1.5e9"));
    lines.push(String::from("# HELP request_latency Request latency"));
    lines.push(String::from("# TYPE request_latency histogram"));
    histogram_group("request_latency", "0", &mut lines);
    histogram_group("request_latency", "1", &mut lines);
    lines.push(String::from("# HELP produce_latency Produce latency"));
    lines.push(String::from("# TYPE produce_latency histogram"));
    histogram_group("produce_latency", "0", &mut lines);
    lines
}

#[test]
fn test_decode_labels() {
    let labels = decode_labels(&String::from("key1=\"value1\",key2=\"0\""));
    assert_eq!(labels.keys().len(), 2);
    assert_eq!(labels.get("key1").unwrap(), "value1");
    assert_eq!(labels.get("key2").unwrap(), "0");
}

#[test]
fn test_extract_name_docstring() {
    let line = String::from("# HELP metric_1 Description of the metric");
    let name_desc = extract_name_docstring(&line);
    match name_desc {
        Some((name, description)) => {
            assert_eq!(name, "metric_1");
            assert_eq!(description, "Description of the metric");
        }
        None => panic!("Failed to extract name and description"),
    }
}

#[test]
fn test_extract_type() {
    let line = String::from("# TYPE vectorized_pandaproxy_request_latency histogram");
    let (_name, metric_type) = extract_type(&line).expect("Failed to extract metric type");
    assert_eq!(metric_type, "histogram");
}

#[test]
fn test_split_metric_lines() {
    let lines = generate_metric_lines();
    let splitted_lines = split_metric_lines(lines);
    assert_eq!(splitted_lines.len(), 6);
    assert_eq!(splitted_lines[0].len(), 3);
    assert_eq!(splitted_lines[1].len(), 3);
    assert_eq!(splitted_lines[2].len(), 3);
    assert_eq!(splitted_lines[3].len(), 3);
    assert_eq!(splitted_lines[4].len(), 22);
    assert_eq!(splitted_lines[5].len(), 12);
}

#[test]
fn test_further_split_metric_lines_for_histogram() {
    let lines = generate_metric_lines();
    let splitted_lines = split_metric_lines(lines);
    let further_splitted_metrics_for_hist =
        further_split_metric_lines_for_histogram(&splitted_lines[4][2..]);
    assert_eq!(further_splitted_metrics_for_hist.len(), 2);
    assert_eq!(further_splitted_metrics_for_hist[0].len(), 10);
    assert_eq!(further_splitted_metrics_for_hist[1].len(), 10);
    let further_splitted_metrics_for_hist =
        further_split_metric_lines_for_histogram(&splitted_lines[5][2..]);
    assert_eq!(further_splitted_metrics_for_hist.len(), 1);
    assert_eq!(further_splitted_metrics_for_hist[0].len(), 10);
}

#[test]
fn test_extract_labels() {
    let mut lines = Vec::new();
    lines.push(String::from("metric_1{shard=\"0\"} 10.000007"));
    lines.push(String::from("metric_2{shard=\"0\",label1=\"test1\"} 5"));
    lines.push(String::from("incoming_requests 10"));
    let line = &lines[0];
    let labels = extract_labels(&line);
    match labels {
        Some(labels) => {
            assert_eq!(labels, "shard=\"0\"");
        }
        None => panic!("Failed to extract labels"),
    }
    let line = &lines[1];
    let labels = extract_labels(&line);
    match labels {
        Some(labels) => {
            assert_eq!(labels, "shard=\"0\",label1=\"test1\"");
        }
        None => panic!("Failed to extract labels"),
    }
    let line = &lines[2];
    let labels = extract_labels(&line);
    match labels {
        Some(_) => {
            panic!("Should have not extracted any label");
        }
        None => (),
    }
}

#[test]
fn test_decode_metric() {
    let mut lines = Vec::new();
    lines.push(String::from("# HELP metric_1 Description of the metric"));
    lines.push(String::from("# TYPE metric_1 gauge"));
    lines.push(String::from("metric_1{shard=\"0\"} 10.000007"));
    // insert to check if empty lines can be handled
    lines.push(String::from(""));
    let metric = decode_single_scrape_metric(lines, now()).unwrap();
    assert_eq!(metric.name, "metric_1");
}

#[test]
fn test_decode_single_scrape_metric() {
    let mut lines = Vec::new();
    lines.push(String::from("# HELP metric_1 Description of the metric"));
    lines.push(String::from("# TYPE metric_1 gauge"));
    lines.push(String::from("metric_1{shard=\"0\"} 10.000007"));
    // insert to check if empty lines can be handled
    lines.push(String::from(""));
    let metric = decode_single_scrape_metric(lines, now()).unwrap();
    assert_eq!(metric.name, "metric_1");
}

fn histogram_sample(sample: &Sample) -> (Vec<Bucket>, f64, u64) {
    match sample {
        Sample::HistogramSample(h) => (
            h.bucket_values.clone(),
            h.sum.parse::<f64>().unwrap(),
            h.count,
        ),
        _ => panic!("Failed to decode histogram"),
    }
}

#[test]
fn test_decode_single_scrape_metric_with_histogram() {
    let mut lines = Vec::new();
    lines.push(String::from("# HELP response_time Response Times"));
    lines.push(String::from("# TYPE response_time histogram"));
    lines.push(String::from("response_time_bucket{env=\"production\",le=\"0.005\"} 3"));
    lines.push(String::from("response_time_bucket{env=\"production\",le=\"0.01\"} 4"));
    lines.push(String::from("response_time_bucket{env=\"production\",le=\"0.025\"} 13"));
    lines.push(String::from("response_time_bucket{env=\"production\",le=\"+Inf\"} 6563"));
    lines.push(String::from("response_time_sum{env=\"production\"} 32899.06535799631"));
    lines.push(String::from("response_time_count{env=\"production\"} 6563"));
    lines.push(String::from("response_time_bucket{env=\"testing\",le=\"0.005\"} 4"));
    lines.push(String::from("response_time_bucket{env=\"testing\",le=\"0.01\"} 4"));
    lines.push(String::from("response_time_bucket{env=\"testing\",le=\"0.025\"} 13"));
    lines.push(String::from("response_time_bucket{env=\"testing\",le=\"+Inf\"} 6451"));
    lines.push(String::from("response_time_sum{env=\"testing\"} 32157.055112958977"));
    lines.push(String::from("response_time_count{env=\"testing\"} 6451"));
    // insert to check if empty lines can be handled
    lines.push(String::from(""));
    let metric = decode_single_scrape_metric(lines, now()).unwrap();
    assert_eq!(metric.name, "response_time");
    let metric_hist_1 = metric.sample("env=\"production\"").unwrap();
    let expected_1 = Vec::from([
        Bucket::new(String::from("0.005"), 3),
        Bucket::new(String::from("0.01"), 4),
        Bucket::new(String::from("0.025"), 13),
        Bucket::new(String::from("+Inf"), 6563),
    ]);
    let metric_hist_2 = metric.sample("env=\"testing\"").unwrap();
    let expected_2 = Vec::from([
        Bucket::new(String::from("0.005"), 4),
        Bucket::new(String::from("0.01"), 4),
        Bucket::new(String::from("0.025"), 13),
        Bucket::new(String::from("+Inf"), 6451),
    ]);
    let (buckets, sum, count) = histogram_sample(metric_hist_1);
    assert_eq!(buckets, expected_1);
    assert_eq!(sum, 32899.06535799631);
    assert_eq!(count, 6563);
    let (buckets, sum, count) = histogram_sample(metric_hist_2);
    assert_eq!(buckets, expected_2);
    assert_eq!(sum, 32157.055112958977);
    assert_eq!(count, 6451);
}

#[test]
fn test_decode_single_scrape_metric_with_histogram_with_no_labels() {
    let mut lines = Vec::new();
    lines.push(String::from("# HELP response_time Response Times"));
    lines.push(String::from("# TYPE response_time histogram"));
    lines.push(String::from("response_time_bucket{le=\"0.005\"} 3"));
    lines.push(String::from("response_time_bucket{le=\"0.01\"} 4"));
    lines.push(String::from("response_time_bucket{le=\"0.025\"} 13"));
    lines.push(String::from("response_time_bucket{le=\"+Inf\"} 6563"));
    lines.push(String::from("response_time_sum 32899.06535799631"));
    lines.push(String::from("response_time_count 6563"));
    // insert to check if empty lines can be handled
    lines.push(String::from(""));
    let metric = decode_single_scrape_metric(lines, now()).unwrap();
    assert_eq!(metric.name, "response_time");
    let metric_hist_1 = metric.sample("single-value-with-no-labels").unwrap();
    let expected_1 = Vec::from([
        Bucket::new(String::from("0.005"), 3),
        Bucket::new(String::from("0.01"), 4),
        Bucket::new(String::from("0.025"), 13),
        Bucket::new(String::from("+Inf"), 6563),
    ]);
    let (buckets, sum, count) = histogram_sample(metric_hist_1);
    assert_eq!(buckets, expected_1);
    assert_eq!(sum, 32899.06535799631);
    assert_eq!(count, 6563);
}

fn block(lines: &[&str]) -> Vec<String> {
    lines.iter().map(|l| l.to_string()).collect()
}

#[test]
fn simple_gauge_one_scrape() {
    let m = decode_single_scrape_metric(
        block(&["# HELP m Desc", "# TYPE m gauge", "m{shard=\"0\"} 10.5"]),
        100,
    )
    .unwrap();
    assert_eq!(m.name, "m");
    assert_eq!(m.docstring, "Desc");
    assert_eq!(m.metric_type, MetricType::Gauge);
    assert_eq!(m.value_per_labels.len(), 1);
    match m.sample("shard=\"0\"").unwrap() {
        Sample::GaugeSample(s) => {
            assert_eq!(s.value.parse::<f64>().unwrap(), 10.5);
            assert_eq!(s.timestamp, 100);
        }
        _ => panic!("expected a gauge sample"),
    }
}

#[test]
fn histogram_with_two_label_groups() {
    let mut lines = block(&["# HELP h Latency", "# TYPE h histogram"]);
    for env in ["a", "b"] {
        for (le, c) in [("0.1", 1), ("0.5", 2), ("1", 3), ("+Inf", 4)] {
            lines.push(format!("h_bucket{{env=\"{env}\",le=\"{le}\"}} {c}"));
        }
        lines.push(format!("h_sum{{env=\"{env}\"}} 1.75"));
        lines.push(format!("h_count{{env=\"{env}\"}} 4"));
    }
    let m = decode_single_scrape_metric(lines, 7).unwrap();
    assert_eq!(m.metric_type, MetricType::Histogram);
    assert_eq!(m.value_per_labels.len(), 2);
    for key in ["env=\"a\"", "env=\"b\""] {
        let (buckets, sum, count) = histogram_sample(m.sample(key).unwrap());
        assert_eq!(buckets.len(), 4);
        assert_eq!(buckets[3], Bucket::new(String::from("+Inf"), 4));
        assert_eq!(sum, 1.75);
        assert_eq!(count, 4);
    }
}

#[test]
fn unparsable_kind_is_a_decode_failure() {
    let r = decode_single_scrape_metric(block(&["# TYPE m weird", "m 1"]), 1);
    match r {
        Err(DecodeError::UnknownKind { kind }) => assert_eq!(kind, "weird"),
        _ => panic!("expected an unknown kind"),
    }
}

#[test]
fn summary_block_decodes_quantiles_in_order() {
    let lines = block(&[
        "# HELP rpc RPC durations",
        "# TYPE rpc summary",
        "rpc{service=\"x\",quantile=\"0.5\"} 0.25",
        "rpc{service=\"x\",quantile=\"0.99\"} 1.5",
        "rpc_sum{service=\"x\"} 10.5",
        "rpc_count{service=\"x\"} 12",
    ]);
    let m = decode_single_scrape_metric(lines, 3).unwrap();
    assert_eq!(m.metric_type, MetricType::Summary);
    match m.sample("service=\"x\"").unwrap() {
        Sample::SummarySample(s) => {
            assert_eq!(s.quantiles.len(), 2);
            assert_eq!(s.quantiles[0].name, "0.5");
            assert_eq!(s.quantiles[0].value, "0.25");
            assert_eq!(s.quantiles[1].name, "0.99");
            assert_eq!(s.sum, "10.5");
            assert_eq!(s.count, 12);
            assert_eq!(s.timestamp, 3);
        }
        _ => panic!("expected a summary sample"),
    }
}

#[test]
fn counter_without_labels_uses_the_no_labels_key() {
    let m = decode_single_scrape_metric(block(&["# TYPE c counter", "c 3"]), 5).unwrap();
    assert_eq!(m.name, "c");
    assert_eq!(m.docstring, "");
    assert_eq!(m.metric_type, MetricType::Counter);
    match m.sample(NO_LABELS_KEY).unwrap() {
        Sample::CounterSample(s) => assert_eq!(s.value, "3"),
        _ => panic!("expected a counter sample"),
    }
}

#[test]
fn sample_before_type_is_a_decode_failure() {
    let r = decode_single_scrape_metric(block(&["# HELP m x", "m 1", "# TYPE m gauge"]), 1);
    assert!(matches!(r, Err(DecodeError::SampleBeforeType { .. })));
}

#[test]
fn missing_type_is_a_decode_failure() {
    let r = decode_single_scrape_metric(block(&["# HELP m x", ""]), 1);
    assert!(matches!(r, Err(DecodeError::MissingType)));
}

#[test]
fn non_numeric_value_is_a_decode_failure() {
    let r = decode_single_scrape_metric(block(&["# TYPE m gauge", "m{a=\"1\"} abc"]), 1);
    assert!(matches!(r, Err(DecodeError::MalformedSample { .. })));
}

#[test]
fn unbalanced_braces_are_a_decode_failure() {
    let r = decode_single_scrape_metric(block(&["# TYPE m gauge", "m{a=\"1\" 4"]), 1);
    assert!(matches!(r, Err(DecodeError::MalformedSample { .. })));
}

#[test]
fn bucket_without_le_is_a_decode_failure() {
    let r = decode_single_scrape_metric(
        block(&["# TYPE h histogram", "h_bucket{a=\"1\"} 1", "h_sum 1", "h_count 1"]),
        1,
    );
    assert!(matches!(r, Err(DecodeError::MissingThreshold { .. })));
}

#[test]
fn unclosed_group_is_a_decode_failure() {
    let r = decode_single_scrape_metric(
        block(&["# TYPE h histogram", "h_bucket{le=\"1\"} 1", "h_sum 1"]),
        1,
    );
    assert!(matches!(r, Err(DecodeError::IncompleteGroup)));
}

#[test]
fn later_line_of_the_same_key_replaces_the_earlier() {
    let m = decode_single_scrape_metric(block(&["# TYPE m gauge", "m 1", "m 2"]), 1).unwrap();
    assert_eq!(m.value_per_labels.len(), 1);
    match m.sample(NO_LABELS_KEY).unwrap() {
        Sample::GaugeSample(s) => assert_eq!(s.value, "2"),
        _ => panic!("expected a gauge sample"),
    }
}

#[test]
fn label_text_round_trip() {
    let text = String::from("a=\"1\",b=\"2\"");
    let (map, key) = extract_labels_key_and_map(Some(text.clone()));
    assert_eq!(key, text);
    assert_eq!(map.len(), 2);
    assert_eq!(map.get("a").unwrap(), "1");
    assert_eq!(map.get("b").unwrap(), "2");
}

#[test]
fn absent_labels_give_the_no_labels_key() {
    let (map, key) = extract_labels_key_and_map(None);
    assert_eq!(key, "single-value-with-no-labels");
    assert_eq!(map.get("key").unwrap(), "single-value-with-no-labels");
}

#[test]
fn malformed_label_parts_are_skipped() {
    let labels = decode_labels("a=,=b,c=\"3\",,d");
    assert_eq!(labels.len(), 1);
    assert_eq!(labels.get("c").unwrap(), "3");
}

#[test]
fn split_keeps_a_trailing_single_line_block() {
    let blocks = split_metric_lines(block(&["# TYPE a gauge", "a 1", "# TYPE b gauge"]));
    assert_eq!(blocks.len(), 2);
    assert_eq!(blocks[1].len(), 1);
    assert!(split_metric_lines(Vec::new()).is_empty());
}
