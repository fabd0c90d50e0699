use datafusion_distributed::metrics::clock::UtcTimestamp;
use datafusion_distributed::metrics::metric::{
    CustomMetricValue, Label, Metric, MetricValue, MetricsSet,
};
use datafusion_distributed::protocol::grpc::metrics_proto::{
    df_metric_to_proto, df_metrics_set_to_proto, metric_proto_to_df, metrics_set_proto_to_df,
    MetricsProtoError,
};
use datafusion_distributed::protocol::grpc::worker as pb;
use sketches_ddsketch::{Config, DDSketch};

fn metric(value: MetricValue, partition: usize, labels: &[(&str, &str)]) -> Metric {
    Metric {
        value,
        partition: Some(partition),
        labels: labels
            .iter()
            .map(|(name, value)| Label { name: name.to_string(), value: value.to_string() })
            .collect(),
    }
}

fn shown(value: &MetricValue) -> String {
    match value {
        MetricValue::OutputRows(n) => format!("OutputRows {n}"),
        MetricValue::ElapsedCompute(n) => format!("ElapsedCompute {n}"),
        MetricValue::SpillCount(n) => format!("SpillCount {n}"),
        MetricValue::SpilledBytes(n) => format!("SpilledBytes {n}"),
        MetricValue::OutputBytes(n) => format!("OutputBytes {n}"),
        MetricValue::OutputBatches(n) => format!("OutputBatches {n}"),
        MetricValue::SpilledRows(n) => format!("SpilledRows {n}"),
        MetricValue::CurrentMemoryUsage(n) => format!("CurrentMemoryUsage {n}"),
        MetricValue::Count { name, count } => format!("Count {name} {count}"),
        MetricValue::Gauge { name, gauge } => format!("Gauge {name} {gauge}"),
        MetricValue::PeakMemoryUsage { name, gauge } => format!("PeakMemoryUsage {name} {gauge}"),
        MetricValue::Time { name, time } => format!("Time {name} {time}"),
        MetricValue::StartTimestamp(t) => format!("StartTimestamp {t:?}"),
        MetricValue::EndTimestamp(t) => format!("EndTimestamp {t:?}"),
        MetricValue::PruningMetrics { name, pruned, matched } => {
            format!("PruningMetrics {name} {pruned} {matched}")
        }
        MetricValue::Ratio { name, part, total } => format!("Ratio {name} {part} {total}"),
        MetricValue::Custom { name, value } => match value {
            CustomMetricValue::MinLatency(n) => format!("MinLatency {name} {n}"),
            CustomMetricValue::MaxLatency(n) => format!("MaxLatency {name} {n}"),
            CustomMetricValue::AvgLatency { nanos_sum, count } => {
                format!("AvgLatency {name} {nanos_sum} {count}")
            }
            CustomMetricValue::FirstLatency(n) => format!("FirstLatency {name} {n}"),
            CustomMetricValue::BytesCounter(n) => format!("BytesCounter {name} {n}"),
            CustomMetricValue::MaxGauge(n) => format!("MaxGauge {name} {n}"),
            _ => format!("other {name}"),
        },
    }
}

fn test_roundtrip_helper(metrics_set: MetricsSet, test_name: &str) {
    let metrics_set_proto = df_metrics_set_to_proto(&metrics_set).unwrap();
    let roundtrip_metrics_set = metrics_set_proto_to_df(&metrics_set_proto).unwrap();

    assert_eq!(
        metrics_set.metrics.len(),
        roundtrip_metrics_set.metrics.len(),
        "roundtrip should preserve metrics count for {test_name}"
    );
    for (original, roundtrip) in metrics_set.metrics.iter().zip(roundtrip_metrics_set.metrics.iter()) {
        assert_eq!(original.partition, roundtrip.partition, "partition mismatch in {test_name}");
        assert_eq!(
            original.labels.len(),
            roundtrip.labels.len(),
            "label count mismatch in {test_name}"
        );
        for (orig_label, rt_label) in original.labels.iter().zip(roundtrip.labels.iter()) {
            assert_eq!(orig_label.name, rt_label.name, "label name mismatch in {test_name}");
            assert_eq!(orig_label.value, rt_label.value, "label value mismatch in {test_name}");
        }
        assert_eq!(
            shown(&original.value),
            shown(&roundtrip.value),
            "value mismatch in {test_name}"
        );
    }
}

#[test]
fn metrics_proto_test_empty_metrics_roundtrip() {
    let metrics_set = MetricsSet::new();
    test_roundtrip_helper(metrics_set, "empty");
}

#[test]
fn metrics_proto_test_output_rows_roundtrip() {
    let mut metrics_set = MetricsSet::new();
    metrics_set.push(metric(
        MetricValue::OutputRows(1234),
        0,
        &[("operator", "scan")],
    ));
    test_roundtrip_helper(metrics_set, "output_rows");
}

#[test]
fn metrics_proto_test_elapsed_compute_roundtrip() {
    let mut metrics_set = MetricsSet::new();
    metrics_set.push(metric(
        MetricValue::ElapsedCompute(100_000_000),
        1,
        &[("stage", "compute")],
    ));
    test_roundtrip_helper(metrics_set, "elapsed_compute");
}

#[test]
fn metrics_proto_test_spill_count_roundtrip() {
    let mut metrics_set = MetricsSet::new();
    metrics_set.push(metric(
        MetricValue::SpillCount(456),
        2,
        &[("memory", "spill")],
    ));
    test_roundtrip_helper(metrics_set, "spill_count");
}

#[test]
fn metrics_proto_test_spilled_bytes_roundtrip() {
    let mut metrics_set = MetricsSet::new();
    metrics_set.push(metric(
        MetricValue::SpilledBytes(7890),
        3,
        &[("disk", "temp")],
    ));
    test_roundtrip_helper(metrics_set, "spilled_bytes");
}

#[test]
fn metrics_proto_test_spilled_rows_roundtrip() {
    let mut metrics_set = MetricsSet::new();
    metrics_set.push(metric(
        MetricValue::SpilledRows(123),
        4,
        &[("buffer", "overflow")],
    ));
    test_roundtrip_helper(metrics_set, "spilled_rows");
}

#[test]
fn metrics_proto_test_current_memory_usage_roundtrip() {
    let mut metrics_set = MetricsSet::new();
    metrics_set.push(metric(
        MetricValue::CurrentMemoryUsage(2048),
        5,
        &[("resource", "memory")],
    ));
    test_roundtrip_helper(metrics_set, "current_memory_usage");
}

#[test]
fn metrics_proto_test_named_count_roundtrip() {
    let mut metrics_set = MetricsSet::new();
    metrics_set.push(metric(
        MetricValue::Count { name: "custom_count".to_string(), count: 999 },
        6,
        &[("custom", "counter"), ("unit", "operations")],
    ));
    test_roundtrip_helper(metrics_set, "named_count");
}

#[test]
fn metrics_proto_test_named_gauge_roundtrip() {
    let mut metrics_set = MetricsSet::new();
    metrics_set.push(metric(
        MetricValue::Gauge { name: "custom_gauge".to_string(), gauge: 4096 },
        7,
        &[("type", "gauge"), ("component", "cache")],
    ));
    test_roundtrip_helper(metrics_set, "named_gauge");
}

#[test]
fn metrics_proto_test_named_time_roundtrip() {
    let mut metrics_set = MetricsSet::new();
    metrics_set.push(metric(
        MetricValue::Time { name: "custom_time".to_string(), time: 500_000 },
        8,
        &[("phase", "processing")],
    ));
    test_roundtrip_helper(metrics_set, "named_time");
}

#[test]
fn metrics_proto_test_start_timestamp_roundtrip() {
    let mut metrics_set = MetricsSet::new();
    metrics_set.push(metric(
        MetricValue::StartTimestamp(Some(UtcTimestamp { secs: 1600000000, nanos: 0 })),
        9,
        &[("event", "start")],
    ));
    test_roundtrip_helper(metrics_set, "start_timestamp");
}

#[test]
fn metrics_proto_test_end_timestamp_roundtrip() {
    let mut metrics_set = MetricsSet::new();
    metrics_set.push(metric(
        MetricValue::EndTimestamp(Some(UtcTimestamp { secs: 1600000100, nanos: 0 })),
        10,
        &[("event", "end"), ("duration", "100s")],
    ));
    test_roundtrip_helper(metrics_set, "end_timestamp");
}

#[test]
fn metrics_proto_test_mixed_metrics_roundtrip() {
    let mut metrics_set = MetricsSet::new();
    metrics_set.push(metric(
        MetricValue::OutputRows(1500),
        0,
        &[("operator", "join"), ("side", "left")],
    ));
    metrics_set.push(metric(
        MetricValue::ElapsedCompute(250_000_000),
        1,
        &[("phase", "execution")],
    ));
    metrics_set.push(metric(
        MetricValue::CurrentMemoryUsage(8192),
        2,
        &[("resource", "heap"), ("unit", "bytes")],
    ));
    metrics_set.push(metric(
        MetricValue::Count { name: "processed_records".to_string(), count: 42 },
        3,
        &[("metric", "custom"), ("category", "business")],
    ));
    metrics_set.push(metric(
        MetricValue::StartTimestamp(Some(UtcTimestamp { secs: 1700000000, nanos: 500_000_000 })),
        4,
        &[("event", "query_start"), ("query_id", "abc-123")],
    ));
    test_roundtrip_helper(metrics_set, "mixed_metrics");
}

#[test]
fn metrics_proto_test_custom_metrics_filtering() {
    let mut metrics_set = MetricsSet::new();

    // Add a supported metric
    metrics_set.push(metric(MetricValue::OutputRows(100), 0, &[]));

    // Add a custom metric which will be filtered out
    metrics_set.push(metric(
        MetricValue::Custom {
            name: "test_custom".to_string(),
            value: CustomMetricValue::Foreign,
        },
        1,
        &[],
    ));

    let metrics_set_proto = df_metrics_set_to_proto(&metrics_set).unwrap();

    assert_eq!(metrics_set_proto.metrics.len(), 1);

    let remaining_metric = &metrics_set_proto.metrics[0];
    assert!(matches!(remaining_metric.value, Some(pb::Value::OutputRows(_))));
}

#[test]
fn metrics_proto_test_unrepresentable_timestamp_error() {
    // Use a timestamp that is beyond the range that timestamp_nanos_opt() can handle.
    let mut metrics_set = MetricsSet::new();
    metrics_set.push(metric(
        MetricValue::StartTimestamp(Some(UtcTimestamp {
            secs: i64::MAX / 1_000_000_000,
            nanos: 999_999_999,
        })),
        0,
        &[],
    ));

    let proto_result = df_metrics_set_to_proto(&metrics_set);
    assert!(
        proto_result.is_err(),
        "should return error for unrepresentable timestamp"
    );
}

#[test]
fn metrics_proto_test_default_timestamp_roundtrip() {
    let metric_with_default_timestamp = metric(MetricValue::EndTimestamp(None), 0, &[]);

    let proto_result = df_metric_to_proto(&metric_with_default_timestamp);
    assert!(
        proto_result.is_ok(),
        "should successfully convert default timestamp to proto"
    );

    let proto_metric = proto_result.unwrap();
    let roundtrip_result = metric_proto_to_df(proto_metric);
    assert!(
        roundtrip_result.is_ok(),
        "should successfully roundtrip default timestamp"
    );
}

#[test]
fn test_output_bytes_roundtrip() {
    let mut metrics_set = MetricsSet::new();
    metrics_set.push(metric(MetricValue::OutputBytes(8192), 0, &[("source", "parquet")]));
    test_roundtrip_helper(metrics_set, "output_bytes");
}

#[test]
fn test_output_batches_roundtrip() {
    let mut metrics_set = MetricsSet::new();
    metrics_set.push(metric(MetricValue::OutputBatches(42), 1, &[("operator", "filter")]));
    test_roundtrip_helper(metrics_set, "output_batches");
}

#[test]
fn test_pruning_metrics_roundtrip() {
    let mut metrics_set = MetricsSet::new();
    metrics_set.push(metric(
        MetricValue::PruningMetrics { name: "row_groups".to_string(), pruned: 100, matched: 50 },
        2,
        &[("predicate", "range")],
    ));
    test_roundtrip_helper(metrics_set, "pruning_metrics");
}

#[test]
fn test_ratio_metrics_roundtrip() {
    let mut metrics_set = MetricsSet::new();
    metrics_set.push(metric(
        MetricValue::Ratio { name: "cache_hit_ratio".to_string(), part: 75, total: 100 },
        3,
        &[("type", "cache_hit")],
    ));
    test_roundtrip_helper(metrics_set, "ratio_metrics");
}

fn custom(name: &str, value: CustomMetricValue) -> Metric {
    metric(MetricValue::Custom { name: name.to_string(), value }, 0, &[])
}

fn sketch_of(value: &CustomMetricValue) -> Option<(&'static str, &DDSketch)> {
    match value {
        CustomMetricValue::P50Latency(sketch) => Some(("p50", sketch)),
        CustomMetricValue::P75Latency(sketch) => Some(("p75", sketch)),
        CustomMetricValue::P95Latency(sketch) => Some(("p95", sketch)),
        CustomMetricValue::P99Latency(sketch) => Some(("p99", sketch)),
        _ => None,
    }
}

#[test]
fn test_latency_metrics_roundtrip() {
    let mut metrics_set = MetricsSet::new();
    metrics_set.push(custom("min_latency", CustomMetricValue::MinLatency(10_000)));
    metrics_set.push(custom("max_latency", CustomMetricValue::MaxLatency(90_000)));
    metrics_set.push(custom(
        "avg_latency",
        CustomMetricValue::AvgLatency { nanos_sum: 300_000, count: 3 },
    ));
    metrics_set.push(custom("first_latency", CustomMetricValue::FirstLatency(55_000)));

    // Build percentile metrics by adding sample durations
    let mut sketch = DDSketch::new(Config::defaults());
    for _ in 0..100 {
        sketch.add(10_000_000.0);
    }
    metrics_set.push(custom("p50_latency", CustomMetricValue::P50Latency(sketch.clone())));
    metrics_set.push(custom("p75_latency", CustomMetricValue::P75Latency(sketch.clone())));
    metrics_set.push(custom("p95_latency", CustomMetricValue::P95Latency(sketch.clone())));
    metrics_set.push(custom("p99_latency", CustomMetricValue::P99Latency(sketch.clone())));

    let proto = df_metrics_set_to_proto(&metrics_set).unwrap();
    assert_eq!(proto.metrics.len(), 8);

    let rt = metrics_set_proto_to_df(&proto).unwrap();
    assert_eq!(rt.metrics.len(), 8);

    for (orig, rt) in metrics_set.metrics.iter().zip(rt.metrics.iter()) {
        match (&orig.value, &rt.value) {
            (
                MetricValue::Custom { name: n1, value: v1 },
                MetricValue::Custom { name: n2, value: v2 },
            ) => {
                assert_eq!(n1, n2);
                match (sketch_of(v1), sketch_of(v2)) {
                    (Some((k1, s1)), Some((k2, s2))) => {
                        assert_eq!(k1, k2);
                        assert_eq!(s1.count(), 100);
                        assert_eq!(s1.count(), s2.count());
                        assert_eq!(s1.quantile(0.5).unwrap(), s2.quantile(0.5).unwrap());
                        assert_eq!(s1.quantile(0.99).unwrap(), s2.quantile(0.99).unwrap());
                    }
                    (None, None) => assert_eq!(shown(&orig.value), shown(&rt.value)),
                    _ => panic!("unexpected custom metric type"),
                }
            }
            _ => panic!("expected Custom metrics"),
        }
    }
}

#[test]
fn test_bytes_counter_metric_roundtrip() {
    let mut metrics_set = MetricsSet::new();
    metrics_set.push(custom("bytes_transferred", CustomMetricValue::BytesCounter(1_073_741_824)));

    let proto = df_metrics_set_to_proto(&metrics_set).unwrap();
    assert_eq!(proto.metrics.len(), 1);

    let rt = metrics_set_proto_to_df(&proto).unwrap();
    assert_eq!(rt.metrics.len(), 1);

    match &rt.metrics[0].value {
        MetricValue::Custom { name, value: CustomMetricValue::BytesCounter(bytes) } => {
            assert_eq!(name, "bytes_transferred");
            assert_eq!(*bytes, 1_073_741_824);
        }
        _ => panic!("expected Custom metrics"),
    }
}

#[test]
fn the_largest_gauge_survives() {
    let mut metrics_set = MetricsSet::new();
    metrics_set.push(custom("peak", CustomMetricValue::MaxGauge(77)));
    test_roundtrip_helper(metrics_set, "max_gauge");
}

#[test]
fn bytes_that_hold_no_sketch_are_an_error() {
    let sent = pb::Metric {
        value: Some(pb::Value::CustomP95Latency(pb::PercentileLatency {
            name: "p95".to_string(),
            sketch_bytes: vec![1, 2, 3],
        })),
        partition: None,
        labels: vec![],
    };
    match metric_proto_to_df(sent).err() {
        Some(MetricsProtoError::InvalidSketch(reason)) => assert!(!reason.is_empty()),
        other => panic!("{other:?}"),
    }
    match metric_proto_to_df(pb::Metric { value: None, partition: None, labels: vec![] }).err() {
        Some(MetricsProtoError::MissingMetric) => {}
        other => panic!("{other:?}"),
    }
    match df_metric_to_proto(&custom("c", CustomMetricValue::Foreign)) {
        Err(MetricsProtoError::CustomMetricsNotSupported) => {}
        other => panic!("{other:?}"),
    }
    match df_metric_to_proto(&metric(
        MetricValue::PeakMemoryUsage { name: "peak".to_string(), gauge: 1 },
        0,
        &[],
    )) {
        Err(MetricsProtoError::UnsupportedMetric) => {}
        other => panic!("{other:?}"),
    }
}
