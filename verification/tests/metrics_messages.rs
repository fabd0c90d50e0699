use datafusion_distributed::metrics::clock::UtcTimestamp;
use datafusion_distributed::metrics::metric::{
    CustomMetricValue, Label, Metric, MetricValue, MetricsSet,
};
use datafusion_distributed::metrics::proto::{
    df_metric_to_proto, df_metrics_set_to_proto, metric_proto_to_df, metrics_set_proto_to_df,
    MetricProto, MetricValueProto, MetricsProtoError, MetricsSetProto,
};

fn metric(value: MetricValue, partition: usize, labels: &[(&str, &str)]) -> Metric {
    Metric {
        value,
        partition: Some(partition),
        labels: labels
            .iter()
            .map(|(name, value)| Label { name: name.to_string(), value: value.to_string() })
            .collect(),
    }
}

fn shown(value: &MetricValue) -> String {
    match value {
        MetricValue::OutputRows(n) => format!("OutputRows {n}"),
        MetricValue::ElapsedCompute(n) => format!("ElapsedCompute {n}"),
        MetricValue::SpillCount(n) => format!("SpillCount {n}"),
        MetricValue::SpilledBytes(n) => format!("SpilledBytes {n}"),
        MetricValue::OutputBytes(n) => format!("OutputBytes {n}"),
        MetricValue::OutputBatches(n) => format!("OutputBatches {n}"),
        MetricValue::SpilledRows(n) => format!("SpilledRows {n}"),
        MetricValue::CurrentMemoryUsage(n) => format!("CurrentMemoryUsage {n}"),
        MetricValue::Count { name, count } => format!("Count {name} {count}"),
        MetricValue::Gauge { name, gauge } => format!("Gauge {name} {gauge}"),
        MetricValue::PeakMemoryUsage { name, gauge } => format!("PeakMemoryUsage {name} {gauge}"),
        MetricValue::Time { name, time } => format!("Time {name} {time}"),
        MetricValue::StartTimestamp(t) => format!("StartTimestamp {t:?}"),
        MetricValue::EndTimestamp(t) => format!("EndTimestamp {t:?}"),
        MetricValue::PruningMetrics { name, pruned, matched } => {
            format!("PruningMetrics {name} {pruned} {matched}")
        }
        MetricValue::Ratio { name, part, total } => format!("Ratio {name} {part} {total}"),
        MetricValue::Custom { name, value } => match value {
            CustomMetricValue::MinLatency(n) => format!("MinLatency {name} {n}"),
            CustomMetricValue::MaxLatency(n) => format!("MaxLatency {name} {n}"),
            CustomMetricValue::AvgLatency { nanos_sum, count } => {
                format!("AvgLatency {name} {nanos_sum} {count}")
            }
            CustomMetricValue::FirstLatency(n) => format!("FirstLatency {name} {n}"),
            CustomMetricValue::BytesCounter(n) => format!("BytesCounter {name} {n}"),
            CustomMetricValue::MaxGauge(n) => format!("MaxGauge {name} {n}"),
            _ => format!("other {name}"),
        },
    }
}

fn test_roundtrip_helper(metrics_set: MetricsSet, test_name: &str) {
    let metrics_set_proto = df_metrics_set_to_proto(&metrics_set).unwrap();
    let roundtrip_metrics_set = metrics_set_proto_to_df(&metrics_set_proto).unwrap();

    assert_eq!(
        metrics_set.metrics.len(),
        roundtrip_metrics_set.metrics.len(),
        "roundtrip should preserve metrics count for {test_name}"
    );
    for (original, roundtrip) in metrics_set.metrics.iter().zip(roundtrip_metrics_set.metrics.iter()) {
        assert_eq!(original.partition, roundtrip.partition, "partition mismatch in {test_name}");
        assert_eq!(
            original.labels.len(),
            roundtrip.labels.len(),
            "label count mismatch in {test_name}"
        );
        for (orig_label, rt_label) in original.labels.iter().zip(roundtrip.labels.iter()) {
            assert_eq!(orig_label.name, rt_label.name, "label name mismatch in {test_name}");
            assert_eq!(orig_label.value, rt_label.value, "label value mismatch in {test_name}");
        }
        assert_eq!(
            shown(&original.value),
            shown(&roundtrip.value),
            "value mismatch in {test_name}"
        );
    }
}

#[test]
fn proto_test_empty_metrics_roundtrip() {
    let metrics_set = MetricsSet::new();
    test_roundtrip_helper(metrics_set, "empty");
}

#[test]
fn proto_test_output_rows_roundtrip() {
    let mut metrics_set = MetricsSet::new();
    metrics_set.push(metric(
        MetricValue::OutputRows(1234),
        0,
        &[("operator", "scan")],
    ));
    test_roundtrip_helper(metrics_set, "output_rows");
}

#[test]
fn proto_test_elapsed_compute_roundtrip() {
    let mut metrics_set = MetricsSet::new();
    metrics_set.push(metric(
        MetricValue::ElapsedCompute(100_000_000),
        1,
        &[("stage", "compute")],
    ));
    test_roundtrip_helper(metrics_set, "elapsed_compute");
}

#[test]
fn proto_test_spill_count_roundtrip() {
    let mut metrics_set = MetricsSet::new();
    metrics_set.push(metric(
        MetricValue::SpillCount(456),
        2,
        &[("memory", "spill")],
    ));
    test_roundtrip_helper(metrics_set, "spill_count");
}

#[test]
fn proto_test_spilled_bytes_roundtrip() {
    let mut metrics_set = MetricsSet::new();
    metrics_set.push(metric(
        MetricValue::SpilledBytes(7890),
        3,
        &[("disk", "temp")],
    ));
    test_roundtrip_helper(metrics_set, "spilled_bytes");
}

#[test]
fn proto_test_spilled_rows_roundtrip() {
    let mut metrics_set = MetricsSet::new();
    metrics_set.push(metric(
        MetricValue::SpilledRows(123),
        4,
        &[("buffer", "overflow")],
    ));
    test_roundtrip_helper(metrics_set, "spilled_rows");
}

#[test]
fn proto_test_current_memory_usage_roundtrip() {
    let mut metrics_set = MetricsSet::new();
    metrics_set.push(metric(
        MetricValue::CurrentMemoryUsage(2048),
        5,
        &[("resource", "memory")],
    ));
    test_roundtrip_helper(metrics_set, "current_memory_usage");
}

#[test]
fn proto_test_named_count_roundtrip() {
    let mut metrics_set = MetricsSet::new();
    metrics_set.push(metric(
        MetricValue::Count { name: "custom_count".to_string(), count: 999 },
        6,
        &[("custom", "counter"), ("unit", "operations")],
    ));
    test_roundtrip_helper(metrics_set, "named_count");
}

#[test]
fn proto_test_named_gauge_roundtrip() {
    let mut metrics_set = MetricsSet::new();
    metrics_set.push(metric(
        MetricValue::Gauge { name: "custom_gauge".to_string(), gauge: 4096 },
        7,
        &[("type", "gauge"), ("component", "cache")],
    ));
    test_roundtrip_helper(metrics_set, "named_gauge");
}

#[test]
fn proto_test_named_time_roundtrip() {
    let mut metrics_set = MetricsSet::new();
    metrics_set.push(metric(
        MetricValue::Time { name: "custom_time".to_string(), time: 500_000 },
        8,
        &[("phase", "processing")],
    ));
    test_roundtrip_helper(metrics_set, "named_time");
}

#[test]
fn proto_test_start_timestamp_roundtrip() {
    let mut metrics_set = MetricsSet::new();
    metrics_set.push(metric(
        MetricValue::StartTimestamp(Some(UtcTimestamp { secs: 1600000000, nanos: 0 })),
        9,
        &[("event", "start")],
    ));
    test_roundtrip_helper(metrics_set, "start_timestamp");
}

#[test]
fn proto_test_end_timestamp_roundtrip() {
    let mut metrics_set = MetricsSet::new();
    metrics_set.push(metric(
        MetricValue::EndTimestamp(Some(UtcTimestamp { secs: 1600000100, nanos: 0 })),
        10,
        &[("event", "end"), ("duration", "100s")],
    ));
    test_roundtrip_helper(metrics_set, "end_timestamp");
}

#[test]
fn proto_test_mixed_metrics_roundtrip() {
    let mut metrics_set = MetricsSet::new();
    metrics_set.push(metric(
        MetricValue::OutputRows(1500),
        0,
        &[("operator", "join"), ("side", "left")],
    ));
    metrics_set.push(metric(
        MetricValue::ElapsedCompute(250_000_000),
        1,
        &[("phase", "execution")],
    ));
    metrics_set.push(metric(
        MetricValue::CurrentMemoryUsage(8192),
        2,
        &[("resource", "heap"), ("unit", "bytes")],
    ));
    metrics_set.push(metric(
        MetricValue::Count { name: "processed_records".to_string(), count: 42 },
        3,
        &[("metric", "custom"), ("category", "business")],
    ));
    metrics_set.push(metric(
        MetricValue::StartTimestamp(Some(UtcTimestamp { secs: 1700000000, nanos: 500_000_000 })),
        4,
        &[("event", "query_start"), ("query_id", "abc-123")],
    ));
    test_roundtrip_helper(metrics_set, "mixed_metrics");
}

#[test]
fn proto_test_custom_metrics_filtering() {
    let mut metrics_set = MetricsSet::new();

    // Add a supported metric
    metrics_set.push(metric(MetricValue::OutputRows(100), 0, &[]));

    // Add a custom metric which will be filtered out
    metrics_set.push(metric(
        MetricValue::Custom {
            name: "test_custom".to_string(),
            value: CustomMetricValue::Foreign,
        },
        1,
        &[],
    ));

    let metrics_set_proto = df_metrics_set_to_proto(&metrics_set).unwrap();

    assert_eq!(metrics_set_proto.metrics.len(), 1);

    let remaining_metric = &metrics_set_proto.metrics[0];
    assert!(matches!(remaining_metric.metric, Some(MetricValueProto::OutputRows(_))));
}

#[test]
fn proto_test_unrepresentable_timestamp_error() {
    // Use a timestamp that is beyond the range that timestamp_nanos_opt() can handle.
    let mut metrics_set = MetricsSet::new();
    metrics_set.push(metric(
        MetricValue::StartTimestamp(Some(UtcTimestamp {
            secs: i64::MAX / 1_000_000_000,
            nanos: 999_999_999,
        })),
        0,
        &[],
    ));

    let proto_result = df_metrics_set_to_proto(&metrics_set);
    assert!(
        proto_result.is_err(),
        "should return error for unrepresentable timestamp"
    );
}

#[test]
fn proto_test_default_timestamp_roundtrip() {
    let metric_with_default_timestamp = metric(MetricValue::EndTimestamp(None), 0, &[]);

    let proto_result = df_metric_to_proto(&metric_with_default_timestamp);
    assert!(
        proto_result.is_ok(),
        "should successfully convert default timestamp to proto"
    );

    let proto_metric = proto_result.unwrap();
    let roundtrip_result = metric_proto_to_df(proto_metric);
    assert!(
        roundtrip_result.is_ok(),
        "should successfully roundtrip default timestamp"
    );
}

#[test]
fn each_error_has_its_text() {
    assert_eq!(
        metric_proto_to_df(MetricProto { metric: None, labels: vec![], partition: None }).err(),
        Some(MetricsProtoError::MissingMetric)
    );
    assert_eq!(
        df_metric_to_proto(&metric(
            MetricValue::Custom { name: "c".to_string(), value: CustomMetricValue::MinLatency(1) },
            0,
            &[],
        ))
        .unwrap_err(),
        MetricsProtoError::CustomMetricsNotSupported
    );
    assert_eq!(
        df_metric_to_proto(&metric(MetricValue::OutputBytes(1), 0, &[])).unwrap_err(),
        MetricsProtoError::UnsupportedMetric
    );
    let late = UtcTimestamp { secs: 9223372037, nanos: 0 };
    assert_eq!(
        df_metric_to_proto(&metric(MetricValue::EndTimestamp(Some(late)), 0, &[])).unwrap_err(),
        MetricsProtoError::UnrepresentableTimestamp
    );
}

#[test]
fn timestamps_are_sent_as_nanoseconds() {
    let early = UtcTimestamp { secs: -2, nanos: 750_000_000 };
    let sent =
        df_metric_to_proto(&metric(MetricValue::StartTimestamp(Some(early)), 3, &[])).unwrap();
    match sent.metric {
        Some(MetricValueProto::StartTimestamp(start)) => {
            assert_eq!(start.value, Some(-1_250_000_000));
        }
        other => panic!("{other:?}"),
    }
    assert_eq!(sent.partition, Some(3));
}

#[test]
fn no_time_at_all_is_received_as_one_nanosecond() {
    let mut sent = MetricsSetProto::new();
    sent.push(MetricProto {
        metric: Some(MetricValueProto::ElapsedCompute(
            datafusion_distributed::metrics::proto::ElapsedCompute { value: 0 },
        )),
        labels: vec![],
        partition: None,
    });
    let received = metrics_set_proto_to_df(&sent).unwrap();
    assert!(matches!(received.metrics[0].value, MetricValue::ElapsedCompute(1)));
}
