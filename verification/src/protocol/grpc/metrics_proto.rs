use crate::metrics::clock::{
    time_duration, timed_nanos, timestamp_from_nanos, timestamp_nanos, UtcTimestamp,
};
use crate::metrics::metric::{
    read_sketch, store_sketch, stored_sketch, CustomMetricValue, CustomMetricValueView, Metric,
    MetricValue, MetricValueView, MetricView, MetricsSet,
};
use crate::metrics::proto::{
    labels_from_proto, labels_to_proto, received_value, timestamp_from_proto, CurrentMemoryUsage,
    ElapsedCompute, EndTimestamp, NamedCount, NamedGauge, NamedTime, OutputRows, SpillCount,
    SpilledBytes, SpilledRows, StartTimestamp,
};
use crate::protocol::grpc::worker as pb;
use crate::protocol::grpc::worker::{ValueView, WireMetricView};
use vstd::prelude::*;

verus! {

/// Why a metric cannot be converted.
#[derive(Debug)]
pub enum MetricsProtoError {
    /// Custom metrics that someone else defined are not sent.
    CustomMetricsNotSupported,
    /// The metric is of a kind that is not sent yet.
    UnsupportedMetric,
    /// A timestamp cannot be counted in nanoseconds.
    UnrepresentableTimestamp,
    /// A received metric lacks its measurement.
    MissingMetric,
    /// The bytes of a sketch cannot be read, for the given reason.
    InvalidSketch(String),
    /// A sketch cannot be stored, for the given reason.
    UnstorableSketch(String),
}

/// The contents of a [MetricsProtoError].
#[verifier::ext_equal]
pub enum MetricsProtoErrorView {
    CustomMetricsNotSupported,
    UnsupportedMetric,
    UnrepresentableTimestamp,
    MissingMetric,
    InvalidSketch(Seq<char>),
    UnstorableSketch(Seq<char>),
}

impl View for MetricsProtoError {
    type V = MetricsProtoErrorView;

    open spec fn view(&self) -> MetricsProtoErrorView {
        match self {
            MetricsProtoError::CustomMetricsNotSupported =>
                MetricsProtoErrorView::CustomMetricsNotSupported,
            MetricsProtoError::UnsupportedMetric => MetricsProtoErrorView::UnsupportedMetric,
            MetricsProtoError::UnrepresentableTimestamp =>
                MetricsProtoErrorView::UnrepresentableTimestamp,
            MetricsProtoError::MissingMetric => MetricsProtoErrorView::MissingMetric,
            MetricsProtoError::InvalidSketch(e) => MetricsProtoErrorView::InvalidSketch(e@),
            MetricsProtoError::UnstorableSketch(e) => MetricsProtoErrorView::UnstorableSketch(e@),
        }
    }
}

/// The text of an error.
pub open spec fn metrics_error_text(error: MetricsProtoErrorView) -> Seq<char> {
    match error {
        MetricsProtoErrorView::CustomMetricsNotSupported =>
            "custom metrics are not supported in metrics proto conversion"@,
        MetricsProtoErrorView::UnsupportedMetric =>
            "metric type not supported in proto conversion"@,
        MetricsProtoErrorView::UnrepresentableTimestamp =>
            "encountered a timestamp which cannot be represented via a nanosecond timestamp"@,
        MetricsProtoErrorView::MissingMetric => "proto metric is missing the metric field"@,
        MetricsProtoErrorView::InvalidSketch(e) => "failed to deserialize DDSketch: "@ + e,
        MetricsProtoErrorView::UnstorableSketch(e) => "failed to serialize DDSketch: "@ + e,
    }
}

impl MetricsProtoError {
    /// The text of the error.
    pub fn message(&self) -> (text: String)
        ensures
            text@ == metrics_error_text(self@),
    {
        match self {
            MetricsProtoError::CustomMetricsNotSupported =>
                "custom metrics are not supported in metrics proto conversion".to_owned(),
            MetricsProtoError::UnsupportedMetric =>
                "metric type not supported in proto conversion".to_owned(),
            MetricsProtoError::UnrepresentableTimestamp =>
                "encountered a timestamp which cannot be represented via a nanosecond timestamp".to_owned(),
            MetricsProtoError::MissingMetric =>
                "proto metric is missing the metric field".to_owned(),
            MetricsProtoError::InvalidSketch(e) => {
                let mut text = "failed to deserialize DDSketch: ".to_owned();
                text.push_str(e.as_str());
                text
            },
            MetricsProtoError::UnstorableSketch(e) => {
                let mut text = "failed to serialize DDSketch: ".to_owned();
                text.push_str(e.as_str());
                text
            },
        }
    }
}

/// The nanoseconds that stand for a timestamp on the wire.
pub open spec fn timestamp_to_wire(timestamp: Option<UtcTimestamp>) -> Result<
    Option<i64>,
    MetricsProtoErrorView,
> {
    match timestamp {
        None => Ok(None),
        Some(instant) => match instant.representable_nanos() {
            Some(nanos) => Ok(Some(nanos)),
            None => Err(MetricsProtoErrorView::UnrepresentableTimestamp),
        },
    }
}

/// What stands for a custom measurement on the wire.
pub open spec fn custom_to_wire(name: Seq<char>, value: CustomMetricValueView) -> Result<
    ValueView,
    MetricsProtoErrorView,
> {
    match value {
        CustomMetricValueView::MinLatency(v) => Ok(ValueView::CustomMinLatency { name, value: v as u64 }),
        CustomMetricValueView::MaxLatency(v) => Ok(ValueView::CustomMaxLatency { name, value: v as u64 }),
        CustomMetricValueView::FirstLatency(v) => Ok(ValueView::CustomFirstLatency { name, value: v as u64 }),
        CustomMetricValueView::BytesCounter(v) => Ok(ValueView::CustomBytesCount { name, value: v as u64 }),
        CustomMetricValueView::MaxGauge(v) => Ok(ValueView::CustomMaxGauge { name, value: v as u64 }),
        CustomMetricValueView::AvgLatency { nanos_sum, count } => Ok(
            ValueView::CustomAvgLatency { name, nanos_sum: nanos_sum as u64, count: count as u64 },
        ),
        CustomMetricValueView::P50Latency(sketch) => Ok(
            ValueView::CustomP50Latency { name, sketch_bytes: sketch },
        ),
        CustomMetricValueView::P75Latency(sketch) => Ok(
            ValueView::CustomP75Latency { name, sketch_bytes: sketch },
        ),
        CustomMetricValueView::P95Latency(sketch) => Ok(
            ValueView::CustomP95Latency { name, sketch_bytes: sketch },
        ),
        CustomMetricValueView::P99Latency(sketch) => Ok(
            ValueView::CustomP99Latency { name, sketch_bytes: sketch },
        ),
        CustomMetricValueView::Foreign => Err(MetricsProtoErrorView::CustomMetricsNotSupported),
    }
}

/// What stands for a measurement on the wire.
pub open spec fn value_to_wire(value: MetricValueView) -> Result<
    ValueView,
    MetricsProtoErrorView,
> {
    match value {
        MetricValueView::OutputRows(v) => Ok(ValueView::OutputRows(v as u64)),
        MetricValueView::ElapsedCompute(v) => Ok(ValueView::ElapsedCompute(v as u64)),
        MetricValueView::SpillCount(v) => Ok(ValueView::SpillCount(v as u64)),
        MetricValueView::SpilledBytes(v) => Ok(ValueView::SpilledBytes(v as u64)),
        MetricValueView::SpilledRows(v) => Ok(ValueView::SpilledRows(v as u64)),
        MetricValueView::CurrentMemoryUsage(v) => Ok(ValueView::CurrentMemoryUsage(v as u64)),
        MetricValueView::OutputBytes(v) => Ok(ValueView::OutputBytes(v as u64)),
        MetricValueView::OutputBatches(v) => Ok(ValueView::OutputBatches(v as u64)),
        MetricValueView::Count { name, count } => Ok(ValueView::Count { name, value: count as u64 }),
        MetricValueView::Gauge { name, gauge } => Ok(ValueView::Gauge { name, value: gauge as u64 }),
        MetricValueView::Time { name, time } => Ok(ValueView::Time { name, value: time as u64 }),
        MetricValueView::StartTimestamp(timestamp) => match timestamp_to_wire(timestamp) {
            Ok(nanos) => Ok(ValueView::StartTimestamp(nanos)),
            Err(e) => Err(e),
        },
        MetricValueView::EndTimestamp(timestamp) => match timestamp_to_wire(timestamp) {
            Ok(nanos) => Ok(ValueView::EndTimestamp(nanos)),
            Err(e) => Err(e),
        },
        MetricValueView::PruningMetrics { name, pruned, matched } => Ok(
            ValueView::PruningMetrics { name, pruned: pruned as u64, matched: matched as u64 },
        ),
        MetricValueView::Ratio { name, part, total } => Ok(
            ValueView::Ratio { name, part: part as u64, total: total as u64 },
        ),
        MetricValueView::PeakMemoryUsage { .. } => Err(MetricsProtoErrorView::UnsupportedMetric),
        MetricValueView::Custom { name, value } => custom_to_wire(name, value),
    }
}

/// The sketch metric that some bytes on the wire stand for.
pub open spec fn sketch_from_wire(bytes: Seq<u8>) -> Result<Seq<u8>, MetricsProtoErrorView> {
    match stored_sketch(bytes) {
        Ok(contents) => Ok(contents),
        Err(e) => Err(MetricsProtoErrorView::InvalidSketch(e)),
    }
}

/// The measurement that something on the wire stands for. Times pass through a timer, which counts
/// at least one nanosecond.
pub open spec fn value_from_wire(value: ValueView) -> Result<
    MetricValueView,
    MetricsProtoErrorView,
> {
    match value {
        ValueView::OutputRows(v) => Ok(MetricValueView::OutputRows(v as usize)),
        ValueView::ElapsedCompute(v) => Ok(MetricValueView::ElapsedCompute(timed_nanos(v))),
        ValueView::SpillCount(v) => Ok(MetricValueView::SpillCount(v as usize)),
        ValueView::SpilledBytes(v) => Ok(MetricValueView::SpilledBytes(v as usize)),
        ValueView::SpilledRows(v) => Ok(MetricValueView::SpilledRows(v as usize)),
        ValueView::CurrentMemoryUsage(v) => Ok(MetricValueView::CurrentMemoryUsage(v as usize)),
        ValueView::OutputBytes(v) => Ok(MetricValueView::OutputBytes(v as usize)),
        ValueView::OutputBatches(v) => Ok(MetricValueView::OutputBatches(v as usize)),
        ValueView::Count { name, value } => Ok(MetricValueView::Count { name, count: value as usize }),
        ValueView::Gauge { name, value } => Ok(MetricValueView::Gauge { name, gauge: value as usize }),
        ValueView::Time { name, value } => Ok(MetricValueView::Time { name, time: timed_nanos(value) }),
        ValueView::StartTimestamp(nanos) => Ok(MetricValueView::StartTimestamp(timestamp_from_proto(nanos))),
        ValueView::EndTimestamp(nanos) => Ok(MetricValueView::EndTimestamp(timestamp_from_proto(nanos))),
        ValueView::PruningMetrics { name, pruned, matched } => Ok(
            MetricValueView::PruningMetrics { name, pruned: pruned as usize, matched: matched as usize },
        ),
        ValueView::Ratio { name, part, total } => Ok(
            MetricValueView::Ratio { name, part: part as usize, total: total as usize },
        ),
        ValueView::CustomMinLatency { name, value } => Ok(
            MetricValueView::Custom {
                name,
                value: CustomMetricValueView::MinLatency(value as usize),
            },
        ),
        ValueView::CustomMaxLatency { name, value } => Ok(
            MetricValueView::Custom {
                name,
                value: CustomMetricValueView::MaxLatency(value as usize),
            },
        ),
        ValueView::CustomFirstLatency { name, value } => Ok(
            MetricValueView::Custom {
                name,
                value: CustomMetricValueView::FirstLatency(value as usize),
            },
        ),
        ValueView::CustomBytesCount { name, value } => Ok(
            MetricValueView::Custom {
                name,
                value: CustomMetricValueView::BytesCounter(value as usize),
            },
        ),
        ValueView::CustomMaxGauge { name, value } => Ok(
            MetricValueView::Custom {
                name,
                value: CustomMetricValueView::MaxGauge(value as usize),
            },
        ),
        ValueView::CustomAvgLatency { name, nanos_sum, count } => Ok(
            MetricValueView::Custom {
                name,
                value: CustomMetricValueView::AvgLatency {
                    nanos_sum: nanos_sum as usize,
                    count: count as usize,
                },
            },
        ),
        ValueView::CustomP50Latency { name, sketch_bytes } => match sketch_from_wire(sketch_bytes) {
            Ok(contents) => Ok(
                MetricValueView::Custom {
                    name,
                    value: CustomMetricValueView::P50Latency(contents),
                },
            ),
            Err(e) => Err(e),
        },
        ValueView::CustomP75Latency { name, sketch_bytes } => match sketch_from_wire(sketch_bytes) {
            Ok(contents) => Ok(
                MetricValueView::Custom {
                    name,
                    value: CustomMetricValueView::P75Latency(contents),
                },
            ),
            Err(e) => Err(e),
        },
        ValueView::CustomP95Latency { name, sketch_bytes } => match sketch_from_wire(sketch_bytes) {
            Ok(contents) => Ok(
                MetricValueView::Custom {
                    name,
                    value: CustomMetricValueView::P95Latency(contents),
                },
            ),
            Err(e) => Err(e),
        },
        ValueView::CustomP99Latency { name, sketch_bytes } => match sketch_from_wire(sketch_bytes) {
            Ok(contents) => Ok(
                MetricValueView::Custom {
                    name,
                    value: CustomMetricValueView::P99Latency(contents),
                },
            ),
            Err(e) => Err(e),
        },
    }
}

/// What stands for a metric on the wire.
pub open spec fn metric_to_wire(metric: MetricView) -> Result<
    WireMetricView,
    MetricsProtoErrorView,
> {
    match value_to_wire(metric.value) {
        Ok(value) => Ok(
            WireMetricView {
                value: Some(value),
                labels: metric.labels,
                partition: match metric.partition {
                    Some(p) => Some(p as u64),
                    None => None,
                },
            },
        ),
        Err(e) => Err(e),
    }
}

/// The metric that something on the wire stands for.
pub open spec fn metric_from_wire(metric: WireMetricView) -> Result<
    MetricView,
    MetricsProtoErrorView,
> {
    match metric.value {
        Some(value) => match value_from_wire(value) {
            Ok(value) => Ok(
                MetricView {
                    value,
                    labels: metric.labels,
                    partition: match metric.partition {
                        Some(p) => Some(p as usize),
                        None => None,
                    },
                },
            ),
            Err(e) => Err(e),
        },
        None => Err(MetricsProtoErrorView::MissingMetric),
    }
}

/// Whether a metric is left out of what is sent, rather than failing the whole set.
pub open spec fn is_left_out(metric: MetricView) -> bool {
    match metric_to_wire(metric) {
        Err(MetricsProtoErrorView::CustomMetricsNotSupported) => true,
        Err(MetricsProtoErrorView::UnsupportedMetric) => true,
        _ => false,
    }
}

/// What stands for a set of metrics on the wire: the metrics of supported kinds, in order. The
/// first of them that cannot be converted fails the set.
pub open spec fn set_to_wire(metrics: Seq<MetricView>) -> Result<
    Seq<WireMetricView>,
    MetricsProtoErrorView,
>
    decreases metrics.len(),
{
    if metrics.len() == 0 {
        Ok(Seq::empty())
    } else {
        match set_to_wire(metrics.drop_last()) {
            Err(e) => Err(e),
            Ok(front) => if is_left_out(metrics.last()) {
                Ok(front)
            } else {
                match metric_to_wire(metrics.last()) {
                    Ok(last) => Ok(front.push(last)),
                    Err(e) => Err(e),
                }
            },
        }
    }
}

/// The set of metrics that something on the wire stands for.
pub open spec fn set_from_wire(metrics: Seq<WireMetricView>) -> Result<
    Seq<MetricView>,
    MetricsProtoErrorView,
>
    decreases metrics.len(),
{
    if metrics.len() == 0 {
        Ok(Seq::empty())
    } else {
        match set_from_wire(metrics.drop_last()) {
            Err(e) => Err(e),
            Ok(front) => match metric_from_wire(metrics.last()) {
                Ok(last) => Ok(front.push(last)),
                Err(e) => Err(e),
            },
        }
    }
}

fn timestamp_value(timestamp: Option<UtcTimestamp>) -> (result: Result<
    Option<i64>,
    MetricsProtoError,
>)
    ensures
        match (result, timestamp_to_wire(timestamp)) {
            (Ok(nanos), Ok(expected)) => nanos == expected,
            (Err(e), Err(expected)) => e@ == expected,
            _ => false,
        },
{
    match timestamp {
        None => Ok(None),
        Some(instant) => match timestamp_nanos(instant) {
            Some(nanos) => Ok(Some(nanos)),
            None => Err(MetricsProtoError::UnrepresentableTimestamp),
        },
    }
}

fn read_timestamp(nanos: Option<i64>) -> (timestamp: Option<UtcTimestamp>)
    ensures
        timestamp == timestamp_from_proto(nanos),
{
    match nanos {
        None => None,
        Some(nanos) => Some(timestamp_from_nanos(nanos)),
    }
}

fn custom_value_to_proto(name: &String, value: &CustomMetricValue) -> (result: Result<
    pb::Value,
    MetricsProtoError,
>)
    ensures
        match (result, custom_to_wire(name@, value@)) {
            (Ok(v), Ok(expected)) => v@ == expected,
            (Err(e), Err(expected)) => e@ == expected,
            _ => false,
        },
        result is Ok ==> sketch_is_readable(
            MetricValueView::Custom { name: name@, value: value@ },
        ),
{
    let name = name.clone();
    let converted = match value {
        CustomMetricValue::MinLatency(v) => pb::Value::CustomMinLatency(
            pb::MinLatency { name, value: *v as u64 },
        ),
        CustomMetricValue::MaxLatency(v) => pb::Value::CustomMaxLatency(
            pb::MaxLatency { name, value: *v as u64 },
        ),
        CustomMetricValue::FirstLatency(v) => pb::Value::CustomFirstLatency(
            pb::FirstLatency { name, value: *v as u64 },
        ),
        CustomMetricValue::BytesCounter(v) => pb::Value::CustomBytesCount(
            pb::BytesCount { name, value: *v as u64 },
        ),
        CustomMetricValue::MaxGauge(v) => pb::Value::CustomMaxGauge(
            pb::MaxGauge { name, value: *v as u64 },
        ),
        CustomMetricValue::AvgLatency { nanos_sum, count } => pb::Value::CustomAvgLatency(
            pb::AvgLatency { name, nanos_sum: *nanos_sum as u64, count: *count as u64 },
        ),
        CustomMetricValue::P50Latency(sketch) => match store_sketch(sketch) {
            Ok(sketch_bytes) => pb::Value::CustomP50Latency(
                pb::PercentileLatency { name, sketch_bytes },
            ),
            Err(e) => {
                return Err(MetricsProtoError::UnstorableSketch(e));
            },
        },
        CustomMetricValue::P75Latency(sketch) => match store_sketch(sketch) {
            Ok(sketch_bytes) => pb::Value::CustomP75Latency(
                pb::PercentileLatency { name, sketch_bytes },
            ),
            Err(e) => {
                return Err(MetricsProtoError::UnstorableSketch(e));
            },
        },
        CustomMetricValue::P95Latency(sketch) => match store_sketch(sketch) {
            Ok(sketch_bytes) => pb::Value::CustomP95Latency(
                pb::PercentileLatency { name, sketch_bytes },
            ),
            Err(e) => {
                return Err(MetricsProtoError::UnstorableSketch(e));
            },
        },
        CustomMetricValue::P99Latency(sketch) => match store_sketch(sketch) {
            Ok(sketch_bytes) => pb::Value::CustomP99Latency(
                pb::PercentileLatency { name, sketch_bytes },
            ),
            Err(e) => {
                return Err(MetricsProtoError::UnstorableSketch(e));
            },
        },
        CustomMetricValue::Foreign => {
            return Err(MetricsProtoError::CustomMetricsNotSupported);
        },
    };
    Ok(converted)
}

/// Converts a metric to what is sent over the wire.
pub fn df_metric_to_proto(metric: &Metric) -> (result: Result<pb::Metric, MetricsProtoError>)
    ensures
        match (result, metric_to_wire(metric@)) {
            (Ok(proto), Ok(expected)) => proto@ == expected,
            (Err(e), Err(expected)) => e@ == expected,
            _ => false,
        },
        result is Ok ==> sketch_is_readable(metric@.value),
{
    let value = match &metric.value {
        MetricValue::OutputRows(v) => pb::Value::OutputRows(OutputRows { value: *v as u64 }),
        MetricValue::ElapsedCompute(v) => pb::Value::ElapsedCompute(ElapsedCompute { value: *v as u64 }),
        MetricValue::SpillCount(v) => pb::Value::SpillCount(SpillCount { value: *v as u64 }),
        MetricValue::SpilledBytes(v) => pb::Value::SpilledBytes(SpilledBytes { value: *v as u64 }),
        MetricValue::SpilledRows(v) => pb::Value::SpilledRows(SpilledRows { value: *v as u64 }),
        MetricValue::CurrentMemoryUsage(v) => pb::Value::CurrentMemoryUsage(CurrentMemoryUsage { value: *v as u64 }),
        MetricValue::OutputBytes(v) => pb::Value::OutputBytes(pb::OutputBytes { value: *v as u64 }),
        MetricValue::OutputBatches(v) => pb::Value::OutputBatches(pb::OutputBatches { value: *v as u64 }),
        MetricValue::Count { name, count } => pb::Value::Count(
            NamedCount { name: name.clone(), value: *count as u64 },
        ),
        MetricValue::Gauge { name, gauge } => pb::Value::Gauge(
            NamedGauge { name: name.clone(), value: *gauge as u64 },
        ),
        MetricValue::Time { name, time } => pb::Value::Time(
            NamedTime { name: name.clone(), value: *time as u64 },
        ),
        MetricValue::StartTimestamp(timestamp) => match timestamp_value(*timestamp) {
            Ok(value) => pb::Value::StartTimestamp(StartTimestamp { value }),
            Err(e) => {
                return Err(e);
            },
        },
        MetricValue::EndTimestamp(timestamp) => match timestamp_value(*timestamp) {
            Ok(value) => pb::Value::EndTimestamp(EndTimestamp { value }),
            Err(e) => {
                return Err(e);
            },
        },
        MetricValue::PruningMetrics { name, pruned, matched } => pb::Value::PruningMetrics(
            pb::NamedPruningMetrics { name: name.clone(), pruned: *pruned as u64, matched: *matched as u64 },
        ),
        MetricValue::Ratio { name, part, total } => pb::Value::Ratio(
            pb::NamedRatio { name: name.clone(), part: *part as u64, total: *total as u64 },
        ),
        MetricValue::PeakMemoryUsage { .. } => {
            return Err(MetricsProtoError::UnsupportedMetric);
        },
        MetricValue::Custom { name, value } => match custom_value_to_proto(name, value) {
            Ok(value) => value,
            Err(e) => {
                return Err(e);
            },
        },
    };
    let partition = match metric.partition {
        Some(p) => Some(p as u64),
        None => None,
    };
    Ok(pb::Metric { value: Some(value), partition, labels: labels_to_proto(&metric.labels) })
}

/// Converts something that was received into a metric.
pub fn metric_proto_to_df(metric: pb::Metric) -> (result: Result<Metric, MetricsProtoError>)
    ensures
        match (result, metric_from_wire(metric@)) {
            (Ok(converted), Ok(expected)) => converted@ == expected,
            (Err(e), Err(expected)) => e@ == expected,
            _ => false,
        },
{
    let value = match metric.value {
        None => {
            return Err(MetricsProtoError::MissingMetric);
        },
        Some(pb::Value::OutputRows(v)) => MetricValue::OutputRows(v.value as usize),
        Some(pb::Value::ElapsedCompute(v)) => MetricValue::ElapsedCompute(time_duration(v.value)),
        Some(pb::Value::SpillCount(v)) => MetricValue::SpillCount(v.value as usize),
        Some(pb::Value::SpilledBytes(v)) => MetricValue::SpilledBytes(v.value as usize),
        Some(pb::Value::SpilledRows(v)) => MetricValue::SpilledRows(v.value as usize),
        Some(pb::Value::CurrentMemoryUsage(v)) => MetricValue::CurrentMemoryUsage(v.value as usize),
        Some(pb::Value::OutputBytes(v)) => MetricValue::OutputBytes(v.value as usize),
        Some(pb::Value::OutputBatches(v)) => MetricValue::OutputBatches(v.value as usize),
        Some(pb::Value::Count(v)) => MetricValue::Count {
            count: v.value as usize,
            name: v.name,
        },
        Some(pb::Value::Gauge(v)) => MetricValue::Gauge {
            gauge: v.value as usize,
            name: v.name,
        },
        Some(pb::Value::Time(v)) => MetricValue::Time {
            time: time_duration(v.value),
            name: v.name,
        },
        Some(pb::Value::StartTimestamp(v)) => MetricValue::StartTimestamp(read_timestamp(v.value)),
        Some(pb::Value::EndTimestamp(v)) => MetricValue::EndTimestamp(read_timestamp(v.value)),
        Some(pb::Value::PruningMetrics(v)) => MetricValue::PruningMetrics {
            pruned: v.pruned as usize,
            matched: v.matched as usize,
            name: v.name,
        },
        Some(pb::Value::Ratio(v)) => MetricValue::Ratio {
            part: v.part as usize,
            total: v.total as usize,
            name: v.name,
        },
        Some(pb::Value::CustomMinLatency(v)) => MetricValue::Custom {
            value: CustomMetricValue::MinLatency(v.value as usize),
            name: v.name,
        },
        Some(pb::Value::CustomMaxLatency(v)) => MetricValue::Custom {
            value: CustomMetricValue::MaxLatency(v.value as usize),
            name: v.name,
        },
        Some(pb::Value::CustomFirstLatency(v)) => MetricValue::Custom {
            value: CustomMetricValue::FirstLatency(v.value as usize),
            name: v.name,
        },
        Some(pb::Value::CustomBytesCount(v)) => MetricValue::Custom {
            value: CustomMetricValue::BytesCounter(v.value as usize),
            name: v.name,
        },
        Some(pb::Value::CustomMaxGauge(v)) => MetricValue::Custom {
            value: CustomMetricValue::MaxGauge(v.value as usize),
            name: v.name,
        },
        Some(pb::Value::CustomAvgLatency(v)) => MetricValue::Custom {
            value: CustomMetricValue::AvgLatency {
                nanos_sum: v.nanos_sum as usize,
                count: v.count as usize,
            },
            name: v.name,
        },
        Some(pb::Value::CustomP50Latency(v)) => match read_sketch(&v.sketch_bytes) {
            Ok(sketch) => MetricValue::Custom {
                value: CustomMetricValue::P50Latency(sketch),
                name: v.name,
            },
            Err(e) => {
                return Err(MetricsProtoError::InvalidSketch(e));
            },
        },
        Some(pb::Value::CustomP75Latency(v)) => match read_sketch(&v.sketch_bytes) {
            Ok(sketch) => MetricValue::Custom {
                value: CustomMetricValue::P75Latency(sketch),
                name: v.name,
            },
            Err(e) => {
                return Err(MetricsProtoError::InvalidSketch(e));
            },
        },
        Some(pb::Value::CustomP95Latency(v)) => match read_sketch(&v.sketch_bytes) {
            Ok(sketch) => MetricValue::Custom {
                value: CustomMetricValue::P95Latency(sketch),
                name: v.name,
            },
            Err(e) => {
                return Err(MetricsProtoError::InvalidSketch(e));
            },
        },
        Some(pb::Value::CustomP99Latency(v)) => match read_sketch(&v.sketch_bytes) {
            Ok(sketch) => MetricValue::Custom {
                value: CustomMetricValue::P99Latency(sketch),
                name: v.name,
            },
            Err(e) => {
                return Err(MetricsProtoError::InvalidSketch(e));
            },
        },
    };
    let partition = match metric.partition {
        Some(p) => Some(p as usize),
        None => None,
    };
    Ok(Metric { value, partition, labels: labels_from_proto(metric.labels) })
}

proof fn lemma_set_to_wire_prefix(metrics: Seq<MetricView>, i: int)
    requires
        0 <= i <= metrics.len(),
        set_to_wire(metrics.take(i)) is Err,
    ensures
        set_to_wire(metrics) == set_to_wire(metrics.take(i)),
    decreases metrics.len() - i,
{
    if i == metrics.len() {
        assert(metrics.take(i) =~= metrics);
    } else {
        assert(metrics.take(i + 1).drop_last() =~= metrics.take(i));
        lemma_set_to_wire_prefix(metrics, i + 1);
    }
}

proof fn lemma_set_from_wire_prefix(metrics: Seq<WireMetricView>, i: int)
    requires
        0 <= i <= metrics.len(),
        set_from_wire(metrics.take(i)) is Err,
    ensures
        set_from_wire(metrics) == set_from_wire(metrics.take(i)),
    decreases metrics.len() - i,
{
    if i == metrics.len() {
        assert(metrics.take(i) =~= metrics);
    } else {
        assert(metrics.take(i + 1).drop_last() =~= metrics.take(i));
        lemma_set_from_wire_prefix(metrics, i + 1);
    }
}

/// Converts a set of metrics to what is sent over the wire. Metrics of kinds that are not sent are
/// left out; any other error is returned.
pub fn df_metrics_set_to_proto(metrics_set: &MetricsSet) -> (result: Result<
    pb::MetricsSet,
    MetricsProtoError,
>)
    ensures
        match (result, set_to_wire(metrics_set@)) {
            (Ok(set), Ok(expected)) => set@ == expected,
            (Err(e), Err(expected)) => e@ == expected,
            _ => false,
        },
        result is Ok ==> forall|i: int|
            0 <= i < metrics_set@.len() && metric_to_wire(metrics_set@[i]) is Ok
                ==> sketch_is_readable(#[trigger] metrics_set@[i].value),
{
    let mut set = pb::MetricsSet::new();
    let ghost views = metrics_set@;
    for i in 0..metrics_set.metrics.len()
        invariant
            views == metrics_set@,
            forall|j: int|
                0 <= j < i && metric_to_wire(views[j]) is Ok ==> sketch_is_readable(
                    #[trigger] views[j].value,
                ),
            set_to_wire(views.take(i as int)) == Ok::<
                Seq<WireMetricView>,
                MetricsProtoErrorView,
            >(set@),
    {
        proof {
            assert(views.take(i + 1).drop_last() =~= views.take(i as int));
        }
        match df_metric_to_proto(&metrics_set.metrics[i]) {
            Ok(metric) => set.push(metric),
            Err(MetricsProtoError::CustomMetricsNotSupported) => {},
            Err(MetricsProtoError::UnsupportedMetric) => {},
            Err(e) => {
                proof {
                    lemma_set_to_wire_prefix(views, i + 1);
                }
                return Err(e);
            },
        }
    }
    proof {
        assert(views.take(views.len() as int) =~= views);
    }
    Ok(set)
}

/// Converts something that was received into a set of metrics.
pub fn metrics_set_proto_to_df(metrics_set_proto: &pb::MetricsSet) -> (result: Result<
    MetricsSet,
    MetricsProtoError,
>)
    ensures
        match (result, set_from_wire(metrics_set_proto@)) {
            (Ok(set), Ok(expected)) => set@ == expected,
            (Err(e), Err(expected)) => e@ == expected,
            _ => false,
        },
{
    let ghost views = metrics_set_proto@;
    let mut set = MetricsSet::new();
    for i in 0..metrics_set_proto.metrics.len()
        invariant
            views == metrics_set_proto@,
            set_from_wire(views.take(i as int)) == Ok::<
                Seq<MetricView>,
                MetricsProtoErrorView,
            >(set@),
    {
        proof {
            assert(views.take(i + 1).drop_last() =~= views.take(i as int));
        }
        match metric_proto_to_df(metrics_set_proto.metrics[i].clone()) {
            Ok(metric) => set.push(metric),
            Err(e) => {
                proof {
                    lemma_set_from_wire_prefix(views, i + 1);
                }
                return Err(e);
            },
        }
    }
    proof {
        assert(views.take(views.len() as int) =~= views);
    }
    Ok(set)
}

/// A metric that can be sent is received as it was: with the same partition, the same labels and
/// the same measurement, up to what [received_value] says of times. A sketch is received as the
/// same sketch if the bytes that store it are read back, which is so for every sketch that was
/// stored.
pub proof fn metrics_survive_the_wire(metric: MetricView)
    ensures
        metric_to_wire(metric) matches Ok(proto) ==> sketch_is_readable(metric.value)
            ==> metric_from_wire(proto) == Ok::<MetricView, MetricsProtoErrorView>(
            MetricView { value: received_value(metric.value), ..metric },
        ),
{
    if let Some(p) = metric.partition {
        assert((p as u64) as usize == p);
    }
    match metric.value {
        MetricValueView::OutputRows(v) => {
            assert((v as u64) as usize == v);
        },
        MetricValueView::ElapsedCompute(v) => {
            assert((v as u64) as usize == v);
        },
        MetricValueView::SpillCount(v) => {
            assert((v as u64) as usize == v);
        },
        MetricValueView::SpilledBytes(v) => {
            assert((v as u64) as usize == v);
        },
        MetricValueView::SpilledRows(v) => {
            assert((v as u64) as usize == v);
        },
        MetricValueView::CurrentMemoryUsage(v) => {
            assert((v as u64) as usize == v);
        },
        MetricValueView::OutputBytes(v) => {
            assert((v as u64) as usize == v);
        },
        MetricValueView::OutputBatches(v) => {
            assert((v as u64) as usize == v);
        },
        MetricValueView::Count { count: v, .. } => {
            assert((v as u64) as usize == v);
        },
        MetricValueView::Gauge { gauge: v, .. } => {
            assert((v as u64) as usize == v);
        },
        MetricValueView::Time { time: v, .. } => {
            assert((v as u64) as usize == v);
        },
        MetricValueView::PruningMetrics { pruned: v, matched: u, .. } => {
            assert((v as u64) as usize == v && (u as u64) as usize == u);
        },
        MetricValueView::Ratio { part: v, total: u, .. } => {
            assert((v as u64) as usize == v && (u as u64) as usize == u);
        },
        MetricValueView::Custom { value, .. } => {
            match value {
                CustomMetricValueView::MinLatency(v) => {
                    assert((v as u64) as usize == v);
                },
                CustomMetricValueView::MaxLatency(v) => {
                    assert((v as u64) as usize == v);
                },
                CustomMetricValueView::FirstLatency(v) => {
                    assert((v as u64) as usize == v);
                },
                CustomMetricValueView::BytesCounter(v) => {
                    assert((v as u64) as usize == v);
                },
                CustomMetricValueView::MaxGauge(v) => {
                    assert((v as u64) as usize == v);
                },
                CustomMetricValueView::AvgLatency { nanos_sum: v, count: u } => {
                    assert((v as u64) as usize == v && (u as u64) as usize == u);
                },
                _ => {},
            }
        },
        _ => {},
    }
}

/// If the measurement is a sketch, the bytes that store it are read back as the same sketch.
pub open spec fn sketch_is_readable(value: MetricValueView) -> bool {
    match value {
        MetricValueView::Custom { value, .. } => match value {
            CustomMetricValueView::P50Latency(s) => stored_sketch(s) == Ok::<Seq<u8>, Seq<char>>(s),
            CustomMetricValueView::P75Latency(s) => stored_sketch(s) == Ok::<Seq<u8>, Seq<char>>(s),
            CustomMetricValueView::P95Latency(s) => stored_sketch(s) == Ok::<Seq<u8>, Seq<char>>(s),
            CustomMetricValueView::P99Latency(s) => stored_sketch(s) == Ok::<Seq<u8>, Seq<char>>(s),
            _ => true,
        },
        _ => true,
    }
}

/// When all the metrics of a set can be sent, sending the set and receiving it gives back every
/// metric, in order.
pub proof fn metric_sets_survive_the_wire(metrics: Seq<MetricView>)
    requires
        forall|i: int| 0 <= i < metrics.len() ==> metric_to_wire(#[trigger] metrics[i]) is Ok,
    ensures
        set_to_wire(metrics) is Ok,
        set_to_wire(metrics)->Ok_0.len() == metrics.len(),
        (forall|i: int| 0 <= i < metrics.len() ==> sketch_is_readable(#[trigger] metrics[i].value))
            ==> set_from_wire(set_to_wire(metrics)->Ok_0) == Ok::<
            Seq<MetricView>,
            MetricsProtoErrorView,
        >(
            Seq::new(
                metrics.len(),
                |i: int| MetricView { value: received_value(metrics[i].value), ..metrics[i] },
            ),
        ),
    decreases metrics.len(),
{
    let received = Seq::new(
        metrics.len(),
        |i: int| MetricView { value: received_value(metrics[i].value), ..metrics[i] },
    );
    if metrics.len() == 0 {
        assert(received =~= Seq::empty());
    } else {
        let front = metrics.drop_last();
        let n = metrics.len() - 1;
        assert forall|i: int| 0 <= i < front.len() implies metric_to_wire(#[trigger] front[i]) is Ok by {
            assert(metric_to_wire(metrics[i]) is Ok);
        }
        metric_sets_survive_the_wire(front);
        assert(metric_to_wire(metrics[n]) is Ok);
        metrics_survive_the_wire(metrics[n]);
        let protos = set_to_wire(metrics)->Ok_0;
        assert(protos.drop_last() =~= set_to_wire(front)->Ok_0);
        if forall|i: int|
            0 <= i < metrics.len() ==> sketch_is_readable(#[trigger] metrics[i].value) {
            assert forall|i: int| 0 <= i < front.len() implies sketch_is_readable(
                #[trigger] front[i].value,
            ) by {
                assert(sketch_is_readable(metrics[i].value));
            }
            assert(sketch_is_readable(metrics[n].value));
            assert(received =~= Seq::new(
                front.len(),
                |i: int| MetricView { value: received_value(front[i].value), ..front[i] },
            ).push(received[n]));
        }
    }
}

/// A metric of a kind that cannot be sent is passed over: the others are sent as if it were not there.
pub proof fn unsupported_metrics_are_passed_over(metrics: Seq<MetricView>, i: int)
    requires
        0 <= i < metrics.len(),
        metric_to_wire(metrics[i]) matches Err(e) && (e is CustomMetricsNotSupported
            || e is UnsupportedMetric),
    ensures
        set_to_wire(metrics) == set_to_wire(metrics.remove(i)),
    decreases metrics.len(),
{
    let front = metrics.drop_last();
    if i == metrics.len() - 1 {
        assert(metrics.remove(i) =~= front);
    } else {
        unsupported_metrics_are_passed_over(front, i);
        assert(metrics.remove(i).drop_last() =~= front.remove(i));
        assert(metrics.remove(i).last() == metrics.last());
    }
}

/// Every metric that can be sent is in what is sent, and a metric that fails for another reason than its
/// kind fails the whole set.
pub proof fn supported_metrics_are_sent(metrics: Seq<MetricView>, i: int)
    requires
        0 <= i < metrics.len(),
    ensures
        metric_to_wire(metrics[i]) matches Ok(sent) ==> (set_to_wire(metrics) matches Ok(all) ==> all.contains(
            sent,
        )),
        metric_to_wire(metrics[i]) matches Err(e) ==> (!(e is CustomMetricsNotSupported)
            && !(e is UnsupportedMetric) ==> set_to_wire(metrics) is Err),
    decreases metrics.len(),
{
    let front = metrics.drop_last();
    if i < metrics.len() - 1 {
        supported_metrics_are_sent(front, i);
        if let (Ok(sent), Ok(before), Ok(all)) = (metric_to_wire(metrics[i]), set_to_wire(front), set_to_wire(metrics)) {
            let k = choose|k: int| 0 <= k < before.len() && before[k] == sent;
            assert(all[k] == sent);
        }
    } else if let (Ok(sent), Ok(all)) = (metric_to_wire(metrics[i]), set_to_wire(metrics)) {
        assert(all[all.len() - 1] == sent);
    }
}

} // verus!
