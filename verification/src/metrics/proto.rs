use crate::metrics::clock::{
    time_duration, timed_nanos, timestamp_at, timestamp_from_nanos, timestamp_nanos,
    timestamps_survive_nanos, UtcTimestamp,
};
use crate::metrics::metric::{
    label_views, Label, LabelView, Metric, MetricValue, MetricValueView, MetricView,
    MetricsSet,
};
use vstd::prelude::*;

verus! {

/// The rows that a node has put out.
#[derive(Debug, Clone, Copy, PartialEq, Eq, Structural)]
pub struct OutputRows {
    pub value: u64,
}

/// The time that a node has spent computing, in nanoseconds.
#[derive(Debug, Clone, Copy, PartialEq, Eq, Structural)]
pub struct ElapsedCompute {
    pub value: u64,
}

/// How often a node has spilled to disk.
#[derive(Debug, Clone, Copy, PartialEq, Eq, Structural)]
pub struct SpillCount {
    pub value: u64,
}

/// The bytes that a node has spilled to disk.
#[derive(Debug, Clone, Copy, PartialEq, Eq, Structural)]
pub struct SpilledBytes {
    pub value: u64,
}

/// The rows that a node has spilled to disk.
#[derive(Debug, Clone, Copy, PartialEq, Eq, Structural)]
pub struct SpilledRows {
    pub value: u64,
}

/// The bytes of memory that a node holds.
#[derive(Debug, Clone, Copy, PartialEq, Eq, Structural)]
pub struct CurrentMemoryUsage {
    pub value: u64,
}

/// A counter with a name.
#[derive(Debug)]
pub struct NamedCount {
    pub name: String,
    pub value: u64,
}

/// A gauge with a name.
#[derive(Debug)]
pub struct NamedGauge {
    pub name: String,
    pub value: u64,
}

/// A time with a name, in nanoseconds.
#[derive(Debug)]
pub struct NamedTime {
    pub name: String,
    pub value: u64,
}

/// When a node started, in nanoseconds since the epoch.
#[derive(Debug, Clone, Copy, PartialEq, Eq, Structural)]
pub struct StartTimestamp {
    pub value: Option<i64>,
}

/// When a node ended, in nanoseconds since the epoch.
#[derive(Debug, Clone, Copy, PartialEq, Eq, Structural)]
pub struct EndTimestamp {
    pub value: Option<i64>,
}

/// A label as it is sent over the wire.
#[derive(Debug)]
pub struct ProtoLabel {
    pub name: String,
    pub value: String,
}

impl View for ProtoLabel {
    type V = LabelView;

    open spec fn view(&self) -> LabelView {
        LabelView { name: self.name@, value: self.value@ }
    }
}

/// A measurement as it is sent over the wire.
#[derive(Debug)]
pub enum MetricValueProto {
    OutputRows(OutputRows),
    ElapsedCompute(ElapsedCompute),
    SpillCount(SpillCount),
    SpilledBytes(SpilledBytes),
    SpilledRows(SpilledRows),
    CurrentMemoryUsage(CurrentMemoryUsage),
    Count(NamedCount),
    Gauge(NamedGauge),
    Time(NamedTime),
    StartTimestamp(StartTimestamp),
    EndTimestamp(EndTimestamp),
}

/// The contents of a [MetricValueProto].
#[verifier::ext_equal]
pub enum MetricValueProtoView {
    OutputRows(u64),
    ElapsedCompute(u64),
    SpillCount(u64),
    SpilledBytes(u64),
    SpilledRows(u64),
    CurrentMemoryUsage(u64),
    Count { name: Seq<char>, value: u64 },
    Gauge { name: Seq<char>, value: u64 },
    Time { name: Seq<char>, value: u64 },
    StartTimestamp(Option<i64>),
    EndTimestamp(Option<i64>),
}

impl View for MetricValueProto {
    type V = MetricValueProtoView;

    open spec fn view(&self) -> MetricValueProtoView {
        match self {
            MetricValueProto::OutputRows(v) => MetricValueProtoView::OutputRows(v.value),
            MetricValueProto::ElapsedCompute(v) => MetricValueProtoView::ElapsedCompute(v.value),
            MetricValueProto::SpillCount(v) => MetricValueProtoView::SpillCount(v.value),
            MetricValueProto::SpilledBytes(v) => MetricValueProtoView::SpilledBytes(v.value),
            MetricValueProto::SpilledRows(v) => MetricValueProtoView::SpilledRows(v.value),
            MetricValueProto::CurrentMemoryUsage(v) => MetricValueProtoView::CurrentMemoryUsage(v.value),
            MetricValueProto::Count(v) => MetricValueProtoView::Count { name: v.name@, value: v.value },
            MetricValueProto::Gauge(v) => MetricValueProtoView::Gauge { name: v.name@, value: v.value },
            MetricValueProto::Time(v) => MetricValueProtoView::Time { name: v.name@, value: v.value },
            MetricValueProto::StartTimestamp(v) => MetricValueProtoView::StartTimestamp(v.value),
            MetricValueProto::EndTimestamp(v) => MetricValueProtoView::EndTimestamp(v.value),
        }
    }
}

/// A metric as it is sent over the wire. The measurement is always there in what is sent, but a
/// message that was received may lack it.
#[derive(Debug)]
pub struct MetricProto {
    pub metric: Option<MetricValueProto>,
    pub labels: Vec<ProtoLabel>,
    pub partition: Option<u64>,
}

/// The contents of a [MetricProto].
#[verifier::ext_equal]
pub struct MetricProtoView {
    pub metric: Option<MetricValueProtoView>,
    pub labels: Seq<LabelView>,
    pub partition: Option<u64>,
}

pub open spec fn proto_label_views(labels: Seq<ProtoLabel>) -> Seq<LabelView> {
    Seq::new(labels.len(), |i: int| labels[i]@)
}

impl View for MetricProto {
    type V = MetricProtoView;

    open spec fn view(&self) -> MetricProtoView {
        MetricProtoView {
            metric: match self.metric {
                Some(metric) => Some(metric@),
                None => None,
            },
            labels: proto_label_views(self.labels@),
            partition: self.partition,
        }
    }
}

impl Clone for MetricValueProto {
    fn clone(&self) -> (copy: Self)
        ensures
            copy@ == self@,
    {
        match self {
            MetricValueProto::OutputRows(v) => MetricValueProto::OutputRows(*v),
            MetricValueProto::ElapsedCompute(v) => MetricValueProto::ElapsedCompute(*v),
            MetricValueProto::SpillCount(v) => MetricValueProto::SpillCount(*v),
            MetricValueProto::SpilledBytes(v) => MetricValueProto::SpilledBytes(*v),
            MetricValueProto::SpilledRows(v) => MetricValueProto::SpilledRows(*v),
            MetricValueProto::CurrentMemoryUsage(v) => MetricValueProto::CurrentMemoryUsage(*v),
            MetricValueProto::Count(v) => MetricValueProto::Count(
                NamedCount { name: v.name.clone(), value: v.value },
            ),
            MetricValueProto::Gauge(v) => MetricValueProto::Gauge(
                NamedGauge { name: v.name.clone(), value: v.value },
            ),
            MetricValueProto::Time(v) => MetricValueProto::Time(
                NamedTime { name: v.name.clone(), value: v.value },
            ),
            MetricValueProto::StartTimestamp(v) => MetricValueProto::StartTimestamp(*v),
            MetricValueProto::EndTimestamp(v) => MetricValueProto::EndTimestamp(*v),
        }
    }
}

pub(crate) fn clone_proto_labels(labels: &Vec<ProtoLabel>) -> (copy: Vec<ProtoLabel>)
    ensures
        proto_label_views(copy@) == proto_label_views(labels@),
{
    let mut copy: Vec<ProtoLabel> = Vec::new();
    for i in 0..labels.len()
        invariant
            proto_label_views(copy@) =~= proto_label_views(labels@).take(i as int),
    {
        let source = &labels[i];
        let label = ProtoLabel { name: source.name.clone(), value: source.value.clone() };
        let ghost before = copy@;
        copy.push(label);
        proof {
            assert(label@ == source@);
            assert(proto_label_views(copy@) =~= proto_label_views(before).push(source@));
        }
    }
    copy
}

impl Clone for MetricProto {
    fn clone(&self) -> (copy: Self)
        ensures
            copy@ == self@,
    {
        let metric = match &self.metric {
            Some(value) => Some(value.clone()),
            None => None,
        };
        MetricProto { metric, labels: clone_proto_labels(&self.labels), partition: self.partition }
    }
}

/// All the metrics of one node of a plan, as they are sent over the wire.
#[derive(Debug)]
pub struct MetricsSetProto {
    pub metrics: Vec<MetricProto>,
}

pub open spec fn metric_proto_views(metrics: Seq<MetricProto>) -> Seq<MetricProtoView> {
    Seq::new(metrics.len(), |i: int| metrics[i]@)
}

impl View for MetricsSetProto {
    type V = Seq<MetricProtoView>;

    open spec fn view(&self) -> Seq<MetricProtoView> {
        metric_proto_views(self.metrics@)
    }
}

impl MetricsSetProto {
    /// A set without metrics.
    pub fn new() -> (set: Self)
        ensures
            set@ == Seq::<MetricProtoView>::empty(),
    {
        let set = MetricsSetProto { metrics: Vec::new() };
        proof {
            assert(set@ =~= Seq::empty());
        }
        set
    }

    /// Adds a metric.
    pub fn push(&mut self, metric: MetricProto)
        ensures
            final(self)@ == old(self)@.push(metric@),
    {
        self.metrics.push(metric);
        proof {
            assert(self@ =~= old(self)@.push(metric@));
        }
    }
}

/// Why a metric cannot be converted.
#[derive(Debug, Clone, Copy, PartialEq, Eq, Structural)]
pub enum MetricsProtoError {
    /// Custom metrics are not sent.
    CustomMetricsNotSupported,
    /// The metric is of a kind that is not sent yet.
    UnsupportedMetric,
    /// A timestamp cannot be counted in nanoseconds.
    UnrepresentableTimestamp,
    /// A received metric lacks its measurement.
    MissingMetric,
}

/// The text of an error.
pub open spec fn metrics_error_text(error: MetricsProtoError) -> Seq<char> {
    match error {
        MetricsProtoError::CustomMetricsNotSupported =>
            "custom metrics are not supported in metrics proto conversion"@,
        MetricsProtoError::UnsupportedMetric => "metric type not supported in proto conversion"@,
        MetricsProtoError::UnrepresentableTimestamp =>
            "encountered a timestamp which cannot be represented via a nanosecond timestamp"@,
        MetricsProtoError::MissingMetric => "proto metric is missing the metric field"@,
    }
}

impl MetricsProtoError {
    /// The text of the error.
    pub fn message(&self) -> (text: String)
        ensures
            text@ == metrics_error_text(*self),
    {
        match self {
            MetricsProtoError::CustomMetricsNotSupported =>
                "custom metrics are not supported in metrics proto conversion".to_owned(),
            MetricsProtoError::UnsupportedMetric =>
                "metric type not supported in proto conversion".to_owned(),
            MetricsProtoError::UnrepresentableTimestamp =>
                "encountered a timestamp which cannot be represented via a nanosecond timestamp".to_owned(),
            MetricsProtoError::MissingMetric =>
                "proto metric is missing the metric field".to_owned(),
        }
    }
}

/// The nanoseconds that stand for a timestamp on the wire.
pub open spec fn timestamp_to_proto(timestamp: Option<UtcTimestamp>) -> Result<
    Option<i64>,
    MetricsProtoError,
> {
    match timestamp {
        None => Ok(None),
        Some(instant) => match instant.representable_nanos() {
            Some(nanos) => Ok(Some(nanos)),
            None => Err(MetricsProtoError::UnrepresentableTimestamp),
        },
    }
}

/// The timestamp that some nanoseconds on the wire stand for.
pub open spec fn timestamp_from_proto(nanos: Option<i64>) -> Option<UtcTimestamp> {
    match nanos {
        None => None,
        Some(nanos) => Some(timestamp_at(nanos)),
    }
}

/// What stands for a measurement on the wire.
pub open spec fn value_to_proto(value: MetricValueView) -> Result<
    MetricValueProtoView,
    MetricsProtoError,
> {
    match value {
        MetricValueView::OutputRows(v) => Ok(MetricValueProtoView::OutputRows(v as u64)),
        MetricValueView::ElapsedCompute(v) => Ok(MetricValueProtoView::ElapsedCompute(v as u64)),
        MetricValueView::SpillCount(v) => Ok(MetricValueProtoView::SpillCount(v as u64)),
        MetricValueView::SpilledBytes(v) => Ok(MetricValueProtoView::SpilledBytes(v as u64)),
        MetricValueView::SpilledRows(v) => Ok(MetricValueProtoView::SpilledRows(v as u64)),
        MetricValueView::CurrentMemoryUsage(v) => Ok(MetricValueProtoView::CurrentMemoryUsage(v as u64)),
        MetricValueView::Count { name, count } => Ok(
            MetricValueProtoView::Count { name, value: count as u64 },
        ),
        MetricValueView::Gauge { name, gauge } => Ok(
            MetricValueProtoView::Gauge { name, value: gauge as u64 },
        ),
        MetricValueView::Time { name, time } => Ok(
            MetricValueProtoView::Time { name, value: time as u64 },
        ),
        MetricValueView::StartTimestamp(timestamp) => match timestamp_to_proto(timestamp) {
            Ok(nanos) => Ok(MetricValueProtoView::StartTimestamp(nanos)),
            Err(e) => Err(e),
        },
        MetricValueView::EndTimestamp(timestamp) => match timestamp_to_proto(timestamp) {
            Ok(nanos) => Ok(MetricValueProtoView::EndTimestamp(nanos)),
            Err(e) => Err(e),
        },
        MetricValueView::Custom { .. } => Err(MetricsProtoError::CustomMetricsNotSupported),
        MetricValueView::OutputBytes(_) => Err(MetricsProtoError::UnsupportedMetric),
        MetricValueView::OutputBatches(_) => Err(MetricsProtoError::UnsupportedMetric),
        MetricValueView::PeakMemoryUsage { .. } => Err(MetricsProtoError::UnsupportedMetric),
        MetricValueView::PruningMetrics { .. } => Err(MetricsProtoError::UnsupportedMetric),
        MetricValueView::Ratio { .. } => Err(MetricsProtoError::UnsupportedMetric),
    }
}

/// The measurement that something on the wire stands for. Times pass through a timer, which counts
/// at least one nanosecond.
pub open spec fn value_from_proto(value: MetricValueProtoView) -> MetricValueView {
    match value {
        MetricValueProtoView::OutputRows(v) => MetricValueView::OutputRows(v as usize),
        MetricValueProtoView::ElapsedCompute(v) => MetricValueView::ElapsedCompute(timed_nanos(v)),
        MetricValueProtoView::SpillCount(v) => MetricValueView::SpillCount(v as usize),
        MetricValueProtoView::SpilledBytes(v) => MetricValueView::SpilledBytes(v as usize),
        MetricValueProtoView::SpilledRows(v) => MetricValueView::SpilledRows(v as usize),
        MetricValueProtoView::CurrentMemoryUsage(v) => MetricValueView::CurrentMemoryUsage(v as usize),
        MetricValueProtoView::Count { name, value } => MetricValueView::Count {
            name,
            count: value as usize,
        },
        MetricValueProtoView::Gauge { name, value } => MetricValueView::Gauge {
            name,
            gauge: value as usize,
        },
        MetricValueProtoView::Time { name, value } => MetricValueView::Time {
            name,
            time: timed_nanos(value),
        },
        MetricValueProtoView::StartTimestamp(nanos) => MetricValueView::StartTimestamp(
            timestamp_from_proto(nanos),
        ),
        MetricValueProtoView::EndTimestamp(nanos) => MetricValueView::EndTimestamp(
            timestamp_from_proto(nanos),
        ),
    }
}

/// What stands for a metric on the wire.
pub open spec fn metric_to_proto(metric: MetricView) -> Result<MetricProtoView, MetricsProtoError> {
    match value_to_proto(metric.value) {
        Ok(value) => Ok(
            MetricProtoView {
                metric: Some(value),
                labels: metric.labels,
                partition: match metric.partition {
                    Some(p) => Some(p as u64),
                    None => None,
                },
            },
        ),
        Err(e) => Err(e),
    }
}

/// The metric that something on the wire stands for.
pub open spec fn metric_from_proto(metric: MetricProtoView) -> Result<
    MetricView,
    MetricsProtoError,
> {
    match metric.metric {
        Some(value) => Ok(
            MetricView {
                value: value_from_proto(value),
                labels: metric.labels,
                partition: match metric.partition {
                    Some(p) => Some(p as usize),
                    None => None,
                },
            },
        ),
        None => Err(MetricsProtoError::MissingMetric),
    }
}

/// Whether a metric is left out of what is sent, rather than failing the whole set.
pub open spec fn is_left_out(metric: MetricView) -> bool {
    metric_to_proto(metric) == Err::<MetricProtoView, MetricsProtoError>(
        MetricsProtoError::CustomMetricsNotSupported,
    ) || metric_to_proto(metric) == Err::<MetricProtoView, MetricsProtoError>(
        MetricsProtoError::UnsupportedMetric,
    )
}

/// What stands for a set of metrics on the wire: the metrics of supported kinds, in order. The
/// first of them that cannot be converted fails the set.
pub open spec fn set_to_proto(metrics: Seq<MetricView>) -> Result<
    Seq<MetricProtoView>,
    MetricsProtoError,
>
    decreases metrics.len(),
{
    if metrics.len() == 0 {
        Ok(Seq::empty())
    } else {
        match set_to_proto(metrics.drop_last()) {
            Err(e) => Err(e),
            Ok(front) => if is_left_out(metrics.last()) {
                Ok(front)
            } else {
                match metric_to_proto(metrics.last()) {
                    Ok(last) => Ok(front.push(last)),
                    Err(e) => Err(e),
                }
            },
        }
    }
}

/// The set of metrics that something on the wire stands for.
pub open spec fn set_from_proto(metrics: Seq<MetricProtoView>) -> Result<
    Seq<MetricView>,
    MetricsProtoError,
>
    decreases metrics.len(),
{
    if metrics.len() == 0 {
        Ok(Seq::empty())
    } else {
        match set_from_proto(metrics.drop_last()) {
            Err(e) => Err(e),
            Ok(front) => match metric_from_proto(metrics.last()) {
                Ok(last) => Ok(front.push(last)),
                Err(e) => Err(e),
            },
        }
    }
}

pub(crate) fn labels_to_proto(labels: &Vec<Label>) -> (protos: Vec<ProtoLabel>)
    ensures
        proto_label_views(protos@) == label_views(labels@),
{
    let mut protos: Vec<ProtoLabel> = Vec::new();
    for i in 0..labels.len()
        invariant
            proto_label_views(protos@) =~= label_views(labels@).take(i as int),
    {
        let label = &labels[i];
        let proto = ProtoLabel { name: label.name.clone(), value: label.value.clone() };
        let ghost before = protos@;
        protos.push(proto);
        proof {
            assert(proto@ == label@);
            assert(proto_label_views(protos@) =~= proto_label_views(before).push(label@));
        }
    }
    protos
}

pub(crate) fn labels_from_proto(protos: Vec<ProtoLabel>) -> (labels: Vec<Label>)
    ensures
        label_views(labels@) == proto_label_views(protos@),
{
    let ghost all = protos@;
    let mut labels: Vec<Label> = Vec::new();
    for proto in it: protos
        invariant
            it.seq() == all,
            label_views(labels@) =~= proto_label_views(all).take(it.index() as int),
    {
        let label = Label { name: proto.name, value: proto.value };
        let ghost before = labels@;
        labels.push(label);
        proof {
            assert(label@ == proto@);
            assert(label_views(labels@) =~= label_views(before).push(proto@));
        }
    }
    labels
}

fn timestamp_value(timestamp: Option<UtcTimestamp>) -> (result: Result<
    Option<i64>,
    MetricsProtoError,
>)
    ensures
        result == timestamp_to_proto(timestamp),
{
    match timestamp {
        None => Ok(None),
        Some(instant) => match timestamp_nanos(instant) {
            Some(nanos) => Ok(Some(nanos)),
            None => Err(MetricsProtoError::UnrepresentableTimestamp),
        },
    }
}

fn read_timestamp(nanos: Option<i64>) -> (timestamp: Option<UtcTimestamp>)
    ensures
        timestamp == timestamp_from_proto(nanos),
{
    match nanos {
        None => None,
        Some(nanos) => Some(timestamp_from_nanos(nanos)),
    }
}

/// Converts a metric to what is sent over the wire.
pub fn df_metric_to_proto(metric: &Metric) -> (result: Result<MetricProto, MetricsProtoError>)
    ensures
        match (result, metric_to_proto(metric@)) {
            (Ok(proto), Ok(expected)) => proto@ == expected,
            (Err(e), Err(expected)) => e == expected,
            _ => false,
        },
{
    let value = match &metric.value {
        MetricValue::OutputRows(v) => MetricValueProto::OutputRows(OutputRows { value: *v as u64 }),
        MetricValue::ElapsedCompute(v) => MetricValueProto::ElapsedCompute(ElapsedCompute { value: *v as u64 }),
        MetricValue::SpillCount(v) => MetricValueProto::SpillCount(SpillCount { value: *v as u64 }),
        MetricValue::SpilledBytes(v) => MetricValueProto::SpilledBytes(SpilledBytes { value: *v as u64 }),
        MetricValue::SpilledRows(v) => MetricValueProto::SpilledRows(SpilledRows { value: *v as u64 }),
        MetricValue::CurrentMemoryUsage(v) => MetricValueProto::CurrentMemoryUsage(CurrentMemoryUsage { value: *v as u64 }),
        MetricValue::Count { name, count } => MetricValueProto::Count(
            NamedCount { name: name.clone(), value: *count as u64 },
        ),
        MetricValue::Gauge { name, gauge } => MetricValueProto::Gauge(
            NamedGauge { name: name.clone(), value: *gauge as u64 },
        ),
        MetricValue::Time { name, time } => MetricValueProto::Time(
            NamedTime { name: name.clone(), value: *time as u64 },
        ),
        MetricValue::StartTimestamp(timestamp) => match timestamp_value(*timestamp) {
            Ok(value) => MetricValueProto::StartTimestamp(StartTimestamp { value }),
            Err(e) => {
                return Err(e);
            },
        },
        MetricValue::EndTimestamp(timestamp) => match timestamp_value(*timestamp) {
            Ok(value) => MetricValueProto::EndTimestamp(EndTimestamp { value }),
            Err(e) => {
                return Err(e);
            },
        },
        MetricValue::Custom { .. } => {
            return Err(MetricsProtoError::CustomMetricsNotSupported);
        },
        MetricValue::OutputBytes(_)
        | MetricValue::OutputBatches(_)
        | MetricValue::PeakMemoryUsage { .. }
        | MetricValue::PruningMetrics { .. }
        | MetricValue::Ratio { .. } => {
            return Err(MetricsProtoError::UnsupportedMetric);
        },
    };
    let partition = match metric.partition {
        Some(p) => Some(p as u64),
        None => None,
    };
    Ok(MetricProto { metric: Some(value), labels: labels_to_proto(&metric.labels), partition })
}

/// Converts something that was received into a metric.
pub fn metric_proto_to_df(metric: MetricProto) -> (result: Result<Metric, MetricsProtoError>)
    ensures
        match (result, metric_from_proto(metric@)) {
            (Ok(converted), Ok(expected)) => converted@ == expected,
            (Err(e), Err(expected)) => e == expected,
            _ => false,
        },
{
    let value = match metric.metric {
        None => {
            return Err(MetricsProtoError::MissingMetric);
        },
        Some(MetricValueProto::OutputRows(v)) => MetricValue::OutputRows(v.value as usize),
        Some(MetricValueProto::ElapsedCompute(v)) => MetricValue::ElapsedCompute(time_duration(v.value)),
        Some(MetricValueProto::SpillCount(v)) => MetricValue::SpillCount(v.value as usize),
        Some(MetricValueProto::SpilledBytes(v)) => MetricValue::SpilledBytes(v.value as usize),
        Some(MetricValueProto::SpilledRows(v)) => MetricValue::SpilledRows(v.value as usize),
        Some(MetricValueProto::CurrentMemoryUsage(v)) => MetricValue::CurrentMemoryUsage(v.value as usize),
        Some(MetricValueProto::Count(v)) => MetricValue::Count {
            count: v.value as usize,
            name: v.name,
        },
        Some(MetricValueProto::Gauge(v)) => MetricValue::Gauge {
            gauge: v.value as usize,
            name: v.name,
        },
        Some(MetricValueProto::Time(v)) => MetricValue::Time {
            time: time_duration(v.value),
            name: v.name,
        },
        Some(MetricValueProto::StartTimestamp(v)) => MetricValue::StartTimestamp(read_timestamp(v.value)),
        Some(MetricValueProto::EndTimestamp(v)) => MetricValue::EndTimestamp(read_timestamp(v.value)),
    };
    let partition = match metric.partition {
        Some(p) => Some(p as usize),
        None => None,
    };
    Ok(Metric { value, partition, labels: labels_from_proto(metric.labels) })
}

proof fn lemma_set_to_proto_prefix(metrics: Seq<MetricView>, i: int)
    requires
        0 <= i <= metrics.len(),
        set_to_proto(metrics.take(i)) is Err,
    ensures
        set_to_proto(metrics) == set_to_proto(metrics.take(i)),
    decreases metrics.len() - i,
{
    if i == metrics.len() {
        assert(metrics.take(i) =~= metrics);
    } else {
        assert(metrics.take(i + 1).drop_last() =~= metrics.take(i));
        lemma_set_to_proto_prefix(metrics, i + 1);
    }
}

proof fn lemma_set_from_proto_prefix(metrics: Seq<MetricProtoView>, i: int)
    requires
        0 <= i <= metrics.len(),
        set_from_proto(metrics.take(i)) is Err,
    ensures
        set_from_proto(metrics) == set_from_proto(metrics.take(i)),
    decreases metrics.len() - i,
{
    if i == metrics.len() {
        assert(metrics.take(i) =~= metrics);
    } else {
        assert(metrics.take(i + 1).drop_last() =~= metrics.take(i));
        lemma_set_from_proto_prefix(metrics, i + 1);
    }
}

/// Converts a set of metrics to what is sent over the wire. Metrics of kinds that are not sent are
/// left out; any other error is returned.
pub fn df_metrics_set_to_proto(metrics_set: &MetricsSet) -> (result: Result<
    MetricsSetProto,
    MetricsProtoError,
>)
    ensures
        match (result, set_to_proto(metrics_set@)) {
            (Ok(set), Ok(expected)) => set@ == expected,
            (Err(e), Err(expected)) => e == expected,
            _ => false,
        },
{
    let mut set = MetricsSetProto::new();
    let ghost views = metrics_set@;
    for i in 0..metrics_set.metrics.len()
        invariant
            views == metrics_set@,
            set_to_proto(views.take(i as int)) == Ok::<
                Seq<MetricProtoView>,
                MetricsProtoError,
            >(set@),
    {
        proof {
            assert(views.take(i + 1).drop_last() =~= views.take(i as int));
        }
        match df_metric_to_proto(&metrics_set.metrics[i]) {
            Ok(metric) => set.push(metric),
            Err(MetricsProtoError::CustomMetricsNotSupported) => {},
            Err(MetricsProtoError::UnsupportedMetric) => {},
            Err(e) => {
                proof {
                    lemma_set_to_proto_prefix(views, i + 1);
                }
                return Err(e);
            },
        }
    }
    proof {
        assert(views.take(views.len() as int) =~= views);
    }
    Ok(set)
}

/// Converts something that was received into a set of metrics.
pub fn metrics_set_proto_to_df(metrics_set_proto: &MetricsSetProto) -> (result: Result<
    MetricsSet,
    MetricsProtoError,
>)
    ensures
        match (result, set_from_proto(metrics_set_proto@)) {
            (Ok(set), Ok(expected)) => set@ == expected,
            (Err(e), Err(expected)) => e == expected,
            _ => false,
        },
{
    let ghost views = metrics_set_proto@;
    let mut set = MetricsSet::new();
    for i in 0..metrics_set_proto.metrics.len()
        invariant
            views == metrics_set_proto@,
            set_from_proto(views.take(i as int)) == Ok::<
                Seq<MetricView>,
                MetricsProtoError,
            >(set@),
    {
        proof {
            assert(views.take(i + 1).drop_last() =~= views.take(i as int));
        }
        match metric_proto_to_df(metrics_set_proto.metrics[i].clone()) {
            Ok(metric) => set.push(metric),
            Err(e) => {
                proof {
                    lemma_set_from_proto_prefix(views, i + 1);
                }
                return Err(e);
            },
        }
    }
    proof {
        assert(views.take(views.len() as int) =~= views);
    }
    Ok(set)
}

/// A measurement after it was sent and received: a time of zero counts as one nanosecond, and a
/// leap second as the instant that many nanoseconds after the epoch.
pub open spec fn received_value(value: MetricValueView) -> MetricValueView {
    match value {
        MetricValueView::ElapsedCompute(time) => MetricValueView::ElapsedCompute(
            if time == 0 { 1 } else { time },
        ),
        MetricValueView::Time { name, time } => MetricValueView::Time {
            name,
            time: if time == 0 { 1 } else { time },
        },
        MetricValueView::StartTimestamp(Some(instant)) => MetricValueView::StartTimestamp(
            Some(timestamp_at(instant.epoch_nanos() as i64)),
        ),
        MetricValueView::EndTimestamp(Some(instant)) => MetricValueView::EndTimestamp(
            Some(timestamp_at(instant.epoch_nanos() as i64)),
        ),
        _ => value,
    }
}

/// A metric that can be sent is received as it was: with the same partition, the same labels and
/// the same measurement, up to what [received_value] says of times.
pub proof fn metrics_survive_the_wire(metric: MetricView)
    ensures
        metric_to_proto(metric) matches Ok(proto) ==> metric_from_proto(proto) == Ok::<
            MetricView,
            MetricsProtoError,
        >(MetricView { value: received_value(metric.value), ..metric }),
{
    if let Some(p) = metric.partition {
        assert((p as u64) as usize == p);
    }
    match metric.value {
        MetricValueView::OutputRows(v) => {
            assert((v as u64) as usize == v);
        },
        MetricValueView::ElapsedCompute(v) => {
            assert((v as u64) as usize == v);
        },
        MetricValueView::SpillCount(v) => {
            assert((v as u64) as usize == v);
        },
        MetricValueView::SpilledBytes(v) => {
            assert((v as u64) as usize == v);
        },
        MetricValueView::SpilledRows(v) => {
            assert((v as u64) as usize == v);
        },
        MetricValueView::CurrentMemoryUsage(v) => {
            assert((v as u64) as usize == v);
        },
        MetricValueView::Count { count: v, .. } => {
            assert((v as u64) as usize == v);
        },
        MetricValueView::Gauge { gauge: v, .. } => {
            assert((v as u64) as usize == v);
        },
        MetricValueView::Time { time: v, .. } => {
            assert((v as u64) as usize == v);
        },
        _ => {},
    }
}

/// A measurement that was received once is received unchanged from then on.
pub proof fn received_values_are_stable(value: MetricValueView)
    requires
        value matches MetricValueView::StartTimestamp(Some(instant))
            ==> instant.representable_nanos() is Some,
        value matches MetricValueView::EndTimestamp(Some(instant))
            ==> instant.representable_nanos() is Some,
    ensures
        received_value(received_value(value)) == received_value(value),
{
    match value {
        MetricValueView::StartTimestamp(Some(instant)) => {
            timestamps_survive_nanos(instant);
        },
        MetricValueView::EndTimestamp(Some(instant)) => {
            timestamps_survive_nanos(instant);
        },
        _ => {},
    }
}

/// When no metric of a set fails it and all are of supported kinds, sending the set and receiving
/// it gives back every metric, in order.
pub proof fn metric_sets_survive_the_wire(metrics: Seq<MetricView>)
    requires
        forall|i: int| 0 <= i < metrics.len() ==> metric_to_proto(#[trigger] metrics[i]) is Ok,
    ensures
        set_to_proto(metrics) is Ok,
        set_to_proto(metrics)->Ok_0.len() == metrics.len(),
        set_from_proto(set_to_proto(metrics)->Ok_0) == Ok::<Seq<MetricView>, MetricsProtoError>(
            Seq::new(
                metrics.len(),
                |i: int| MetricView { value: received_value(metrics[i].value), ..metrics[i] },
            ),
        ),
    decreases metrics.len(),
{
    let received = Seq::new(
        metrics.len(),
        |i: int| MetricView { value: received_value(metrics[i].value), ..metrics[i] },
    );
    if metrics.len() == 0 {
        assert(received =~= Seq::empty());
    } else {
        let front = metrics.drop_last();
        let n = metrics.len() - 1;
        assert forall|i: int| 0 <= i < front.len() implies metric_to_proto(#[trigger] front[i]) is Ok by {
            assert(metric_to_proto(metrics[i]) is Ok);
        }
        metric_sets_survive_the_wire(front);
        assert(metric_to_proto(metrics[n]) is Ok);
        metrics_survive_the_wire(metrics[n]);
        let protos = set_to_proto(metrics)->Ok_0;
        assert(protos.drop_last() =~= set_to_proto(front)->Ok_0);
        assert(received =~= Seq::new(
            front.len(),
            |i: int| MetricView { value: received_value(front[i].value), ..front[i] },
        ).push(received[n]));
    }
}

/// A metric of a kind that cannot be sent is passed over: the others are sent as if it were not there.
pub proof fn unsupported_metrics_are_passed_over(metrics: Seq<MetricView>, i: int)
    requires
        0 <= i < metrics.len(),
        metric_to_proto(metrics[i]) matches Err(e) && (e is CustomMetricsNotSupported
            || e is UnsupportedMetric),
    ensures
        set_to_proto(metrics) == set_to_proto(metrics.remove(i)),
    decreases metrics.len(),
{
    let front = metrics.drop_last();
    if i == metrics.len() - 1 {
        assert(metrics.remove(i) =~= front);
    } else {
        unsupported_metrics_are_passed_over(front, i);
        assert(metrics.remove(i).drop_last() =~= front.remove(i));
        assert(metrics.remove(i).last() == metrics.last());
    }
}

/// Every metric that can be sent is in what is sent, and a metric that fails for another reason than its
/// kind fails the whole set.
pub proof fn supported_metrics_are_sent(metrics: Seq<MetricView>, i: int)
    requires
        0 <= i < metrics.len(),
    ensures
        metric_to_proto(metrics[i]) matches Ok(sent) ==> (set_to_proto(metrics) matches Ok(all) ==> all.contains(
            sent,
        )),
        metric_to_proto(metrics[i]) matches Err(e) ==> (!(e is CustomMetricsNotSupported)
            && !(e is UnsupportedMetric) ==> set_to_proto(metrics) is Err),
    decreases metrics.len(),
{
    let front = metrics.drop_last();
    if i < metrics.len() - 1 {
        supported_metrics_are_sent(front, i);
        if let (Ok(sent), Ok(before), Ok(all)) = (metric_to_proto(metrics[i]), set_to_proto(front), set_to_proto(metrics)) {
            let k = choose|k: int| 0 <= k < before.len() && before[k] == sent;
            assert(all[k] == sent);
        }
    } else if let (Ok(sent), Ok(all)) = (metric_to_proto(metrics[i]), set_to_proto(metrics)) {
        assert(all[all.len() - 1] == sent);
    }
}

} // verus!
