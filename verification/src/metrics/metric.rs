use crate::metrics::clock::UtcTimestamp;
use sketches_ddsketch::DDSketch;
use vstd::prelude::*;

verus! {

/// A summary of observed latencies, from which percentiles are read.
#[verifier::external_type_specification]
#[verifier::external_body]
pub struct ExDDSketch(sketches_ddsketch::DDSketch);

/// What a sketch holds, as the bytes that it is stored in: its configuration, its bins and the
/// smallest, the largest and the sum of the observed values.
pub uninterp spec fn sketch_contents(sketch: DDSketch) -> Seq<u8>;

/// The contents of the sketch that some bytes store, or what is wrong with the bytes.
pub uninterp spec fn stored_sketch(bytes: Seq<u8>) -> Result<Seq<u8>, Seq<char>>;

/// Calls `bincode::serialize` on a sketch. Every part of a sketch can be stored, so this
/// succeeds, and the bytes are read back as the same sketch.
#[verifier::external_body]
pub(crate) fn store_sketch(sketch: &DDSketch) -> (bytes: Result<Vec<u8>, String>)
    ensures
        bytes is Ok,
        bytes->Ok_0@ == sketch_contents(*sketch),
        stored_sketch(bytes->Ok_0@) is Ok,
        stored_sketch(bytes->Ok_0@)->Ok_0 == sketch_contents(*sketch),
{
    bincode::serialize(sketch).map_err(|e| e.to_string())
}

/// Calls `bincode::deserialize` for a sketch. Whether the bytes store a sketch, and which, depends
/// on the bytes alone; so does the text of the error.
#[verifier::external_body]
pub(crate) fn read_sketch(bytes: &Vec<u8>) -> (sketch: Result<DDSketch, String>)
    ensures
        match (sketch, stored_sketch(bytes@)) {
            (Ok(s), Ok(contents)) => sketch_contents(s) == contents,
            (Err(e), Err(message)) => e@ == message,
            _ => false,
        },
{
    bincode::deserialize(bytes).map_err(|e| e.to_string())
}

/// Calls `DDSketch::clone`: the copy holds the same.
#[verifier::external_body]
fn clone_sketch(sketch: &DDSketch) -> (copy: DDSketch)
    ensures
        sketch_contents(copy) == sketch_contents(*sketch),
{
    sketch.clone()
}

/// A name and a value that tell where a metric was taken.
#[derive(Debug)]
pub struct Label {
    pub name: String,
    pub value: String,
}

/// The contents of a [Label].
#[verifier::ext_equal]
pub struct LabelView {
    pub name: Seq<char>,
    pub value: Seq<char>,
}

impl View for Label {
    type V = LabelView;

    open spec fn view(&self) -> LabelView {
        LabelView { name: self.name@, value: self.value@ }
    }
}

/// A metric of a kind that only this engine knows.
pub enum CustomMetricValue {
    MinLatency(usize),
    MaxLatency(usize),
    AvgLatency { nanos_sum: usize, count: usize },
    FirstLatency(usize),
    BytesCounter(usize),
    P50Latency(DDSketch),
    P75Latency(DDSketch),
    P95Latency(DDSketch),
    P99Latency(DDSketch),
    MaxGauge(usize),
    /// Of a kind that someone else defined.
    Foreign,
}

/// The contents of a [CustomMetricValue].
#[verifier::ext_equal]
pub enum CustomMetricValueView {
    MinLatency(usize),
    MaxLatency(usize),
    AvgLatency { nanos_sum: usize, count: usize },
    FirstLatency(usize),
    BytesCounter(usize),
    P50Latency(Seq<u8>),
    P75Latency(Seq<u8>),
    P95Latency(Seq<u8>),
    P99Latency(Seq<u8>),
    MaxGauge(usize),
    Foreign,
}

impl View for CustomMetricValue {
    type V = CustomMetricValueView;

    open spec fn view(&self) -> CustomMetricValueView {
        match self {
            CustomMetricValue::MinLatency(v) => CustomMetricValueView::MinLatency(*v),
            CustomMetricValue::MaxLatency(v) => CustomMetricValueView::MaxLatency(*v),
            CustomMetricValue::AvgLatency { nanos_sum, count } => CustomMetricValueView::AvgLatency {
                nanos_sum: *nanos_sum,
                count: *count,
            },
            CustomMetricValue::FirstLatency(v) => CustomMetricValueView::FirstLatency(*v),
            CustomMetricValue::BytesCounter(v) => CustomMetricValueView::BytesCounter(*v),
            CustomMetricValue::P50Latency(s) => CustomMetricValueView::P50Latency(
                sketch_contents(*s),
            ),
            CustomMetricValue::P75Latency(s) => CustomMetricValueView::P75Latency(
                sketch_contents(*s),
            ),
            CustomMetricValue::P95Latency(s) => CustomMetricValueView::P95Latency(
                sketch_contents(*s),
            ),
            CustomMetricValue::P99Latency(s) => CustomMetricValueView::P99Latency(
                sketch_contents(*s),
            ),
            CustomMetricValue::MaxGauge(v) => CustomMetricValueView::MaxGauge(*v),
            CustomMetricValue::Foreign => CustomMetricValueView::Foreign,
        }
    }
}

/// What was measured. Times are in nanoseconds.
pub enum MetricValue {
    OutputRows(usize),
    ElapsedCompute(usize),
    SpillCount(usize),
    SpilledBytes(usize),
    OutputBytes(usize),
    OutputBatches(usize),
    SpilledRows(usize),
    CurrentMemoryUsage(usize),
    Count { name: String, count: usize },
    Gauge { name: String, gauge: usize },
    PeakMemoryUsage { name: String, gauge: usize },
    Time { name: String, time: usize },
    StartTimestamp(Option<UtcTimestamp>),
    EndTimestamp(Option<UtcTimestamp>),
    PruningMetrics { name: String, pruned: usize, matched: usize },
    Ratio { name: String, part: usize, total: usize },
    Custom { name: String, value: CustomMetricValue },
}

/// The contents of a [MetricValue].
#[verifier::ext_equal]
pub enum MetricValueView {
    OutputRows(usize),
    ElapsedCompute(usize),
    SpillCount(usize),
    SpilledBytes(usize),
    OutputBytes(usize),
    OutputBatches(usize),
    SpilledRows(usize),
    CurrentMemoryUsage(usize),
    Count { name: Seq<char>, count: usize },
    Gauge { name: Seq<char>, gauge: usize },
    PeakMemoryUsage { name: Seq<char>, gauge: usize },
    Time { name: Seq<char>, time: usize },
    StartTimestamp(Option<UtcTimestamp>),
    EndTimestamp(Option<UtcTimestamp>),
    PruningMetrics { name: Seq<char>, pruned: usize, matched: usize },
    Ratio { name: Seq<char>, part: usize, total: usize },
    Custom { name: Seq<char>, value: CustomMetricValueView },
}

impl View for MetricValue {
    type V = MetricValueView;

    open spec fn view(&self) -> MetricValueView {
        match self {
            MetricValue::OutputRows(v) => MetricValueView::OutputRows(*v),
            MetricValue::ElapsedCompute(v) => MetricValueView::ElapsedCompute(*v),
            MetricValue::SpillCount(v) => MetricValueView::SpillCount(*v),
            MetricValue::SpilledBytes(v) => MetricValueView::SpilledBytes(*v),
            MetricValue::OutputBytes(v) => MetricValueView::OutputBytes(*v),
            MetricValue::OutputBatches(v) => MetricValueView::OutputBatches(*v),
            MetricValue::SpilledRows(v) => MetricValueView::SpilledRows(*v),
            MetricValue::CurrentMemoryUsage(v) => MetricValueView::CurrentMemoryUsage(*v),
            MetricValue::Count { name, count } => MetricValueView::Count {
                name: name@,
                count: *count,
            },
            MetricValue::Gauge { name, gauge } => MetricValueView::Gauge {
                name: name@,
                gauge: *gauge,
            },
            MetricValue::PeakMemoryUsage { name, gauge } => MetricValueView::PeakMemoryUsage {
                name: name@,
                gauge: *gauge,
            },
            MetricValue::Time { name, time } => MetricValueView::Time { name: name@, time: *time },
            MetricValue::StartTimestamp(t) => MetricValueView::StartTimestamp(*t),
            MetricValue::EndTimestamp(t) => MetricValueView::EndTimestamp(*t),
            MetricValue::PruningMetrics { name, pruned, matched } =>
                MetricValueView::PruningMetrics { name: name@, pruned: *pruned, matched: *matched },
            MetricValue::Ratio { name, part, total } => MetricValueView::Ratio {
                name: name@,
                part: *part,
                total: *total,
            },
            MetricValue::Custom { name, value } => MetricValueView::Custom {
                name: name@,
                value: value@,
            },
        }
    }
}

/// A measurement of one node of a plan.
pub struct Metric {
    pub value: MetricValue,
    pub partition: Option<usize>,
    pub labels: Vec<Label>,
}

/// The contents of a [Metric].
#[verifier::ext_equal]
pub struct MetricView {
    pub value: MetricValueView,
    pub partition: Option<usize>,
    pub labels: Seq<LabelView>,
}

pub open spec fn label_views(labels: Seq<Label>) -> Seq<LabelView> {
    Seq::new(labels.len(), |i: int| labels[i]@)
}

impl View for Metric {
    type V = MetricView;

    open spec fn view(&self) -> MetricView {
        MetricView {
            value: self.value@,
            partition: self.partition,
            labels: label_views(self.labels@),
        }
    }
}

/// All the measurements of one node of a plan.
pub struct MetricsSet {
    pub metrics: Vec<Metric>,
}

pub open spec fn metric_views(metrics: Seq<Metric>) -> Seq<MetricView> {
    Seq::new(metrics.len(), |i: int| metrics[i]@)
}

impl View for MetricsSet {
    type V = Seq<MetricView>;

    open spec fn view(&self) -> Seq<MetricView> {
        metric_views(self.metrics@)
    }
}

impl MetricsSet {
    /// A set without measurements.
    pub fn new() -> (set: Self)
        ensures
            set@ == Seq::<MetricView>::empty(),
    {
        let set = MetricsSet { metrics: Vec::new() };
        proof {
            assert(set@ =~= Seq::empty());
        }
        set
    }

    /// Adds a measurement.
    pub fn push(&mut self, metric: Metric)
        ensures
            final(self)@ == old(self)@.push(metric@),
    {
        self.metrics.push(metric);
        proof {
            assert(self@ =~= old(self)@.push(metric@));
        }
    }
}

impl Clone for CustomMetricValue {
    fn clone(&self) -> (copy: Self)
        ensures
            copy@ == self@,
    {
        match self {
            CustomMetricValue::MinLatency(v) => CustomMetricValue::MinLatency(*v),
            CustomMetricValue::MaxLatency(v) => CustomMetricValue::MaxLatency(*v),
            CustomMetricValue::AvgLatency { nanos_sum, count } => CustomMetricValue::AvgLatency {
                nanos_sum: *nanos_sum,
                count: *count,
            },
            CustomMetricValue::FirstLatency(v) => CustomMetricValue::FirstLatency(*v),
            CustomMetricValue::BytesCounter(v) => CustomMetricValue::BytesCounter(*v),
            CustomMetricValue::P50Latency(s) => CustomMetricValue::P50Latency(clone_sketch(s)),
            CustomMetricValue::P75Latency(s) => CustomMetricValue::P75Latency(clone_sketch(s)),
            CustomMetricValue::P95Latency(s) => CustomMetricValue::P95Latency(clone_sketch(s)),
            CustomMetricValue::P99Latency(s) => CustomMetricValue::P99Latency(clone_sketch(s)),
            CustomMetricValue::MaxGauge(v) => CustomMetricValue::MaxGauge(*v),
            CustomMetricValue::Foreign => CustomMetricValue::Foreign,
        }
    }
}

impl Clone for MetricValue {
    fn clone(&self) -> (copy: Self)
        ensures
            copy@ == self@,
    {
        match self {
            MetricValue::OutputRows(v) => MetricValue::OutputRows(*v),
            MetricValue::ElapsedCompute(v) => MetricValue::ElapsedCompute(*v),
            MetricValue::SpillCount(v) => MetricValue::SpillCount(*v),
            MetricValue::SpilledBytes(v) => MetricValue::SpilledBytes(*v),
            MetricValue::OutputBytes(v) => MetricValue::OutputBytes(*v),
            MetricValue::OutputBatches(v) => MetricValue::OutputBatches(*v),
            MetricValue::SpilledRows(v) => MetricValue::SpilledRows(*v),
            MetricValue::CurrentMemoryUsage(v) => MetricValue::CurrentMemoryUsage(*v),
            MetricValue::Count { name, count } => MetricValue::Count {
                name: name.clone(),
                count: *count,
            },
            MetricValue::Gauge { name, gauge } => MetricValue::Gauge {
                name: name.clone(),
                gauge: *gauge,
            },
            MetricValue::PeakMemoryUsage { name, gauge } => MetricValue::PeakMemoryUsage {
                name: name.clone(),
                gauge: *gauge,
            },
            MetricValue::Time { name, time } => MetricValue::Time {
                name: name.clone(),
                time: *time,
            },
            MetricValue::StartTimestamp(t) => MetricValue::StartTimestamp(*t),
            MetricValue::EndTimestamp(t) => MetricValue::EndTimestamp(*t),
            MetricValue::PruningMetrics { name, pruned, matched } => MetricValue::PruningMetrics {
                name: name.clone(),
                pruned: *pruned,
                matched: *matched,
            },
            MetricValue::Ratio { name, part, total } => MetricValue::Ratio {
                name: name.clone(),
                part: *part,
                total: *total,
            },
            MetricValue::Custom { name, value } => MetricValue::Custom {
                name: name.clone(),
                value: value.clone(),
            },
        }
    }
}

fn clone_labels(labels: &Vec<Label>) -> (copy: Vec<Label>)
    ensures
        label_views(copy@) == label_views(labels@),
{
    let mut copy: Vec<Label> = Vec::new();
    for i in 0..labels.len()
        invariant
            label_views(copy@) =~= label_views(labels@).take(i as int),
    {
        let source = &labels[i];
        let label = Label { name: source.name.clone(), value: source.value.clone() };
        let ghost before = copy@;
        copy.push(label);
        proof {
            assert(label@ == source@);
            assert(label_views(copy@) =~= label_views(before).push(source@));
        }
    }
    copy
}

impl Clone for Metric {
    fn clone(&self) -> (copy: Self)
        ensures
            copy@ == self@,
    {
        Metric {
            value: self.value.clone(),
            partition: self.partition,
            labels: clone_labels(&self.labels),
        }
    }
}

impl Clone for MetricsSet {
    fn clone(&self) -> (copy: Self)
        ensures
            copy@ == self@,
    {
        let mut copy = MetricsSet::new();
        for i in 0..self.metrics.len()
            invariant
                copy@ =~= self@.take(i as int),
        {
            copy.push(self.metrics[i].clone());
        }
        copy
    }
}

} // verus!
