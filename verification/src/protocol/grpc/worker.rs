use crate::metrics::metric::LabelView;
use crate::metrics::proto::{
    clone_proto_labels, proto_label_views, CurrentMemoryUsage, ElapsedCompute, EndTimestamp,
    NamedCount, NamedGauge, NamedTime, OutputRows, ProtoLabel, SpillCount, SpilledBytes,
    SpilledRows, StartTimestamp,
};
use vstd::prelude::*;

verus! {

/// Tells the tasks of a query apart.
#[derive(Debug)]
pub struct TaskKey {
    pub query_id: Vec<u8>,
    pub stage_id: u64,
    pub task_number: u64,
}

/// The contents of a [TaskKey].
#[verifier::ext_equal]
pub struct TaskKeyView {
    pub query_id: Seq<u8>,
    pub stage_id: u64,
    pub task_number: u64,
}

impl View for TaskKey {
    type V = TaskKeyView;

    open spec fn view(&self) -> TaskKeyView {
        TaskKeyView {
            query_id: self.query_id@,
            stage_id: self.stage_id,
            task_number: self.task_number,
        }
    }
}

impl TaskKey {
    /// Whether two keys are of the same task.
    pub fn same(&self, other: &TaskKey) -> (same: bool)
        ensures
            same == (self@ == other@),
    {
        if self.stage_id != other.stage_id || self.task_number != other.task_number {
            return false;
        }
        if self.query_id.len() != other.query_id.len() {
            return false;
        }
        for i in 0..self.query_id.len()
            invariant
                self.query_id@.len() == other.query_id@.len(),
                self.query_id@.take(i as int) =~= other.query_id@.take(i as int),
        {
            if self.query_id[i] != other.query_id[i] {
                return false;
            }
            proof {
                assert(self.query_id@.take(i + 1) =~= self.query_id@.take(i as int).push(
                    self.query_id@[i as int],
                ));
                assert(other.query_id@.take(i + 1) =~= other.query_id@.take(i as int).push(
                    other.query_id@[i as int],
                ));
            }
        }
        proof {
            assert(self.query_id@.take(self.query_id@.len() as int) =~= self.query_id@);
            assert(other.query_id@.take(other.query_id@.len() as int) =~= other.query_id@);
            assert(self@ =~= other@);
        }
        true
    }
}

impl Clone for TaskKey {
    fn clone(&self) -> (copy: Self)
        ensures
            copy@ == self@,
    {
        TaskKey {
            query_id: clone_bytes(&self.query_id),
            stage_id: self.stage_id,
            task_number: self.task_number,
        }
    }
}

/// A copy of some bytes.
pub fn clone_bytes(bytes: &Vec<u8>) -> (copy: Vec<u8>)
    ensures
        copy@ == bytes@,
{
    let mut copy: Vec<u8> = Vec::new();
    for i in 0..bytes.len()
        invariant
            copy@ =~= bytes@.take(i as int),
    {
        copy.push(bytes[i]);
    }
    copy
}

/// The bytes that a node has put out.
#[derive(Debug, Clone, Copy, PartialEq, Eq, Structural)]
pub struct OutputBytes {
    pub value: u64,
}

/// The batches that a node has put out.
#[derive(Debug, Clone, Copy, PartialEq, Eq, Structural)]
pub struct OutputBatches {
    pub value: u64,
}

/// How much of its input a predicate could skip.
#[derive(Debug)]
pub struct NamedPruningMetrics {
    pub name: String,
    pub pruned: u64,
    pub matched: u64,
}

/// A part of a total.
#[derive(Debug)]
pub struct NamedRatio {
    pub name: String,
    pub part: u64,
    pub total: u64,
}

/// The smallest latency, in nanoseconds.
#[derive(Debug)]
pub struct MinLatency {
    pub name: String,
    pub value: u64,
}

/// The largest latency, in nanoseconds.
#[derive(Debug)]
pub struct MaxLatency {
    pub name: String,
    pub value: u64,
}

/// The first latency, in nanoseconds.
#[derive(Debug)]
pub struct FirstLatency {
    pub name: String,
    pub value: u64,
}

/// A number of bytes.
#[derive(Debug)]
pub struct BytesCount {
    pub name: String,
    pub value: u64,
}

/// The largest value of a gauge.
#[derive(Debug)]
pub struct MaxGauge {
    pub name: String,
    pub value: u64,
}

/// The sum of latencies in nanoseconds, and how many there were.
#[derive(Debug)]
pub struct AvgLatency {
    pub name: String,
    pub nanos_sum: u64,
    pub count: u64,
}

/// A sketch of latencies from which a percentile is read.
#[derive(Debug)]
pub struct PercentileLatency {
    pub name: String,
    pub sketch_bytes: Vec<u8>,
}

/// A measurement as it is sent over the wire.
#[derive(Debug)]
pub enum Value {
    OutputRows(OutputRows),
    ElapsedCompute(ElapsedCompute),
    SpillCount(SpillCount),
    SpilledBytes(SpilledBytes),
    SpilledRows(SpilledRows),
    CurrentMemoryUsage(CurrentMemoryUsage),
    OutputBytes(OutputBytes),
    OutputBatches(OutputBatches),
    Count(NamedCount),
    Gauge(NamedGauge),
    Time(NamedTime),
    StartTimestamp(StartTimestamp),
    EndTimestamp(EndTimestamp),
    PruningMetrics(NamedPruningMetrics),
    Ratio(NamedRatio),
    CustomMinLatency(MinLatency),
    CustomMaxLatency(MaxLatency),
    CustomFirstLatency(FirstLatency),
    CustomBytesCount(BytesCount),
    CustomMaxGauge(MaxGauge),
    CustomAvgLatency(AvgLatency),
    CustomP50Latency(PercentileLatency),
    CustomP75Latency(PercentileLatency),
    CustomP95Latency(PercentileLatency),
    CustomP99Latency(PercentileLatency),
}

/// The contents of a [Value].
#[verifier::ext_equal]
pub enum ValueView {
    OutputRows(u64),
    ElapsedCompute(u64),
    SpillCount(u64),
    SpilledBytes(u64),
    SpilledRows(u64),
    CurrentMemoryUsage(u64),
    OutputBytes(u64),
    OutputBatches(u64),
    Count { name: Seq<char>, value: u64 },
    Gauge { name: Seq<char>, value: u64 },
    Time { name: Seq<char>, value: u64 },
    StartTimestamp(Option<i64>),
    EndTimestamp(Option<i64>),
    PruningMetrics { name: Seq<char>, pruned: u64, matched: u64 },
    Ratio { name: Seq<char>, part: u64, total: u64 },
    CustomMinLatency { name: Seq<char>, value: u64 },
    CustomMaxLatency { name: Seq<char>, value: u64 },
    CustomFirstLatency { name: Seq<char>, value: u64 },
    CustomBytesCount { name: Seq<char>, value: u64 },
    CustomMaxGauge { name: Seq<char>, value: u64 },
    CustomAvgLatency { name: Seq<char>, nanos_sum: u64, count: u64 },
    CustomP50Latency { name: Seq<char>, sketch_bytes: Seq<u8> },
    CustomP75Latency { name: Seq<char>, sketch_bytes: Seq<u8> },
    CustomP95Latency { name: Seq<char>, sketch_bytes: Seq<u8> },
    CustomP99Latency { name: Seq<char>, sketch_bytes: Seq<u8> },
}

impl View for Value {
    type V = ValueView;

    open spec fn view(&self) -> ValueView {
        match self {
            Value::OutputRows(v) => ValueView::OutputRows(v.value),
            Value::ElapsedCompute(v) => ValueView::ElapsedCompute(v.value),
            Value::SpillCount(v) => ValueView::SpillCount(v.value),
            Value::SpilledBytes(v) => ValueView::SpilledBytes(v.value),
            Value::SpilledRows(v) => ValueView::SpilledRows(v.value),
            Value::CurrentMemoryUsage(v) => ValueView::CurrentMemoryUsage(v.value),
            Value::OutputBytes(v) => ValueView::OutputBytes(v.value),
            Value::OutputBatches(v) => ValueView::OutputBatches(v.value),
            Value::Count(v) => ValueView::Count { name: v.name@, value: v.value },
            Value::Gauge(v) => ValueView::Gauge { name: v.name@, value: v.value },
            Value::Time(v) => ValueView::Time { name: v.name@, value: v.value },
            Value::StartTimestamp(v) => ValueView::StartTimestamp(v.value),
            Value::EndTimestamp(v) => ValueView::EndTimestamp(v.value),
            Value::PruningMetrics(v) => ValueView::PruningMetrics {
                name: v.name@,
                pruned: v.pruned,
                matched: v.matched,
            },
            Value::Ratio(v) => ValueView::Ratio {
                name: v.name@,
                part: v.part,
                total: v.total,
            },
            Value::CustomMinLatency(v) => ValueView::CustomMinLatency { name: v.name@, value: v.value },
            Value::CustomMaxLatency(v) => ValueView::CustomMaxLatency { name: v.name@, value: v.value },
            Value::CustomFirstLatency(v) => ValueView::CustomFirstLatency { name: v.name@, value: v.value },
            Value::CustomBytesCount(v) => ValueView::CustomBytesCount { name: v.name@, value: v.value },
            Value::CustomMaxGauge(v) => ValueView::CustomMaxGauge { name: v.name@, value: v.value },
            Value::CustomAvgLatency(v) => ValueView::CustomAvgLatency {
                name: v.name@,
                nanos_sum: v.nanos_sum,
                count: v.count,
            },
            Value::CustomP50Latency(v) => ValueView::CustomP50Latency {
                name: v.name@,
                sketch_bytes: v.sketch_bytes@,
            },
            Value::CustomP75Latency(v) => ValueView::CustomP75Latency {
                name: v.name@,
                sketch_bytes: v.sketch_bytes@,
            },
            Value::CustomP95Latency(v) => ValueView::CustomP95Latency {
                name: v.name@,
                sketch_bytes: v.sketch_bytes@,
            },
            Value::CustomP99Latency(v) => ValueView::CustomP99Latency {
                name: v.name@,
                sketch_bytes: v.sketch_bytes@,
            },
        }
    }
}

impl Clone for Value {
    fn clone(&self) -> (copy: Self)
        ensures
            copy@ == self@,
    {
        match self {
            Value::OutputRows(v) => Value::OutputRows(*v),
            Value::ElapsedCompute(v) => Value::ElapsedCompute(*v),
            Value::SpillCount(v) => Value::SpillCount(*v),
            Value::SpilledBytes(v) => Value::SpilledBytes(*v),
            Value::SpilledRows(v) => Value::SpilledRows(*v),
            Value::CurrentMemoryUsage(v) => Value::CurrentMemoryUsage(*v),
            Value::OutputBytes(v) => Value::OutputBytes(*v),
            Value::OutputBatches(v) => Value::OutputBatches(*v),
            Value::Count(v) => Value::Count(NamedCount { name: v.name.clone(), value: v.value }),
            Value::Gauge(v) => Value::Gauge(NamedGauge { name: v.name.clone(), value: v.value }),
            Value::Time(v) => Value::Time(NamedTime { name: v.name.clone(), value: v.value }),
            Value::StartTimestamp(v) => Value::StartTimestamp(*v),
            Value::EndTimestamp(v) => Value::EndTimestamp(*v),
            Value::PruningMetrics(v) => Value::PruningMetrics(
                NamedPruningMetrics { name: v.name.clone(), pruned: v.pruned, matched: v.matched },
            ),
            Value::Ratio(v) => Value::Ratio(
                NamedRatio { name: v.name.clone(), part: v.part, total: v.total },
            ),
            Value::CustomMinLatency(v) => Value::CustomMinLatency(
                MinLatency { name: v.name.clone(), value: v.value },
            ),
            Value::CustomMaxLatency(v) => Value::CustomMaxLatency(
                MaxLatency { name: v.name.clone(), value: v.value },
            ),
            Value::CustomFirstLatency(v) => Value::CustomFirstLatency(
                FirstLatency { name: v.name.clone(), value: v.value },
            ),
            Value::CustomBytesCount(v) => Value::CustomBytesCount(
                BytesCount { name: v.name.clone(), value: v.value },
            ),
            Value::CustomMaxGauge(v) => Value::CustomMaxGauge(
                MaxGauge { name: v.name.clone(), value: v.value },
            ),
            Value::CustomAvgLatency(v) => Value::CustomAvgLatency(
                AvgLatency { name: v.name.clone(), nanos_sum: v.nanos_sum, count: v.count },
            ),
            Value::CustomP50Latency(v) => Value::CustomP50Latency(
                PercentileLatency {
                    name: v.name.clone(),
                    sketch_bytes: clone_bytes(&v.sketch_bytes),
                },
            ),
            Value::CustomP75Latency(v) => Value::CustomP75Latency(
                PercentileLatency {
                    name: v.name.clone(),
                    sketch_bytes: clone_bytes(&v.sketch_bytes),
                },
            ),
            Value::CustomP95Latency(v) => Value::CustomP95Latency(
                PercentileLatency {
                    name: v.name.clone(),
                    sketch_bytes: clone_bytes(&v.sketch_bytes),
                },
            ),
            Value::CustomP99Latency(v) => Value::CustomP99Latency(
                PercentileLatency {
                    name: v.name.clone(),
                    sketch_bytes: clone_bytes(&v.sketch_bytes),
                },
            ),
        }
    }
}

/// A metric as it is sent over the wire.
#[derive(Debug)]
pub struct Metric {
    pub value: Option<Value>,
    pub partition: Option<u64>,
    pub labels: Vec<ProtoLabel>,
}

/// The contents of a [Metric].
#[verifier::ext_equal]
pub struct WireMetricView {
    pub value: Option<ValueView>,
    pub partition: Option<u64>,
    pub labels: Seq<LabelView>,
}

impl View for Metric {
    type V = WireMetricView;

    open spec fn view(&self) -> WireMetricView {
        WireMetricView {
            value: match self.value {
                Some(value) => Some(value@),
                None => None,
            },
            partition: self.partition,
            labels: proto_label_views(self.labels@),
        }
    }
}

impl Clone for Metric {
    fn clone(&self) -> (copy: Self)
        ensures
            copy@ == self@,
    {
        let value = match &self.value {
            Some(value) => Some(value.clone()),
            None => None,
        };
        Metric { value, partition: self.partition, labels: clone_proto_labels(&self.labels) }
    }
}

/// All the metrics of one node of a plan, as they are sent over the wire.
#[derive(Debug)]
pub struct MetricsSet {
    pub metrics: Vec<Metric>,
}

pub open spec fn wire_metric_views(metrics: Seq<Metric>) -> Seq<WireMetricView> {
    Seq::new(metrics.len(), |i: int| metrics[i]@)
}

impl View for MetricsSet {
    type V = Seq<WireMetricView>;

    open spec fn view(&self) -> Seq<WireMetricView> {
        wire_metric_views(self.metrics@)
    }
}

impl MetricsSet {
    /// A set without metrics.
    pub fn new() -> (set: Self)
        ensures
            set@ == Seq::<WireMetricView>::empty(),
    {
        let set = MetricsSet { metrics: Vec::new() };
        proof {
            assert(set@ =~= Seq::empty());
        }
        set
    }

    /// Adds a metric.
    pub fn push(&mut self, metric: Metric)
        ensures
            final(self)@ == old(self)@.push(metric@),
    {
        self.metrics.push(metric);
        proof {
            assert(self@ =~= old(self)@.push(metric@));
        }
    }
}

} // verus!
