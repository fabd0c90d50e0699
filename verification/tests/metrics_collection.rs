use datafusion_distributed::metrics::collection::MetricsCollection;
use datafusion_distributed::metrics::executed_plan::{Boundary, ExecutedPlan, InputStage};
use datafusion_distributed::metrics::metric::{Label, Metric, MetricValue, MetricsSet};
use datafusion_distributed::metrics::task_metrics_collector::TaskMetricsCollector;
use datafusion_distributed::metrics::task_metrics_rewriter::{
    annotate_metrics_set_with_task_id, rewrite_distributed_plan_with_metrics,
    stage_metrics_rewriter, DistributedMetricsFormat, RewriteError, RootPlan,
    DISTRIBUTED_DATAFUSION_TASK_ID_LABEL,
};
use datafusion_distributed::protocol::grpc::metrics_proto::df_metrics_set_to_proto;
use datafusion_distributed::protocol::grpc::worker as pb;

fn rows(n: usize) -> MetricsSet {
    let mut set = MetricsSet::new();
    set.push(Metric { value: MetricValue::OutputRows(n), partition: Some(0), labels: vec![] });
    set
}

fn rows_of(set: &MetricsSet) -> Vec<(usize, Option<String>)> {
    set.metrics
        .iter()
        .map(|m| match &m.value {
            MetricValue::OutputRows(n) => {
                (*n, m.labels.iter().map(|l| l.value.clone()).next())
            }
            _ => panic!("expected rows"),
        })
        .collect()
}

fn key(stage_id: u64, task_number: u64) -> pb::TaskKey {
    pb::TaskKey { query_id: vec![9; 16], stage_id, task_number }
}

fn leaf(id: usize, metrics: Option<MetricsSet>) -> ExecutedPlan {
    ExecutedPlan { id, metrics, boundary: None, children: vec![] }
}

#[test]
fn test_annotate_metrics_set_with_task_id_output_rows() {
    // Create a MetricsSet with an OutputRows metric
    let mut metrics_set = MetricsSet::new();
    metrics_set.push(Metric {
        value: MetricValue::OutputRows(1234),
        partition: Some(0),
        labels: vec![Label { name: "operator".to_string(), value: "scan".to_string() }],
    });

    let task_id = 42;
    let annotated = annotate_metrics_set_with_task_id(metrics_set, task_id);

    // Verify we have one metric
    assert_eq!(annotated.metrics.len(), 1);

    let metric = &annotated.metrics[0];

    // Verify metric type is preserved (OutputRows)
    match metric.value {
        MetricValue::OutputRows(count) => {
            assert_eq!(count, 1234);
        }
        _ => panic!("Expected OutputRows"),
    }

    // Verify partition is preserved
    assert_eq!(metric.partition, Some(0));

    // Verify original labels are preserved and task_id label is added
    assert_eq!(metric.labels.len(), 2);
    assert_eq!(metric.labels[0].name, "operator");
    assert_eq!(metric.labels[0].value, "scan");
    assert_eq!(metric.labels[1].name, DISTRIBUTED_DATAFUSION_TASK_ID_LABEL);
    assert_eq!(metric.labels[1].value, "42");
}

#[test]
fn a_collection_keeps_the_last_metrics_of_each_task() {
    let mut collection = MetricsCollection::new();
    collection.insert(key(1, 0), vec![]);
    collection.insert(key(1, 1), vec![df_metrics_set_to_proto(&rows(5)).unwrap()]);
    collection.insert(key(1, 0), vec![df_metrics_set_to_proto(&rows(7)).unwrap()]);
    assert_eq!(collection.get(&key(1, 0)).unwrap().len(), 1);
    assert!(collection.get(&key(2, 0)).is_none());
    let mut taken: Vec<u64> = collection.take().iter().map(|(k, _)| k.task_number).collect();
    taken.sort();
    assert_eq!(taken, vec![0, 1]);
    assert_eq!(collection.get(&key(1, 1)).unwrap().len(), 0);
}

#[test]
fn a_collector_gathers_the_metrics_of_its_task_and_of_those_below() {
    let mut below = MetricsCollection::new();
    below.insert(key(1, 0), vec![df_metrics_set_to_proto(&rows(3)).unwrap()]);
    let boundary = ExecutedPlan {
        id: 1,
        metrics: Some(rows(2)),
        boundary: Some(Boundary {
            stage: InputStage { query_id: vec![9; 16], num: 1, task_count: 1 },
            metrics_collection: below,
        }),
        children: vec![leaf(2, Some(rows(99)))],
    };
    let mut plan =
        ExecutedPlan { id: 0, metrics: None, boundary: None, children: vec![boundary] };
    let result = TaskMetricsCollector::new().collect(&mut plan).ok().unwrap();
    let counts: Vec<usize> = result.task_metrics.iter().map(|s| s.metrics.len()).collect();
    assert_eq!(counts, vec![0, 1]);
    assert_eq!(rows_of(&result.task_metrics[1]), vec![(2, None)]);
    assert_eq!(result.input_task_metrics.get(&key(1, 0)).unwrap().len(), 1);
}

#[test]
fn a_stage_is_shown_with_the_metrics_of_all_its_tasks() {
    let stage = InputStage { query_id: vec![9; 16], num: 1, task_count: 2 };
    let mut collection = MetricsCollection::new();
    collection.insert(key(1, 0), vec![df_metrics_set_to_proto(&rows(3)).unwrap()]);
    let missing = stage_metrics_rewriter(
        &stage,
        Some(leaf(5, None)),
        &collection,
        DistributedMetricsFormat::PerTask,
    );
    let error = missing.err().unwrap();
    assert!(matches!(error, RewriteError::MissingTaskMetrics { task_id: 1, stage: 1 }));
    assert_eq!(
        error.message(""),
        "not enough metrics provided to rewrite task: missing metrics for task 1 in stage 1"
    );
    collection.insert(key(1, 1), vec![df_metrics_set_to_proto(&rows(4)).unwrap()]);
    let shown = stage_metrics_rewriter(
        &stage,
        Some(leaf(5, None)),
        &collection,
        DistributedMetricsFormat::PerTask,
    )
    .ok()
    .unwrap();
    assert_eq!(shown.id, 5);
    assert_eq!(
        rows_of(shown.metrics.as_ref().unwrap()),
        vec![(3, Some("0".to_string())), (4, Some("1".to_string()))]
    );
    let aggregated = stage_metrics_rewriter(
        &stage,
        Some(leaf(5, None)),
        &collection,
        DistributedMetricsFormat::Aggregated,
    )
    .ok()
    .unwrap();
    assert_eq!(rows_of(aggregated.metrics.as_ref().unwrap()), vec![(3, None), (4, None)]);
}

#[test]
fn a_plan_that_did_not_run_has_no_metrics() {
    let root = RootPlan::Distributed { plan: leaf(0, None), prepared_plan: None };
    let result = rewrite_distributed_plan_with_metrics(root, DistributedMetricsFormat::Aggregated);
    assert!(matches!(result.err(), Some(RewriteError::NotExecuted)));
}

#[test]
fn a_local_plan_is_left_as_it_is() {
    let result = rewrite_distributed_plan_with_metrics(
        RootPlan::Local(leaf(3, Some(rows(1)))),
        DistributedMetricsFormat::Aggregated,
    );
    match result.ok().unwrap() {
        RootPlan::Local(plan) => {
            assert_eq!(plan.id, 3);
            assert_eq!(rows_of(plan.metrics.as_ref().unwrap()), vec![(1, None)]);
        }
        _ => panic!("expected a local plan"),
    }
}

fn node(id: usize, children: Vec<ExecutedPlan>) -> ExecutedPlan {
    ExecutedPlan { id, metrics: None, boundary: None, children }
}

fn chain(n: usize) -> ExecutedPlan {
    let mut plan = node(n - 1, vec![]);
    for id in (0..n - 1).rev() {
        plan = node(id, vec![plan]);
    }
    plan
}

fn seeded(seed: usize) -> MetricsSet {
    let mut set = rows(seed);
    for value in [
        MetricValue::ElapsedCompute(seed + 1),
        MetricValue::SpillCount(seed + 2),
        MetricValue::Count { name: "count".to_string(), count: seed + 3 },
    ] {
        set.push(Metric { value, partition: None, labels: vec![] });
    }
    set
}

fn in_order<'a>(plan: &'a ExecutedPlan, found: &mut Vec<&'a ExecutedPlan>) {
    found.push(plan);
    for child in &plan.children {
        in_order(child, found);
    }
}

fn numbers(set: &MetricsSet) -> Vec<(usize, Option<String>)> {
    set.metrics
        .iter()
        .map(|m| {
            let n = match &m.value {
                MetricValue::OutputRows(n) => *n,
                MetricValue::ElapsedCompute(n) => *n,
                MetricValue::SpillCount(n) => *n,
                MetricValue::Count { count, .. } => *count,
                _ => panic!("expected a number"),
            };
            (n, m.labels.last().map(|l| l.value.clone()))
        })
        .collect()
}

fn run_stage_metrics_rewriter_test(plan: impl Fn() -> ExecutedPlan) {
    for format in [DistributedMetricsFormat::Aggregated, DistributedMetricsFormat::PerTask] {
        let tasks = 4;
        let stage = InputStage { query_id: vec![9; 16], num: 1, task_count: tasks };
        let shape = plan();
        let mut nodes = vec![];
        in_order(&shape, &mut nodes);
        let mut collection = MetricsCollection::new();
        for task in 0..tasks {
            let sets = (0..nodes.len())
                .map(|id| df_metrics_set_to_proto(&seeded(id * task)).unwrap())
                .collect();
            collection.insert(key(1, task as u64), sets);
        }
        let rewritten =
            stage_metrics_rewriter(&stage, Some(plan()), &collection, format).ok().unwrap();
        let mut shown = vec![];
        in_order(&rewritten, &mut shown);
        assert_eq!(shown.len(), nodes.len());
        for (id, node) in shown.iter().enumerate() {
            assert_eq!(node.id, nodes[id].id);
            let mut expected = vec![];
            for task in 0..tasks {
                let label = match format {
                    DistributedMetricsFormat::PerTask => Some(task.to_string()),
                    DistributedMetricsFormat::Aggregated => None,
                };
                expected.extend((0..4).map(|i| (id * task + i, label.clone())));
            }
            assert_eq!(numbers(node.metrics.as_ref().unwrap()), expected);
        }
    }
}

#[test]
fn test_stage_metrics_rewriter_1() {
    run_stage_metrics_rewriter_test(|| chain(5));
}

#[test]
fn test_stage_metrics_rewriter_2() {
    run_stage_metrics_rewriter_test(|| chain(9));
}

#[test]
fn test_stage_metrics_rewriter_3() {
    run_stage_metrics_rewriter_test(|| {
        node(0, vec![node(1, vec![node(2, vec![]), node(3, vec![node(4, vec![])])])])
    });
}

#[test]
fn test_rewrite_unexecuted_distributed_plan_with_metrics_err() {
    let root = RootPlan::Distributed { plan: chain(4), prepared_plan: None };
    let result = rewrite_distributed_plan_with_metrics(root, DistributedMetricsFormat::Aggregated);
    assert_eq!(
        result.err().unwrap().message(""),
        "No prepared plan found. Was execute() called?"
    );
}

fn executed(below: Option<MetricsCollection>) -> ExecutedPlan {
    let stage = InputStage { query_id: vec![9; 16], num: 1, task_count: 2 };
    let sent = below.is_some();
    let boundary = Boundary {
        stage,
        metrics_collection: below.unwrap_or_else(MetricsCollection::new),
    };
    ExecutedPlan {
        id: 0,
        metrics: Some(rows(1)),
        boundary: None,
        children: vec![ExecutedPlan {
            id: 1,
            metrics: Some(rows(2)),
            boundary: Some(boundary),
            children: if sent { vec![] } else { vec![node(2, vec![node(3, vec![])])] },
        }],
    }
}

fn sent_metrics() -> MetricsCollection {
    let mut below = MetricsCollection::new();
    for task in 0..2 {
        let sets = (0..2).map(|n| df_metrics_set_to_proto(&rows(10 * task + n)).unwrap()).collect();
        below.insert(key(1, task as u64), sets);
    }
    below
}

#[test]
fn test_metrics_collection_e2e_1() {
    let mut plan = executed(Some(sent_metrics()));
    let result = TaskMetricsCollector::new().collect(&mut plan).ok().unwrap();
    assert_eq!(result.task_metrics.len(), 2);
    for task in 0..2 {
        assert_eq!(result.input_task_metrics.get(&key(1, task)).unwrap().len(), 2);
    }
}

#[test]
fn test_executed_distributed_plan_has_metrics() {
    let root = RootPlan::Distributed {
        plan: executed(None),
        prepared_plan: Some(executed(Some(sent_metrics()))),
    };
    let result = rewrite_distributed_plan_with_metrics(root, DistributedMetricsFormat::PerTask);
    match result.ok().unwrap() {
        RootPlan::Distributed { plan, prepared_plan } => {
            // What was executed is kept, without the metrics that were taken out of it.
            let prepared = prepared_plan.unwrap();
            let boundary = prepared.children[0].boundary.as_ref().unwrap();
            for task in 0..2 {
                let kept = boundary.metrics_collection.get(&key(1, task)).unwrap();
                assert!(kept.is_empty());
            }
            let mut shown = vec![];
            in_order(&plan, &mut shown);
            let labels: Vec<_> =
                shown.iter().map(|n| rows_of(n.metrics.as_ref().unwrap())).collect();
            let zero = || Some("0".to_string());
            let one = || Some("1".to_string());
            assert_eq!(
                labels,
                vec![
                    vec![(1, zero())],
                    vec![(2, zero())],
                    vec![(0, zero()), (10, one())],
                    vec![(1, zero()), (11, one())],
                ]
            );
        }
        _ => panic!("expected a plan that runs in stages"),
    }
}
