use datafusion_distributed::distributed_planner::insert_broadcast::insert_broadcast_execs;
use datafusion_distributed::distributed_planner::plan::{
    CardinalityEffect, JoinType, Node, NodeKind, PartitionMode, Partitioning, Plan,
};
use datafusion_distributed::distributed_planner::plan_annotator::{
    annotate_plan, resolve_max_tasks, AnnotationOutcome, PlannerConfig, ScaleFactor,
};
use datafusion_distributed::distributed_planner::task_estimator::TaskCountAnnotation;

const NAMES: [&str; 6] = [
    "DataSourceExec",
    "FilterExec",
    "ProjectionExec",
    "AggregateExec",
    "SortExec",
    "BoundedWindowAggExec",
];

fn names() -> Vec<String> {
    NAMES.iter().map(|n| n.to_string()).collect()
}

fn plan(
    id: Option<usize>,
    kind: NodeKind,
    partitioning: Partitioning,
    cardinality_effect: CardinalityEffect,
    children: Vec<Plan>,
) -> Plan {
    Plan {
        node: Node { id, kind, partitioning, cardinality_effect, estimation: None },
        task_idx_map: vec![],
        children,
    }
}

fn other(name: &str, effect: CardinalityEffect, child: Plan) -> Plan {
    let id = NAMES.iter().position(|n| *n == name).unwrap();
    let partitioning = child.node.partitioning;
    plan(Some(id), NodeKind::Other, partitioning, effect, vec![child])
}

fn data_source() -> Plan {
    let mut source = plan(
        Some(0),
        NodeKind::Other,
        Partitioning::UnknownPartitioning(3),
        CardinalityEffect::Unknown,
        vec![],
    );
    source.node.estimation = Some(TaskCountAnnotation::Desired(3));
    source
}

fn filter(child: Plan) -> Plan {
    other("FilterExec", CardinalityEffect::LowerEqual, child)
}

fn projection(child: Plan) -> Plan {
    other("ProjectionExec", CardinalityEffect::Equal, child)
}

fn aggregate(child: Plan) -> Plan {
    other("AggregateExec", CardinalityEffect::LowerEqual, child)
}

fn sort(child: Plan) -> Plan {
    other("SortExec", CardinalityEffect::Equal, child)
}

fn repartition(partitioning: Partitioning, child: Plan) -> Plan {
    plan(None, NodeKind::Repartition, partitioning, CardinalityEffect::Equal, vec![child])
}

fn hash(child: Plan) -> Plan {
    repartition(Partitioning::Hash(4), child)
}

fn round_robin(child: Plan) -> Plan {
    repartition(Partitioning::RoundRobinBatch(4), child)
}

fn coalesce(child: Plan) -> Plan {
    plan(
        None,
        NodeKind::CoalescePartitions,
        Partitioning::UnknownPartitioning(1),
        CardinalityEffect::Equal,
        vec![child],
    )
}

fn merge(child: Plan) -> Plan {
    plan(
        None,
        NodeKind::SortPreservingMerge,
        Partitioning::UnknownPartitioning(1),
        CardinalityEffect::Equal,
        vec![child],
    )
}

fn join(join_type: JoinType, build: Plan, probe: Plan) -> Plan {
    let partitioning = probe.node.partitioning;
    plan(
        None,
        NodeKind::HashJoin { mode: PartitionMode::CollectLeft, join_type },
        partitioning,
        CardinalityEffect::Unknown,
        vec![build, probe],
    )
}

fn union(children: Vec<Plan>) -> Plan {
    let count = children.iter().map(|c| c.node.partitioning.partition_count()).sum();
    plan(
        None,
        NodeKind::Union,
        Partitioning::UnknownPartitioning(count),
        CardinalityEffect::Unknown,
        children,
    )
}

fn estimate(
    plan: &mut Plan,
    estimation: TaskCountAnnotation,
    applies: &dyn Fn(&Plan) -> bool,
) {
    for child in plan.children.iter_mut() {
        estimate(child, estimation, applies);
    }
    if applies(plan) {
        plan.node.estimation = Some(estimation);
    }
}

fn evaluate(factor: &ScaleFactor, f: f64) -> f64 {
    match factor {
        ScaleFactor::One => 1.0,
        ScaleFactor::Divided(inner) => evaluate(inner, f) / f,
        ScaleFactor::Multiplied(inner) => evaluate(inner, f) * f,
        ScaleFactor::Larger(a, b) => evaluate(a, f).max(evaluate(b, f)),
    }
}

fn config(broadcast_joins: bool, workers: usize) -> PlannerConfig {
    PlannerConfig {
        broadcast_joins,
        children_isolator_unions: true,
        max_tasks: resolve_max_tasks(0, workers),
    }
}

fn annotated(plan: &Plan, cfg: &PlannerConfig) -> String {
    let mut known = vec![];
    loop {
        match annotate_plan(plan, cfg, &known) {
            AnnotationOutcome::Done(annotated) => {
                assert!(annotated.is_named(&names()));
                return annotated.fmt(&names());
            }
            AnnotationOutcome::NeedsTaskCount { previous, factor } => {
                known.push((previous as f64 * evaluate(&factor, 1.5)).ceil() as usize);
            }
            AnnotationOutcome::Failed(e) => panic!("{e:?}"),
        }
    }
}

fn assert_annotated(plan: Plan, cfg: PlannerConfig, expected: &[&str]) {
    let plan = insert_broadcast_execs(plan, &cfg);
    let text = annotated(&plan, &cfg);
    let lines: Vec<&str> = text.lines().collect();
    assert_eq!(lines, expected);
}

#[test]
fn plan_annotator_test_select_all() {
    assert_annotated(data_source(), config(false, 4), &["DataSourceExec: task_count=Desired(3)"]);
}

#[test]
fn plan_annotator_test_aggregation() {
    assert_annotated(
        projection(merge(sort(projection(aggregate(hash(aggregate(data_source()))))))),
        config(false, 4),
        &[
            "ProjectionExec: task_count=Maximum(1)",
            "  SortPreservingMergeExec: task_count=Maximum(1)",
            "    [NetworkBoundary] Coalesce: task_count=Maximum(1)",
            "      SortExec: task_count=Desired(2)",
            "        ProjectionExec: task_count=Desired(2)",
            "          AggregateExec: task_count=Desired(2)",
            "            [NetworkBoundary] Shuffle: task_count=Desired(2)",
            "              RepartitionExec: task_count=Desired(3)",
            "                AggregateExec: task_count=Desired(3)",
            "                  DataSourceExec: task_count=Desired(3)",
        ],
    );
}

#[test]
fn plan_annotator_test_left_join() {
    assert_annotated(
        join(JoinType::Left, coalesce(data_source()), data_source()),
        config(false, 4),
        &[
            "HashJoinExec: task_count=Maximum(1)",
            "  CoalescePartitionsExec: task_count=Maximum(1)",
            "    DataSourceExec: task_count=Maximum(1)",
            "  DataSourceExec: task_count=Maximum(1)",
        ],
    );
}

#[test]
fn plan_annotator_test_left_join_distributed() {
    let side = || {
        projection(aggregate(hash(aggregate(filter(round_robin(data_source()))))))
    };
    assert_annotated(
        join(JoinType::Left, coalesce(side()), side()),
        config(false, 4),
        &[
            "HashJoinExec: task_count=Maximum(1)",
            "  CoalescePartitionsExec: task_count=Maximum(1)",
            "    [NetworkBoundary] Coalesce: task_count=Maximum(1)",
            "      ProjectionExec: task_count=Desired(2)",
            "        AggregateExec: task_count=Desired(2)",
            "          [NetworkBoundary] Shuffle: task_count=Desired(2)",
            "            RepartitionExec: task_count=Desired(3)",
            "              AggregateExec: task_count=Desired(3)",
            "                FilterExec: task_count=Desired(3)",
            "                  RepartitionExec: task_count=Desired(3)",
            "                    DataSourceExec: task_count=Desired(3)",
            "  ProjectionExec: task_count=Maximum(1)",
            "    AggregateExec: task_count=Maximum(1)",
            "      [NetworkBoundary] Shuffle: task_count=Maximum(1)",
            "        RepartitionExec: task_count=Desired(3)",
            "          AggregateExec: task_count=Desired(3)",
            "            FilterExec: task_count=Desired(3)",
            "              RepartitionExec: task_count=Desired(3)",
            "                DataSourceExec: task_count=Desired(3)",
        ],
    );
}

#[test]
fn test_inner_join() {
    assert_annotated(
        join(JoinType::Inner, coalesce(data_source()), data_source()),
        config(false, 4),
        &[
            "HashJoinExec: task_count=Maximum(1)",
            "  CoalescePartitionsExec: task_count=Maximum(1)",
            "    DataSourceExec: task_count=Maximum(1)",
            "  DataSourceExec: task_count=Maximum(1)",
        ],
    );
}

#[test]
fn plan_annotator_test_distinct() {
    assert_annotated(
        aggregate(hash(aggregate(data_source()))),
        config(false, 4),
        &[
            "AggregateExec: task_count=Desired(2)",
            "  [NetworkBoundary] Shuffle: task_count=Desired(2)",
            "    RepartitionExec: task_count=Desired(3)",
            "      AggregateExec: task_count=Desired(3)",
            "        DataSourceExec: task_count=Desired(3)",
        ],
    );
}

#[test]
fn test_union_all() {
    assert_annotated(
        union(vec![
            filter(round_robin(data_source())),
            projection(filter(round_robin(data_source()))),
        ]),
        config(false, 4),
        &[
            "ChildrenIsolatorUnionExec: task_count=Desired(4)",
            "  FilterExec: task_count=Maximum(2)",
            "    RepartitionExec: task_count=Maximum(2)",
            "      DataSourceExec: task_count=Maximum(2)",
            "  ProjectionExec: task_count=Maximum(2)",
            "    FilterExec: task_count=Maximum(2)",
            "      RepartitionExec: task_count=Maximum(2)",
            "        DataSourceExec: task_count=Maximum(2)",
        ],
    );
}

#[test]
fn test_subquery() {
    assert_annotated(
        filter(round_robin(data_source())),
        config(false, 4),
        &[
            "FilterExec: task_count=Desired(3)",
            "  RepartitionExec: task_count=Desired(3)",
            "    DataSourceExec: task_count=Desired(3)",
        ],
    );
}

#[test]
fn test_window_function() {
    let window = other(
        "BoundedWindowAggExec",
        CardinalityEffect::Equal,
        sort(hash(data_source())),
    );
    assert_annotated(
        projection(window),
        config(false, 4),
        &[
            "ProjectionExec: task_count=Desired(3)",
            "  BoundedWindowAggExec: task_count=Desired(3)",
            "    SortExec: task_count=Desired(3)",
            "      [NetworkBoundary] Shuffle: task_count=Desired(3)",
            "        RepartitionExec: task_count=Desired(3)",
            "          DataSourceExec: task_count=Desired(3)",
        ],
    );
}

#[test]
fn test_children_isolator_union() {
    assert_annotated(
        union(vec![
            filter(round_robin(data_source())),
            projection(filter(round_robin(data_source()))),
            projection(filter(round_robin(data_source()))),
        ]),
        config(false, 4),
        &[
            "ChildrenIsolatorUnionExec: task_count=Desired(4)",
            "  FilterExec: task_count=Maximum(1)",
            "    RepartitionExec: task_count=Maximum(1)",
            "      DataSourceExec: task_count=Maximum(1)",
            "  ProjectionExec: task_count=Maximum(1)",
            "    FilterExec: task_count=Maximum(1)",
            "      RepartitionExec: task_count=Maximum(1)",
            "        DataSourceExec: task_count=Maximum(1)",
            "  ProjectionExec: task_count=Maximum(2)",
            "    FilterExec: task_count=Maximum(2)",
            "      RepartitionExec: task_count=Maximum(2)",
            "        DataSourceExec: task_count=Maximum(2)",
        ],
    );
}

#[test]
fn test_intermediate_task_estimator() {
    let mut plan = aggregate(hash(aggregate(data_source())));
    estimate(&mut plan, TaskCountAnnotation::Maximum(1), &|p| {
        matches!(p.node.kind, NodeKind::Repartition)
    });
    assert_annotated(
        plan,
        config(false, 4),
        &[
            "AggregateExec: task_count=Desired(1)",
            "  [NetworkBoundary] Shuffle: task_count=Desired(1)",
            "    RepartitionExec: task_count=Maximum(1)",
            "      AggregateExec: task_count=Maximum(1)",
            "        DataSourceExec: task_count=Maximum(1)",
        ],
    );
}

#[test]
fn test_union_all_limited_by_intermediate_estimator() {
    let mut plan = union(vec![
        filter(round_robin(data_source())),
        projection(filter(round_robin(data_source()))),
    ]);
    estimate(&mut plan, TaskCountAnnotation::Maximum(1), &|p| p.node.id == Some(1));
    assert_annotated(
        plan,
        config(false, 4),
        &[
            "ChildrenIsolatorUnionExec: task_count=Desired(2)",
            "  FilterExec: task_count=Maximum(1)",
            "    RepartitionExec: task_count=Maximum(1)",
            "      DataSourceExec: task_count=Maximum(1)",
            "  ProjectionExec: task_count=Maximum(1)",
            "    FilterExec: task_count=Maximum(1)",
            "      RepartitionExec: task_count=Maximum(1)",
            "        DataSourceExec: task_count=Maximum(1)",
        ],
    );
}

#[test]
fn test_broadcast_join_annotation() {
    assert_annotated(
        join(JoinType::Inner, coalesce(data_source()), data_source()),
        config(true, 4),
        &[
            "HashJoinExec: task_count=Desired(3)",
            "  CoalescePartitionsExec: task_count=Desired(3)",
            "    [NetworkBoundary] Broadcast: task_count=Desired(3)",
            "      BroadcastExec: task_count=Desired(3)",
            "        DataSourceExec: task_count=Desired(3)",
            "  DataSourceExec: task_count=Desired(3)",
        ],
    );
}

#[test]
fn plan_annotator_test_broadcast_datasource_as_build_child() {
    assert_annotated(
        join(JoinType::Inner, data_source(), data_source()),
        config(true, 4),
        &[
            "HashJoinExec: task_count=Desired(3)",
            "  CoalescePartitionsExec: task_count=Desired(3)",
            "    [NetworkBoundary] Broadcast: task_count=Desired(3)",
            "      BroadcastExec: task_count=Desired(3)",
            "        DataSourceExec: task_count=Desired(3)",
            "  DataSourceExec: task_count=Desired(3)",
        ],
    );
}

#[test]
fn test_broadcast_one_to_many() {
    let mut build = data_source();
    build.node.estimation = Some(TaskCountAnnotation::Maximum(1));
    assert_annotated(
        join(JoinType::Inner, coalesce(build), data_source()),
        config(true, 3),
        &[
            "HashJoinExec: task_count=Desired(3)",
            "  CoalescePartitionsExec: task_count=Desired(3)",
            "    [NetworkBoundary] Broadcast: task_count=Desired(3)",
            "      BroadcastExec: task_count=Maximum(1)",
            "        DataSourceExec: task_count=Maximum(1)",
            "  DataSourceExec: task_count=Desired(3)",
        ],
    );
}

#[test]
fn test_broadcast_build_coalesce_caps_join_stage() {
    let cfg = config(true, 3);
    let mut plan = insert_broadcast_execs(
        join(JoinType::Inner, coalesce(data_source()), data_source()),
        &cfg,
    );
    estimate(&mut plan, TaskCountAnnotation::Maximum(1), &|p| {
        matches!(p.node.kind, NodeKind::CoalescePartitions)
            && matches!(p.children[0].node.kind, NodeKind::Broadcast { .. })
    });
    let text = annotated(&plan, &cfg);
    assert_eq!(
        text.lines().collect::<Vec<_>>(),
        vec![
            "HashJoinExec: task_count=Maximum(1)",
            "  CoalescePartitionsExec: task_count=Maximum(1)",
            "    [NetworkBoundary] Broadcast: task_count=Maximum(1)",
            "      BroadcastExec: task_count=Desired(1)",
            "        DataSourceExec: task_count=Desired(1)",
            "  DataSourceExec: task_count=Maximum(1)",
        ]
    );
}

#[test]
fn test_broadcast_disabled_default() {
    assert_annotated(
        join(JoinType::Inner, coalesce(data_source()), data_source()),
        config(false, 4),
        &[
            "HashJoinExec: task_count=Maximum(1)",
            "  CoalescePartitionsExec: task_count=Maximum(1)",
            "    DataSourceExec: task_count=Maximum(1)",
            "  DataSourceExec: task_count=Maximum(1)",
        ],
    );
}

#[test]
fn test_broadcast_multi_join_chain() {
    let inner = join(JoinType::Inner, coalesce(data_source()), data_source());
    assert_annotated(
        join(JoinType::Inner, coalesce(inner), data_source()),
        config(true, 4),
        &[
            "HashJoinExec: task_count=Desired(3)",
            "  CoalescePartitionsExec: task_count=Desired(3)",
            "    [NetworkBoundary] Broadcast: task_count=Desired(3)",
            "      BroadcastExec: task_count=Desired(3)",
            "        HashJoinExec: task_count=Desired(3)",
            "          CoalescePartitionsExec: task_count=Desired(3)",
            "            [NetworkBoundary] Broadcast: task_count=Desired(3)",
            "              BroadcastExec: task_count=Desired(3)",
            "                DataSourceExec: task_count=Desired(3)",
            "          DataSourceExec: task_count=Desired(3)",
            "  DataSourceExec: task_count=Desired(3)",
        ],
    );
}

#[test]
fn test_broadcast_union_children_isolator_annotation() {
    let side = || join(JoinType::Inner, coalesce(data_source()), data_source());
    assert_annotated(
        union(vec![side(), side(), side()]),
        config(true, 4),
        &[
            "ChildrenIsolatorUnionExec: task_count=Desired(4)",
            "  HashJoinExec: task_count=Maximum(1)",
            "    CoalescePartitionsExec: task_count=Maximum(1)",
            "      [NetworkBoundary] Broadcast: task_count=Maximum(1)",
            "        BroadcastExec: task_count=Desired(1)",
            "          DataSourceExec: task_count=Desired(1)",
            "    DataSourceExec: task_count=Maximum(1)",
            "  HashJoinExec: task_count=Maximum(1)",
            "    CoalescePartitionsExec: task_count=Maximum(1)",
            "      [NetworkBoundary] Broadcast: task_count=Maximum(1)",
            "        BroadcastExec: task_count=Desired(1)",
            "          DataSourceExec: task_count=Desired(1)",
            "    DataSourceExec: task_count=Maximum(1)",
            "  HashJoinExec: task_count=Maximum(2)",
            "    CoalescePartitionsExec: task_count=Maximum(2)",
            "      [NetworkBoundary] Broadcast: task_count=Maximum(2)",
            "        BroadcastExec: task_count=Desired(2)",
            "          DataSourceExec: task_count=Desired(2)",
            "    DataSourceExec: task_count=Maximum(2)",
        ],
    );
}

#[test]
fn the_number_of_workers_limits_the_tasks() {
    assert_eq!(resolve_max_tasks(0, 0), 1);
    assert_eq!(resolve_max_tasks(0, 7), 7);
    assert_eq!(resolve_max_tasks(2, 7), 2);
    assert_annotated(data_source(), config(false, 2), &["DataSourceExec: task_count=Desired(2)"]);
}
