use datafusion_distributed::distributed_planner::batch_coalescing_below_network_boundaries::{
    batch_coalescing_below_network_boundaries, BatchConfig,
};
use datafusion_distributed::distributed_planner::distributed_physical_optimizer_rule::{
    contains_scalar_subquery_exec, distribute_plan, DistributedPhysicalOptimizerRule,
    OptimizerConfig, OptimizerOutcome,
};
use datafusion_distributed::distributed_planner::insert_broadcast::insert_broadcast_execs;
use datafusion_distributed::distributed_planner::plan::{
    CardinalityEffect, JoinType, Node, NodeKind, PartitionMode, Partitioning, Plan, StageRef,
};
use datafusion_distributed::distributed_planner::plan_annotator::{
    resolve_max_tasks, AnnotatedPlan, PlanOrNetworkBoundary, PlannerConfig, ScaleFactor,
};
use datafusion_distributed::distributed_planner::staged_plan::{
    DistributeError, StagedPlan, Step, StepKind,
};
use datafusion_distributed::distributed_planner::task_estimator::TaskCountAnnotation;
use datafusion_distributed::execution_plans::children_isolator_union::ChildrenIsolatorUnionExec;
use datafusion_distributed::execution_plans::network_broadcast::BroadcastError;
use datafusion_distributed::execution_plans::network_shuffle::ShuffleError;
use datafusion_distributed::protobuf::distributed_codec::NetworkKind;
use datafusion_distributed::text::DisplayFormatType;

const NAMES: [&str; 5] = ["DataSource", "Filter", "Projection", "Aggregate", "Sort"];

fn plan(
    id: usize,
    kind: NodeKind,
    partitioning: Partitioning,
    cardinality_effect: CardinalityEffect,
    children: Vec<Plan>,
) -> Plan {
    Plan {
        node: Node { id: Some(id), kind, partitioning, cardinality_effect, estimation: None },
        task_idx_map: vec![],
        children,
    }
}

fn source(files: usize) -> Plan {
    source_in_groups(files, files)
}

fn source_in_groups(files: usize, groups: usize) -> Plan {
    let mut source = plan(
        0,
        NodeKind::Other,
        Partitioning::UnknownPartitioning(groups),
        CardinalityEffect::Unknown,
        vec![],
    );
    source.node.estimation = Some(TaskCountAnnotation::Desired(files));
    source
}

fn other(id: usize, effect: CardinalityEffect, child: Plan) -> Plan {
    let partitioning = child.node.partitioning;
    plan(id, NodeKind::Other, partitioning, effect, vec![child])
}

fn aggregate(child: Plan) -> Plan {
    other(3, CardinalityEffect::LowerEqual, child)
}

fn hash(child: Plan) -> Plan {
    plan(
        9,
        NodeKind::Repartition,
        Partitioning::Hash(4),
        CardinalityEffect::Equal,
        vec![child],
    )
}

fn merge(child: Plan) -> Plan {
    plan(
        8,
        NodeKind::SortPreservingMerge,
        Partitioning::UnknownPartitioning(1),
        CardinalityEffect::Equal,
        vec![child],
    )
}

fn aggregation(files: usize) -> Plan {
    merge(other(
        4,
        CardinalityEffect::Equal,
        other(2, CardinalityEffect::Equal, aggregate(hash(aggregate(source(files))))),
    ))
}

fn evaluate(factor: &ScaleFactor, f: f64) -> f64 {
    match factor {
        ScaleFactor::One => 1.0,
        ScaleFactor::Divided(inner) => evaluate(inner, f) / f,
        ScaleFactor::Multiplied(inner) => evaluate(inner, f) * f,
        ScaleFactor::Larger(a, b) => evaluate(a, f).max(evaluate(b, f)),
    }
}

fn optimize(plan: &Plan, workers: usize, factor: f64) -> Option<StagedPlan> {
    let planner = PlannerConfig {
        broadcast_joins: false,
        children_isolator_unions: true,
        max_tasks: resolve_max_tasks(0, workers),
    };
    let batches = BatchConfig { shuffle_batch_size: 0, batch_size: 100 };
    optimize_with(plan, OptimizerConfig { planner, batches }, factor)
}

fn optimize_joins(plan: &Plan, workers: usize) -> Option<StagedPlan> {
    let planner = PlannerConfig {
        broadcast_joins: true,
        children_isolator_unions: true,
        max_tasks: resolve_max_tasks(0, workers),
    };
    let batches = BatchConfig { shuffle_batch_size: 0, batch_size: 100 };
    optimize_with(plan, OptimizerConfig { planner, batches }, 1.5)
}

fn optimize_with(plan: &Plan, cfg: OptimizerConfig, factor: f64) -> Option<StagedPlan> {
    let mut known = vec![];
    loop {
        match DistributedPhysicalOptimizerRule.optimize(plan, &cfg, &known) {
            OptimizerOutcome::LeftAlone => return None,
            OptimizerOutcome::Distributed(staged) => return Some(staged),
            OptimizerOutcome::NeedsTaskCount { previous, factor: sf } => {
                known.push((previous as f64 * evaluate(&sf, factor)).ceil() as usize);
            }
            other => panic!("{other:?}"),
        }
    }
}

fn show(staged: &StagedPlan, lines: &mut Vec<String>, depth: usize) {
    let text = match &staged.step {
        Step::Node { node, leaf_tasks, task_idx_map } => match (&node.kind, leaf_tasks) {
            (NodeKind::Other, None) => NAMES[node.id.unwrap()].to_string(),
            (NodeKind::Other, Some(n)) => format!("{} on {n} tasks", NAMES[node.id.unwrap()]),
            (NodeKind::HashJoin { .. }, _) => "HashJoin".to_string(),
            (NodeKind::ChildrenIsolatorUnion, _) => {
                let union = ChildrenIsolatorUnionExec {
                    child_partitions: vec![],
                    partition_count: node.partitioning.partition_count(),
                    task_idx_map: task_idx_map.clone(),
                };
                union.fmt_as(DisplayFormatType::Default)
            }
            (NodeKind::Repartition, _) => format!("Repartition {:?}", node.partitioning),
            (kind, _) => format!("{kind:?}"),
        },
        Step::Boundary(b) => {
            let text =
                format!("{:?} {} from {} to {}", b.kind, b.num, b.input_task_count, b.task_count);
            match b.kind {
                NetworkKind::Shuffle => {
                    format!("{text}, output {}", b.partitioning.partition_count())
                }
                _ => text,
            }
        }
        Step::CoalesceBatches { target_batch_size, fetch } => {
            format!("CoalesceBatches {target_batch_size} {fetch:?}")
        }
    };
    lines.push(format!("{}{text}", "  ".repeat(depth)));
    for child in &staged.children {
        show(child, lines, depth + 1);
    }
}

fn shown(staged: Option<StagedPlan>) -> Vec<String> {
    let mut lines = vec![];
    show(&staged.unwrap(), &mut lines, 0);
    lines
}

#[test]
fn distributed_physical_optimizer_rule_test_select_all() {
    assert!(optimize(&source(3), 3, 1.5).is_none());
}

#[test]
fn distributed_physical_optimizer_rule_test_aggregation() {
    assert_eq!(
        shown(optimize(&aggregation(3), 3, 1.5)),
        vec![
            "SortPreservingMerge",
            "  Coalesce 2 from 2 to 1",
            "    Sort",
            "      Projection",
            "        Aggregate",
            "          Shuffle 1 from 3 to 2, output 4",
            "            Repartition Hash(8)",
            "              Aggregate",
            "                DataSource on 3 tasks",
        ]
    );
}

#[test]
fn test_aggregation_with_fewer_workers_than_files() {
    assert_eq!(
        shown(optimize(&aggregation(3), 2, 1.5)),
        vec![
            "SortPreservingMerge",
            "  Coalesce 2 from 2 to 1",
            "    Sort",
            "      Projection",
            "        Aggregate",
            "          Shuffle 1 from 2 to 2, output 4",
            "            Repartition Hash(8)",
            "              Aggregate",
            "                DataSource on 2 tasks",
        ]
    );
}

#[test]
fn test_aggregation_with_0_workers() {
    assert!(optimize(&aggregation(3), 0, 1.5).is_none());
}

#[test]
fn test_aggregation_with_high_cardinality_factor() {
    assert_eq!(
        shown(optimize(&aggregation(3), 3, 3.0)),
        vec![
            "SortPreservingMerge",
            "  Sort",
            "    Projection",
            "      Aggregate",
            "        Shuffle 1 from 3 to 1, output 4",
            "          Repartition Hash(4)",
            "            Aggregate",
            "              DataSource on 3 tasks",
        ]
    );
}

fn distinct_over_round_robin() -> Plan {
    aggregate(hash(aggregate(round_robin(source(3)))))
}

fn optimize_batches(
    plan: &Plan,
    broadcast_joins: bool,
    batch_size: usize,
    shuffle_batch_size: usize,
) -> Vec<String> {
    let planner = PlannerConfig {
        broadcast_joins,
        children_isolator_unions: true,
        max_tasks: resolve_max_tasks(0, 3),
    };
    let batches = BatchConfig { shuffle_batch_size, batch_size };
    shown(optimize_with(plan, OptimizerConfig { planner, batches }, 1.5))
}

#[test]
fn same_batch_size_and_shuffle_batch_size() {
    assert_eq!(
        optimize_batches(&distinct_over_round_robin(), false, 100, 100),
        vec![
            "CoalescePartitions",
            "  Coalesce 2 from 2 to 1",
            "    Aggregate",
            "      Shuffle 1 from 3 to 2, output 4",
            "        Repartition Hash(8)",
            "          Aggregate",
            "            Repartition RoundRobinBatch(4)",
            "              DataSource on 3 tasks",
        ]
    );
}

#[test]
fn batch_size_greater_than_shuffle_batch_size() {
    assert_eq!(
        optimize_batches(&distinct_over_round_robin(), false, 101, 100),
        vec![
            "CoalescePartitions",
            "  Coalesce 2 from 2 to 1",
            "    Aggregate",
            "      Shuffle 1 from 3 to 2, output 4",
            "        Repartition Hash(8)",
            "          Aggregate",
            "            Repartition RoundRobinBatch(4)",
            "              DataSource on 3 tasks",
        ]
    );
}

#[test]
fn shuffle_batch_size_greater_than_batch_size() {
    assert_eq!(
        optimize_batches(&distinct_over_round_robin(), false, 100, 101),
        vec![
            "CoalescePartitions",
            "  Coalesce 2 from 2 to 1",
            "    CoalesceBatches 101 None",
            "      Aggregate",
            "        Shuffle 1 from 3 to 2, output 4",
            "          CoalesceBatches 101 None",
            "            Repartition Hash(8)",
            "              Aggregate",
            "                Repartition RoundRobinBatch(4)",
            "                  DataSource on 3 tasks",
        ]
    );
}

#[test]
fn batches_are_gathered_below_broadcasts() {
    let plan = join(JoinType::Inner, coalesce(source(3)), source(3));
    assert_eq!(
        optimize_batches(&plan, true, 100, 101),
        vec![
            "CoalescePartitions",
            "  Coalesce 2 from 3 to 1",
            "    CoalesceBatches 101 None",
            "      HashJoin",
            "        CoalescePartitions",
            "          Broadcast 1 from 3 to 3",
            "            CoalesceBatches 101 None",
            "              Broadcast { consumer_task_count: 3 }",
            "                DataSource on 3 tasks",
            "        DataSource on 3 tasks",
        ]
    );
}

#[test]
fn plans_with_subqueries_are_left_alone() {
    let plan = plan(
        0,
        NodeKind::ScalarSubquery,
        Partitioning::UnknownPartitioning(1),
        CardinalityEffect::Unknown,
        vec![aggregation(3)],
    );
    assert!(contains_scalar_subquery_exec(&plan));
    assert!(!contains_scalar_subquery_exec(&aggregation(3)));
    assert!(optimize(&plan, 3, 1.5).is_none());
    assert_eq!(DistributedPhysicalOptimizerRule.name(), "DistributedPhysicalOptimizer");
}

fn join(join_type: JoinType, build: Plan, probe: Plan) -> Plan {
    let partitioning = probe.node.partitioning;
    plan(
        7,
        NodeKind::HashJoin { mode: PartitionMode::CollectLeft, join_type },
        partitioning,
        CardinalityEffect::Unknown,
        vec![build, probe],
    )
}

fn coalesce(child: Plan) -> Plan {
    plan(
        6,
        NodeKind::CoalescePartitions,
        Partitioning::UnknownPartitioning(1),
        CardinalityEffect::Equal,
        vec![child],
    )
}

fn kinds(plan: &Plan, depth: usize, lines: &mut Vec<String>) {
    lines.push(format!(
        "{}{} {}",
        "  ".repeat(depth),
        match plan.node.kind {
            NodeKind::HashJoin { .. } => "join",
            NodeKind::CoalescePartitions => "coalesce",
            NodeKind::Broadcast { .. } => "broadcast",
            _ => "other",
        },
        plan.node.partitioning.partition_count()
    ));
    for child in &plan.children {
        kinds(child, depth + 1, lines);
    }
}

fn with_broadcasts(plan: Plan, broadcast_joins: bool) -> Vec<String> {
    let cfg = PlannerConfig { broadcast_joins, children_isolator_unions: true, max_tasks: 4 };
    let mut lines = vec![];
    kinds(&insert_broadcast_execs(plan, &cfg), 0, &mut lines);
    lines
}

#[test]
fn test_insert_broadcast_with_existing_coalesce_build_child() {
    assert_eq!(
        with_broadcasts(join(JoinType::Inner, coalesce(source(3)), source(3)), true),
        vec!["join 3", "  coalesce 1", "    broadcast 3", "      other 3", "  other 3"]
    );
}

#[test]
fn test_insert_broadcast_without_existing_coalesce_build_child() {
    assert_eq!(
        with_broadcasts(join(JoinType::Inner, source(1), source(1)), true),
        vec!["join 1", "  coalesce 1", "    broadcast 1", "      other 1", "  other 1"]
    );
}

#[test]
fn test_no_broadcast_left_join() {
    assert_eq!(
        with_broadcasts(join(JoinType::Left, coalesce(source(3)), source(3)), true),
        vec!["join 3", "  coalesce 1", "    other 3", "  other 3"]
    );
}

#[test]
fn test_no_broadcast_when_disabled() {
    assert_eq!(
        with_broadcasts(join(JoinType::Inner, coalesce(source(3)), source(3)), false),
        vec!["join 3", "  coalesce 1", "    other 3", "  other 3"]
    );
}

#[test]
fn network_boundaries_are_told_apart() {
    let mut node = source(1).node;
    assert!(!node.is_network_boundary());
    let stage = StageRef { num: 4, tasks: 2 };
    node.kind = NodeKind::NetworkBroadcast(stage);
    assert_eq!(node.as_network_boundary(), Some((NetworkKind::Broadcast, stage)));
    node.kind = NodeKind::NetworkShuffle(stage);
    assert_eq!(node.as_network_boundary(), Some((NetworkKind::Shuffle, stage)));
    node.kind = NodeKind::NetworkCoalesce(stage);
    assert_eq!(node.as_network_boundary(), Some((NetworkKind::Coalesce, stage)));
}

fn filter(child: Plan) -> Plan {
    other(1, CardinalityEffect::LowerEqual, child)
}

fn projection(child: Plan) -> Plan {
    other(2, CardinalityEffect::Equal, child)
}

fn sort(child: Plan) -> Plan {
    other(4, CardinalityEffect::Equal, child)
}

fn round_robin(child: Plan) -> Plan {
    plan(
        9,
        NodeKind::Repartition,
        Partitioning::RoundRobinBatch(4),
        CardinalityEffect::Equal,
        vec![child],
    )
}

fn union(children: Vec<Plan>) -> Plan {
    let partitions = children.iter().map(|c| c.node.partitioning.partition_count()).sum();
    plan(
        7,
        NodeKind::Union,
        Partitioning::UnknownPartitioning(partitions),
        CardinalityEffect::GreaterEqual,
        children,
    )
}

fn union_of_filters(n: usize) -> Plan {
    let first = filter(round_robin(source(3)));
    let others = (1..n).map(|_| projection(filter(round_robin(source(3)))));
    union(std::iter::once(first).chain(others).collect())
}

#[test]
fn test_aggregation_with_a_lot_of_files_per_task() {
    let mut plan = aggregation(3);
    let mut leaf = &mut plan;
    while !leaf.children.is_empty() {
        leaf = &mut leaf.children[0];
    }
    leaf.node.estimation = Some(TaskCountAnnotation::Desired(1));
    assert!(optimize(&plan, 3, 1.5).is_none());
}

#[test]
fn test_aggregation_with_partitions_per_task() {
    assert_eq!(
        shown(optimize(&aggregation(3), 3, 1.5)),
        vec![
            "SortPreservingMerge",
            "  Coalesce 2 from 2 to 1",
            "    Sort",
            "      Projection",
            "        Aggregate",
            "          Shuffle 1 from 3 to 2, output 4",
            "            Repartition Hash(8)",
            "              Aggregate",
            "                DataSource on 3 tasks",
        ]
    );
}

#[test]
fn distributed_physical_optimizer_rule_test_left_join() {
    let plan = join(JoinType::Left, coalesce(source(3)), source(3));
    assert!(optimize(&plan, 3, 1.5).is_none());
}

#[test]
fn distributed_physical_optimizer_rule_test_left_join_distributed() {
    let side =
        || projection(aggregate(hash(aggregate(filter(round_robin(source(3)))))));
    let plan = join(JoinType::Left, coalesce(side()), side());
    assert_eq!(
        shown(optimize(&plan, 3, 1.5)),
        vec![
            "CoalescePartitions",
            "  HashJoin",
            "    CoalescePartitions",
            "      Coalesce 2 from 2 to 1",
            "        Projection",
            "          Aggregate",
            "            Shuffle 1 from 3 to 2, output 4",
            "              Repartition Hash(8)",
            "                Aggregate",
            "                  Filter",
            "                    Repartition RoundRobinBatch(4)",
            "                      DataSource on 3 tasks",
            "    Projection",
            "      Aggregate",
            "        Shuffle 3 from 3 to 1, output 4",
            "          Repartition Hash(4)",
            "            Aggregate",
            "              Filter",
            "                Repartition RoundRobinBatch(4)",
            "                  DataSource on 3 tasks",
        ]
    );
}

#[test]
fn test_sort() {
    assert_eq!(
        shown(optimize(&merge(sort(source(3))), 3, 1.5)),
        vec![
            "SortPreservingMerge",
            "  Coalesce 1 from 3 to 1",
            "    Sort",
            "      DataSource on 3 tasks",
        ]
    );
}

#[test]
fn distributed_physical_optimizer_rule_test_distinct() {
    assert_eq!(
        shown(optimize(&aggregate(hash(aggregate(source(3)))), 3, 1.5)),
        vec![
            "CoalescePartitions",
            "  Coalesce 2 from 2 to 1",
            "    Aggregate",
            "      Shuffle 1 from 3 to 2, output 4",
            "        Repartition Hash(8)",
            "          Aggregate",
            "            DataSource on 3 tasks",
        ]
    );
}

#[test]
fn test_show_columns() {
    let mut table = source(1);
    table.node.estimation = None;
    assert!(optimize(&filter(round_robin(table)), 3, 1.5).is_none());
}

#[test]
fn test_limited_by_worker() {
    let plan = union(vec![source_in_groups(3, 2), source(1)]);
    assert_eq!(
        shown(optimize(&plan, 2, 1.5)),
        vec![
            "CoalescePartitions",
            "  Coalesce 1 from 2 to 1",
            "    DistributedUnionExec: t0:[c0] t1:[c1]",
            "      DataSource on 1 tasks",
            "      DataSource on 1 tasks",
        ]
    );
}

#[test]
fn test_limited_by_config() {
    let plan = union(vec![source(3), source(1)]);
    let planner = PlannerConfig {
        broadcast_joins: false,
        children_isolator_unions: true,
        max_tasks: resolve_max_tasks(2, 3),
    };
    let batches = BatchConfig { shuffle_batch_size: 0, batch_size: 100 };
    assert_eq!(
        shown(optimize_with(&plan, OptimizerConfig { planner, batches }, 1.5)),
        vec![
            "CoalescePartitions",
            "  Coalesce 1 from 2 to 1",
            "    DistributedUnionExec: t0:[c0] t1:[c1]",
            "      DataSource on 1 tasks",
            "      DataSource on 1 tasks",
        ]
    );
}

#[test]
fn test_unioning_2_tables() {
    assert_eq!(
        shown(optimize(&union_of_filters(2), 6, 1.5)),
        vec![
            "CoalescePartitions",
            "  Coalesce 1 from 6 to 1",
            "    DistributedUnionExec: t0:[c0(0/3)] t1:[c0(1/3)] t2:[c0(2/3)] t3:[c1(0/3)] \
             t4:[c1(1/3)] t5:[c1(2/3)]",
            "      Filter",
            "        Repartition RoundRobinBatch(4)",
            "          DataSource on 3 tasks",
            "      Projection",
            "        Filter",
            "          Repartition RoundRobinBatch(4)",
            "            DataSource on 3 tasks",
        ]
    );
}

#[test]
fn test_unioning_2_tables_limited_workers() {
    assert_eq!(
        shown(optimize(&union_of_filters(2), 3, 1.5)),
        vec![
            "CoalescePartitions",
            "  Coalesce 1 from 3 to 1",
            "    DistributedUnionExec: t0:[c0] t1:[c1(0/2)] t2:[c1(1/2)]",
            "      Filter",
            "        Repartition RoundRobinBatch(4)",
            "          DataSource on 1 tasks",
            "      Projection",
            "        Filter",
            "          Repartition RoundRobinBatch(4)",
            "            DataSource on 2 tasks",
        ]
    );
}

#[test]
fn test_unioning_3_tables() {
    let child = ["      Projection", "        Filter", "          Repartition RoundRobinBatch(4)"];
    let mut expected = vec![
        "CoalescePartitions",
        "  Coalesce 1 from 3 to 1",
        "    DistributedUnionExec: t0:[c0] t1:[c1] t2:[c2]",
        "      Filter",
        "        Repartition RoundRobinBatch(4)",
        "          DataSource on 1 tasks",
    ];
    for _ in 0..2 {
        expected.extend(child);
        expected.push("            DataSource on 1 tasks");
    }
    assert_eq!(shown(optimize(&union_of_filters(3), 3, 1.5)), expected);
}

#[test]
fn test_unioning_5_tables() {
    let child = ["      Projection", "        Filter", "          Repartition RoundRobinBatch(4)"];
    let mut expected = vec![
        "CoalescePartitions",
        "  Coalesce 1 from 3 to 1",
        "    DistributedUnionExec: t0:[c0, c1] t1:[c2, c3] t2:[c4]",
        "      Filter",
        "        Repartition RoundRobinBatch(4)",
        "          DataSource on 1 tasks",
    ];
    for _ in 0..4 {
        expected.extend(child);
        expected.push("            DataSource on 1 tasks");
    }
    assert_eq!(shown(optimize(&union_of_filters(5), 3, 1.5)), expected);
}

#[test]
fn test_broadcast_join() {
    let plan = join(JoinType::Inner, coalesce(source(3)), source(3));
    assert_eq!(
        shown(optimize_joins(&plan, 3)),
        vec![
            "CoalescePartitions",
            "  Coalesce 2 from 3 to 1",
            "    HashJoin",
            "      CoalescePartitions",
            "        Broadcast 1 from 3 to 3",
            "          Broadcast { consumer_task_count: 3 }",
            "            DataSource on 3 tasks",
            "      DataSource on 3 tasks",
        ]
    );
}

#[test]
fn test_broadcast_nested_joins() {
    let inner = join(JoinType::Inner, coalesce(source(3)), source(3));
    let plan = join(JoinType::Inner, coalesce(inner), source(3));
    assert_eq!(
        shown(optimize_joins(&plan, 3)),
        vec![
            "CoalescePartitions",
            "  Coalesce 3 from 3 to 1",
            "    HashJoin",
            "      CoalescePartitions",
            "        Broadcast 2 from 3 to 3",
            "          Broadcast { consumer_task_count: 3 }",
            "            HashJoin",
            "              CoalescePartitions",
            "                Broadcast 1 from 3 to 3",
            "                  Broadcast { consumer_task_count: 3 }",
            "                    DataSource on 3 tasks",
            "              DataSource on 3 tasks",
            "      DataSource on 3 tasks",
        ]
    );
}

#[test]
fn distributed_physical_optimizer_rule_test_broadcast_datasource_as_build_child() {
    let plan = join(JoinType::Inner, coalesce(source(3)), source(3));
    let mut lines = vec![];
    kinds(&plan, 0, &mut lines);
    assert_eq!(lines.len(), 4);
    assert_eq!(
        shown(optimize_joins(&plan, 3)),
        vec![
            "CoalescePartitions",
            "  Coalesce 2 from 3 to 1",
            "    HashJoin",
            "      CoalescePartitions",
            "        Broadcast 1 from 3 to 3",
            "          Broadcast { consumer_task_count: 3 }",
            "            DataSource on 3 tasks",
            "      DataSource on 3 tasks",
        ]
    );
}

#[test]
fn test_broadcast_union_children_isolator_plan() {
    let child = || join(JoinType::Inner, coalesce(source(3)), source(3));
    let mut expected = vec![
        "CoalescePartitions",
        "  Coalesce 1 from 3 to 1",
        "    DistributedUnionExec: t0:[c0] t1:[c1] t2:[c2]",
    ];
    for _ in 0..3 {
        expected.extend([
            "      HashJoin",
            "        CoalescePartitions",
            "          Broadcast { consumer_task_count: 1 }",
            "            DataSource on 1 tasks",
            "        DataSource on 1 tasks",
        ]);
    }
    let plan = union(vec![child(), child(), child()]);
    assert_eq!(shown(optimize_joins(&plan, 3)), expected);
}

#[test]
fn test_broadcast_one_to_many_plan() {
    let mut build = coalesce(source(3));
    build.children[0].node.estimation = Some(TaskCountAnnotation::Maximum(1));
    let plan = join(JoinType::Inner, build, source(3));
    assert_eq!(
        shown(optimize_joins(&plan, 3)),
        vec![
            "CoalescePartitions",
            "  Coalesce 2 from 3 to 1",
            "    HashJoin",
            "      CoalescePartitions",
            "        Broadcast 1 from 1 to 3",
            "          Broadcast { consumer_task_count: 3 }",
            "            DataSource on 1 tasks",
            "      DataSource on 3 tasks",
        ]
    );
}

fn annotated(
    plan_or_nb: PlanOrNetworkBoundary,
    children: Vec<AnnotatedPlan>,
    task_count: usize,
) -> AnnotatedPlan {
    AnnotatedPlan { plan_or_nb, children, task_count: TaskCountAnnotation::Desired(task_count) }
}

fn annotated_node(
    kind: NodeKind,
    partitioning: Partitioning,
    below: Vec<AnnotatedPlan>,
) -> AnnotatedPlan {
    let node = plan(0, kind, partitioning, CardinalityEffect::Unknown, vec![]).node;
    annotated(PlanOrNetworkBoundary::Plan { node, task_idx_map: vec![] }, below, 3)
}

fn annotated_leaf() -> AnnotatedPlan {
    annotated_node(NodeKind::Other, Partitioning::UnknownPartitioning(3), vec![])
}

#[test]
fn boundaries_ask_for_inputs_that_can_be_read() {
    let shuffle = |below| annotated(PlanOrNetworkBoundary::Shuffle, below, 2);
    let broadcast = |below| annotated(PlanOrNetworkBoundary::Broadcast, below, 2);
    let repartition = |partitions, below| {
        annotated_node(NodeKind::Repartition, Partitioning::Hash(partitions), below)
    };

    let plan = shuffle(vec![repartition(4, vec![annotated_leaf()])]);
    let (staged, next) = distribute_plan(plan, 1).unwrap();
    assert_eq!(next, 2);
    assert_eq!(
        shown(Some(staged)),
        vec![
            "Shuffle 1 from 3 to 2, output 4",
            "  Repartition Hash(8)",
            "    DataSource on 3 tasks",
        ]
    );

    assert_eq!(
        distribute_plan(shuffle(vec![annotated_leaf()]), 1).unwrap_err(),
        DistributeError::Shuffle(ShuffleError::InputNotHashPartitioned)
    );
    assert_eq!(
        distribute_plan(shuffle(vec![repartition(4, vec![])]), 1).unwrap_err(),
        DistributeError::Shuffle(ShuffleError::ExpectedOneChild(0))
    );
    let huge = shuffle(vec![repartition(usize::MAX, vec![annotated_leaf()])]);
    assert_eq!(
        distribute_plan(huge, 1).unwrap_err(),
        DistributeError::Shuffle(ShuffleError::TooManyPartitions)
    );
    assert!(matches!(
        distribute_plan(broadcast(vec![annotated_leaf()]), 1).unwrap_err(),
        DistributeError::Broadcast(BroadcastError::InputNotBroadcast(StepKind::Node(_)))
    ));
    assert_eq!(
        distribute_plan(shuffle(vec![]), 1).unwrap_err(),
        DistributeError::ExpectedOneChild(0)
    );
    let last = shuffle(vec![repartition(4, vec![annotated_leaf()])]);
    assert_eq!(distribute_plan(last, usize::MAX).unwrap_err(), DistributeError::TooManyStages);
}

#[test]
fn batches_are_gathered_below_nodes_that_cross_the_network() {
    let node = |kind| Step::Node {
        node: plan(
            0,
            kind,
            Partitioning::UnknownPartitioning(3),
            CardinalityEffect::Unknown,
            vec![],
        )
        .node,
        task_idx_map: vec![],
        leaf_tasks: None,
    };
    let cfg = BatchConfig { shuffle_batch_size: 101, batch_size: 100 };
    let stage = StageRef { num: 1, tasks: 3 };
    for kind in [
        NodeKind::NetworkShuffle(stage),
        NodeKind::NetworkCoalesce(stage),
        NodeKind::NetworkBroadcast(stage),
    ] {
        let below = StagedPlan { step: node(NodeKind::Other), children: vec![] };
        let crossing = StagedPlan { step: node(kind), children: vec![below] };
        let gathered = batch_coalescing_below_network_boundaries(crossing, &cfg).unwrap();
        assert!(matches!(
            gathered.children[0].step,
            Step::CoalesceBatches { target_batch_size: 101, fetch: None }
        ));
        assert_eq!(gathered.children[0].children.len(), 1);

        let alone = StagedPlan { step: node(kind), children: vec![] };
        assert_eq!(
            batch_coalescing_below_network_boundaries(alone, &cfg).unwrap_err(),
            DistributeError::ExpectedOneChild(0)
        );
    }
}
