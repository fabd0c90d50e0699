use datafusion_distributed::display::ascii::{
    are_inputs_countable, display_plan_ascii, is_countable, AsciiRoot,
};
use datafusion_distributed::display::graphviz::{
    build_partition_group, display_inter_task_edges, display_single_plan, format_pg, DrawnStage,
    GraphError,
};
use datafusion_distributed::display::metrics_text::{
    aggregate_by_task_id, find_task_id, format_metrics_by_task, MetricText, ShownMetric,
};
use datafusion_distributed::display::shown_plan::{
    walk_plan, ShownPlan, ShownRole, ShownStage, WalkLimit,
};
use datafusion_distributed::display::stage_graph::{
    display_plan_graphviz, find_all_stages, find_input_stages, is_drawable,
};
use datafusion_distributed::metrics::metric::Label;
use datafusion_distributed::protobuf::distributed_codec::NetworkKind;

fn shown(line: &str, partitions: usize, hash: bool, role: ShownRole, children: Vec<ShownPlan>) -> ShownPlan {
    ShownPlan {
        name: line.split([':', ' ']).next().unwrap().to_string(),
        line: line.to_string(),
        partitions,
        hash,
        role,
        metrics: None,
        children,
    }
}

fn plain(line: &str, partitions: usize, children: Vec<ShownPlan>) -> ShownPlan {
    shown(line, partitions, false, ShownRole::Plain, children)
}

fn boundary(
    kind: NetworkKind,
    line: &str,
    num: usize,
    n_tasks: usize,
    partitions: usize,
    children: Vec<ShownPlan>,
) -> ShownPlan {
    let role = ShownRole::Boundary(ShownStage { kind, num, n_tasks });
    let hash = matches!(kind, NetworkKind::Shuffle);
    let mut plan = shown(line, partitions, hash, role, children);
    plan.name = kind.name().to_string();
    plan
}

fn distributed() -> ShownPlan {
    let source = plain("DataSourceExec: 3 files", 3, vec![]);
    let isolator = shown(
        "PartitionIsolatorExec: tasks=3 partitions=3",
        1,
        false,
        ShownRole::Isolator,
        vec![source],
    );
    let round_robin = plain("RepartitionExec: round robin", 4, vec![isolator]);
    let partial = plain("AggregateExec: mode=Partial", 4, vec![round_robin]);
    let repartition = shown("RepartitionExec: hash", 8, true, ShownRole::Plain, vec![partial]);
    let shuffle = boundary(
        NetworkKind::Shuffle,
        "[Stage 1] => NetworkShuffleExec: output_partitions=4, input_tasks=3",
        1,
        3,
        4,
        vec![repartition],
    );
    let full = shown(
        "AggregateExec: mode=FinalPartitioned",
        4,
        true,
        ShownRole::Plain,
        vec![shuffle],
    );
    let coalesce = boundary(
        NetworkKind::Coalesce,
        "[Stage 2] => NetworkCoalesceExec: output_partitions=8, input_tasks=2",
        2,
        2,
        8,
        vec![full],
    );
    plain("CoalescePartitionsExec", 1, vec![coalesce])
}

#[test]
fn stages_are_shown_in_boxes() {
    let plan = distributed();
    assert!(is_countable(1, &plan) && are_inputs_countable(&plan));
    let root = AsciiRoot::Distributed { plan, metrics: String::new() };
    let text = display_plan_ascii(&root, false);
    assert_eq!(
        text.lines().collect::<Vec<_>>(),
        vec![
            "┌───── DistributedExec ── Tasks: t0:[p0] ",
            "│ CoalescePartitionsExec",
            "│   [Stage 2] => NetworkCoalesceExec: output_partitions=8, input_tasks=2",
            "└──────────────────────────────────────────────────",
            "  ┌───── Stage 2 ── Tasks: t0:[p0..p3] t1:[p0..p3] ",
            "  │ AggregateExec: mode=FinalPartitioned",
            "  │   [Stage 1] => NetworkShuffleExec: output_partitions=4, input_tasks=3",
            "  └──────────────────────────────────────────────────",
            "    ┌───── Stage 1 ── Tasks: t0:[p0..p7] t1:[p0..p7] t2:[p0..p7] ",
            "    │ RepartitionExec: hash",
            "    │   AggregateExec: mode=Partial",
            "    │     RepartitionExec: round robin",
            "    │       PartitionIsolatorExec: tasks=3 partitions=3",
            "    │         DataSourceExec: 3 files",
            "    └──────────────────────────────────────────────────",
        ]
    );
}

#[test]
fn metrics_are_shown_behind_the_nodes() {
    let mut plan = plain("FilterExec", 2, vec![plain("DataSourceExec", 2, vec![])]);
    plan.metrics = Some("output_rows=3".to_string());
    let root = AsciiRoot::Distributed { plan, metrics: "x".to_string() };
    let text = display_plan_ascii(&root, true);
    let lines: Vec<&str> = text.lines().collect();
    assert_eq!(lines[0], "┌───── DistributedExec ── Tasks: t0:[p0..p1] x");
    assert_eq!(lines[1], "│ FilterExec, metrics=[output_rows=3]");
    assert_eq!(lines[2], "│   DataSourceExec, metrics=[]");
}

#[test]
fn a_walk_goes_level_by_level_down_to_the_boundaries() {
    let plan = distributed();
    let names: Vec<&str> =
        walk_plan(&plan, WalkLimit::Boundaries).iter().map(|v| v.plan.name.as_str()).collect();
    assert_eq!(names, vec!["CoalescePartitionsExec", "NetworkCoalesceExec"]);
    let wide = plain(
        "A",
        1,
        vec![plain("B", 1, vec![plain("D", 1, vec![])]), plain("C", 1, vec![])],
    );
    let list = walk_plan(&wide, WalkLimit::ShufflesAndCoalesces);
    let seen: Vec<(&str, usize)> =
        list.iter().map(|v| (v.plan.name.as_str(), v.parent.map_or(0, |p| p.1))).collect();
    assert_eq!(seen, vec![("A", 0), ("B", 1), ("C", 1), ("D", 2)]);
}

#[test]
fn nodes_are_drawn_as_tables() {
    let node = plain("A", 2, vec![plain("B", 1, vec![])]);
    assert_eq!(
        display_single_plan(&node, 5, 6, 7),
        "
    A_5_6_7 [label=<
    <TABLE BORDER='0' CELLBORDER='0' CELLSPACING='0' CELLPADDING='0'>
        <TR>
            <TD CELLBORDER='0'>
                <TABLE BORDER='0' CELLBORDER='1' CELLSPACING='0'>
                    <TR>
                        <TD PORT='t0'></TD>
                        <TD PORT='t1'></TD>
                   </TR>
                </TABLE>
            </TD>
        </TR>
        <TR>
            <TD BORDER='0' CELLPADDING='0' CELLSPACING='0'>
                <TABLE BORDER='0' CELLBORDER='1' CELLSPACING='0'>
                    <TR>
                        <TD>A</TD>
                    </TR>
                </TABLE>
            </TD>
        </TR>
        <TR>
            <TD CELLBORDER='0'>
                <TABLE BORDER='0' CELLBORDER='1' CELLSPACING='0'>
                    <TR>
                        <TD PORT='b0'></TD>
                   </TR>
                </TABLE>
            </TD>
        </TR>
    </TABLE>
  >];

"
    );
}

#[test]
fn stages_are_found_from_the_top_down() {
    let plan = distributed();
    let all: Vec<usize> = find_all_stages(&plan).iter().map(|s| s.num).collect();
    assert_eq!(all, vec![2, 1]);
    let inputs: Vec<usize> = find_input_stages(&plan).iter().map(|s| s.num).collect();
    assert_eq!(inputs, vec![2]);
}

#[test]
fn a_distributed_plan_is_drawn_with_all_its_tasks() {
    let plan = distributed();
    assert!(is_drawable(&plan, true));
    let text = display_plan_graphviz(&plan, true).unwrap();
    assert!(text.starts_with(
        "digraph G {\n  rankdir=BT\n  edge[colorscheme=spectral6, penwidth=2.0]\n  splines=false\n\n"
    ));
    assert!(text.ends_with("}\n"));
    for (stage, tasks) in [(3, 1), (2, 2), (1, 3)] {
        for task in 0..tasks {
            assert!(text.contains(&format!("subgraph \"cluster_stage_{stage}_task_{task}\"")));
        }
    }
    assert!(text.contains("label = \"Stage 2 Task 1 Partitions 4_5_6_7\""));
    assert!(text.contains("// edges from child stage 1 task 2 to stage 2 task 1\n"));
    // The second task of a shuffle reads the second half of the partitions.
    assert!(text.contains(
        "  RepartitionExec_1_2_1:t5:n -> NetworkShuffleExec_2_1_2:b1:s [color=2]\n"
    ));
    // A coalesce puts the partitions of the second task behind those of the first.
    assert!(text.contains(
        "  AggregateExec_2_1_1:t3:n -> NetworkCoalesceExec_3_0_2:b7:s [color=4]\n"
    ));
    // Below an isolator only the edges of the task are seen.
    assert!(text.contains(
        "  DataSourceExec_1_1_5:t1:n -> PartitionIsolatorExec_1_1_4:b1:s [color=2]\n"
    ));
    assert!(text.contains(
        "  DataSourceExec_1_1_5:t0:n -> PartitionIsolatorExec_1_1_4:b0:s [style=invis][color=1]\n"
    ));
}

#[test]
fn a_plan_that_is_not_distributed_is_drawn_alone() {
    let plan = plain("A", 1, vec![plain("B", 1, vec![])]);
    let text = display_plan_graphviz(&plan, false).unwrap();
    assert!(text.contains("node[shape=none]\n"));
    assert!(text.contains("  B_0_0_2:t0:n -> A_0_0_1:b0:s [color=1]\n"));
}

#[test]
fn stages_without_plans_cannot_be_drawn() {
    let plan = plain(
        "A",
        1,
        vec![boundary(NetworkKind::Shuffle, "NetworkShuffleExec", 1, 2, 4, vec![])],
    );
    assert_eq!(display_plan_graphviz(&plan, true), Err(GraphError::PlanNotPresent));
    assert_eq!(GraphError::PlanNotPresent.message(), "plan not present");
    let stage = DrawnStage { num: 1, n_tasks: 1, plan: Some(&plan) };
    let encoded = DrawnStage { num: 2, n_tasks: 1, plan: None };
    let edges = display_inter_task_edges(&stage, 0, &encoded, 0);
    assert_eq!(edges, Err(GraphError::PlanEncoded));
    assert_eq!(GraphError::PlanEncoded.message(), "The inner plan of a stage was encoded.");
}

#[test]
fn shuffles_read_every_port_of_a_task_once() {
    let plan = distributed();
    let top = &plan.children[0].children[0];
    let source = &top.children[0].children[0];
    let reader = DrawnStage { num: 2, n_tasks: 2, plan: Some(top) };
    let input = DrawnStage { num: 1, n_tasks: 3, plan: Some(source) };
    let mut ports = vec![];
    for task in 0..2 {
        let edges = display_inter_task_edges(&reader, task, &input, 1).unwrap();
        assert_eq!(edges.lines().count(), 4);
        for (p, edge) in edges.lines().enumerate() {
            let port = p + task * 4;
            let from = format!("  RepartitionExec_1_1_1:t{port}:n");
            let to = format!("NetworkShuffleExec_2_{task}_2:b{p}:s [color={}]", p + 1);
            assert_eq!(edge, format!("{from} -> {to}"));
            ports.push(port);
        }
    }
    assert_eq!(ports, (0..8).collect::<Vec<_>>());
}

#[test]
fn edges_are_drawn_for_tasks_of_any_number() {
    let plan = distributed();
    let top = &plan.children[0].children[0];
    let source = &top.children[0].children[0];
    let reader = DrawnStage { num: 2, n_tasks: 2, plan: Some(top) };
    let input = DrawnStage { num: 1, n_tasks: 3, plan: Some(source) };
    let edges = display_inter_task_edges(&reader, 7, &input, 5).unwrap();
    assert_eq!(
        edges.lines().next(),
        Some("  RepartitionExec_1_5_1:t28:n -> NetworkShuffleExec_2_7_2:b0:s [color=1]")
    );
    assert_eq!(edges.lines().count(), 4);
}

#[test]
fn partition_groups_are_numbered_through() {
    assert_eq!(build_partition_group(2, 3), vec![6, 7, 8]);
    assert_eq!(format_pg(&vec![6, 7, 8]), "6_7_8");
    assert_eq!(format_pg(&vec![]), "");
}

fn metric(name: &str, task: Option<&str>, sort_key: u8, value: &str) -> MetricText {
    MetricText {
        name: name.to_string(),
        task_id: task.map(|t| t.to_string()),
        sort_key,
        timestamp: false,
        value: value.to_string(),
    }
}

#[test]
fn metrics_are_ordered_by_key_name_and_task() {
    let mut start = metric("start_timestamp", None, 0, "now");
    start.timestamp = true;
    let metrics = vec![
        metric("elapsed_compute", Some("0"), 1, "2ms"),
        metric("output_rows", Some("10"), 0, "4"),
        start,
        metric("output_rows", Some("9"), 0, "3"),
        metric("output_rows", None, 0, "7"),
    ];
    assert_eq!(
        format_metrics_by_task(metrics),
        "output_rows=7, output_rows_9=3, output_rows_10=4, elapsed_compute_0=2ms"
    );
}

#[test]
fn metrics_are_grouped_by_name_and_task() {
    let shown = |name: &str, task: Option<&str>| ShownMetric {
        name: name.to_string(),
        task_id: task.map(|t| t.to_string()),
        sort_key: 0,
        timestamp: false,
    };
    let groups = aggregate_by_task_id(&vec![
        shown("rows", Some("0")),
        shown("time", Some("0")),
        shown("rows", Some("1")),
        shown("rows", Some("0")),
    ]);
    let members: Vec<Vec<usize>> = groups.iter().map(|g| g.members.clone()).collect();
    assert_eq!(members, vec![vec![0, 3], vec![1], vec![2]]);
    let labels = vec![
        Label { name: "operator".to_string(), value: "scan".to_string() },
        Label {
            name: "distributed_datafusion_task_id".to_string(),
            value: "4".to_string(),
        },
    ];
    assert_eq!(find_task_id(&labels), Some("4".to_string()));
}
