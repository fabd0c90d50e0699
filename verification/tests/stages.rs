use datafusion_distributed::display::shown_plan::{ShownPlan, ShownRole, ShownStage};
use datafusion_distributed::execution_plans::distributed::{
    is_preparable, prepare_plan, DistributedExec, LatencyMetric, PrepareError, RunningPlan,
    StageBelow,
};
use datafusion_distributed::execution_plans::stage::{
    DistributedTaskContext, InputStage, StageError, StageExec,
};
use datafusion_distributed::execution_plans::stage_display::{
    display_plan_graphviz, does_tree_fit, GraphRoot,
};
use datafusion_distributed::protobuf::distributed_codec::NetworkKind;
use datafusion_distributed::protobuf::stage_proto::{
    proto_from_input_stage, proto_from_stage, stage_from_proto, StageExecProto, StageKey,
    StageProtoError,
};
use datafusion_distributed::stage::{assign_in_turn, ExecutionTask, QueryId};
use datafusion_distributed::text::DisplayFormatType;

const QUERY: QueryId = QueryId { bytes: [5; 16] };

fn urls() -> Vec<String> {
    vec!["http://a/".to_string(), "http://b/".to_string(), "http://c/".to_string()]
}

fn stage(num: usize, inputs: Vec<StageExec<&'static str>>, tasks: usize) -> StageExec<&'static str> {
    StageExec::new(QUERY, num, "plan", inputs, tasks)
}

fn url_of(task: &ExecutionTask) -> String {
    task.url.clone().unwrap()
}

#[test]
fn stages_have_padded_names() {
    assert_eq!(stage(7, vec![], 1).name(), "Stage 7  ");
    assert_eq!(stage(42, vec![], 1).name(), "Stage 42 ");
    assert_eq!(stage(1234, vec![], 1).name(), "Stage 1234");
    assert_eq!(DistributedTaskContext::default(), DistributedTaskContext::new(0));
}

#[test]
fn tasks_are_handed_out_in_turn() {
    let tasks = assign_in_turn(4, &urls(), 2);
    let given: Vec<String> = tasks.iter().map(url_of).collect();
    assert_eq!(given, vec!["http://c/", "http://a/", "http://b/", "http://c/"]);
}

#[test]
fn every_task_of_every_stage_gets_a_worker() {
    let top = stage(2, vec![stage(1, vec![], 5)], 3);
    let assigned = top.prepare(0, &urls()).unwrap();
    assert!(assigned.tasks.iter().all(|t| urls().contains(&url_of(t))));
    let below = assigned.children();
    assert_eq!(below.len(), 1);
    let given: Vec<String> = below[0].tasks.iter().map(url_of).collect();
    assert_eq!(given.len(), 5);
    for i in 0..3 {
        assert!(given.iter().any(|u| *u == urls()[i]));
    }
    assert_eq!(given[0], given[3]);
    assert_eq!(top.prepare(1, &urls()).err(), Some(StageError::ManyPartitions(1)));
    assert_eq!(
        StageError::ManyPartitions(1).message(),
        "an executable StageExec must only have 1 partition, but it was called with partition index 1"
    );
    assert_eq!(top.input_stage(9).err(), Some(StageError::NoInputStage(9)));
    assert_eq!(top.input_stage(1).unwrap().num(), 1);
    let read_from: Vec<usize> = top.input_stages_iter().iter().map(|input| input.num()).collect();
    assert_eq!(read_from, vec![1]);
}

#[test]
fn encoded_stages_get_no_workers() {
    let mut top = stage(2, vec![], 1);
    top.inputs.push(InputStage::Encoded { num: 1, tasks: vec![], proto: vec![1] });
    assert_eq!(top.try_assign_urls(&urls()).err(), Some(StageError::EncodedInput));
    assert!(top.children().is_empty());
}

fn write_plan(plan: &&'static str) -> Result<String, String> {
    if *plan == "bad" {
        Err("cannot write".to_string())
    } else {
        Ok(plan.to_string())
    }
}

fn write_stage(proto: &StageExecProto<String>) -> Vec<u8> {
    proto.name.as_bytes().to_vec()
}

#[test]
fn stages_survive_being_sent() {
    let mut top = stage(2, vec![stage(1, vec![], 2)], 1);
    top.tasks = vec![ExecutionTask { url: Some("http://a/".to_string()) }];
    let proto = proto_from_stage(&top, &write_plan, &write_stage).unwrap();
    assert_eq!(proto.inputs.len(), 1);
    assert_eq!(proto.inputs[0].stage, b"Stage 1  ".to_vec());
    let back: StageExec<String> =
        stage_from_proto(proto, &|p: &String| Ok::<String, String>(p.clone())).ok().unwrap();
    assert_eq!(back.num, 2);
    assert_eq!(back.name, "Stage 2  ");
    assert_eq!(back.plan, "plan");
    assert_eq!(url_of(&back.tasks[0]), "http://a/");
    assert_eq!(back.inputs[0].num(), 1);
    assert_eq!(back.inputs[0].tasks().len(), 2);
    // A stage that was received is passed on as it came.
    let passed_on = proto_from_input_stage(
        &back.inputs[0],
        &|p: &String| Ok::<String, String>(p.clone()),
        &|_: &StageExecProto<String>| vec![],
    );
    assert_eq!(passed_on.unwrap(), b"Stage 1  ".to_vec());
}

#[test]
fn test_execution_stage_proto_round_trip() {
    let stage = StageExec {
        query_id: QUERY,
        num: 1,
        name: "TestStage".to_string(),
        plan: "plan",
        inputs: vec![],
        tasks: vec![],
        depth: 0,
    };
    let stage_msg = proto_from_stage(&stage, &write_plan, &write_stage).unwrap();
    let round_trip_stage: StageExec<String> =
        stage_from_proto(stage_msg, &|p: &String| Ok::<String, String>(p.clone())).ok().unwrap();
    assert_eq!(stage.num, round_trip_stage.num);
    assert_eq!(stage.name, round_trip_stage.name);
    assert_eq!(stage.query_id, round_trip_stage.query_id);
}

#[test]
fn stages_that_cannot_be_sent_or_received_are_errors() {
    let bad: StageExec<&'static str> = StageExec::new(QUERY, 1, "bad", vec![], 1);
    assert_eq!(
        proto_from_stage(&bad, &write_plan, &write_stage).err(),
        Some("cannot write".to_string())
    );
    let good = || proto_from_stage(&stage(1, vec![], 1), &write_plan, &write_stage).unwrap();
    let read = |p: StageExecProto<String>| {
        let r: Result<StageExec<String>, StageProtoError<String>> =
            stage_from_proto(p, &|p: &String| Ok(p.clone()));
        r.err().unwrap()
    };
    let mut no_plan = good();
    no_plan.plan = None;
    assert!(matches!(read(no_plan), StageProtoError::MissingPlan));
    let mut no_id = good();
    no_id.query_id = vec![1, 2];
    assert!(matches!(read(no_id), StageProtoError::InvalidQueryId));
    let mut no_url = good();
    no_url.tasks[0].url_str = Some("nowhere".to_string());
    assert!(matches!(read(no_url), StageProtoError::InvalidUrl(_)));
}

#[test]
fn stage_keys_are_shown_with_their_parts() {
    let key = StageKey { query_id: "q".to_string(), stage_id: 2, task_number: 3 };
    assert_eq!(key.to_string(), "StageKey_QueryID_q_StageID_2_TaskNumber_3");
}

fn plain(name: &str, partitions: usize, role: ShownRole, children: Vec<ShownPlan>) -> ShownPlan {
    ShownPlan {
        name: name.to_string(),
        line: name.to_string(),
        partitions,
        hash: false,
        role,
        metrics: None,
        children,
    }
}

fn shown_stages() -> StageExec<ShownPlan> {
    let source = plain("DataSourceExec", 3, ShownRole::Plain, vec![]);
    let isolator = plain("PartitionIsolatorExec", 2, ShownRole::Isolator, vec![source]);
    let below = StageExec::new(QUERY, 1, isolator, vec![], 2);
    let role =
        ShownRole::Boundary(ShownStage { kind: NetworkKind::Coalesce, num: 1, n_tasks: 2 });
    let reader = plain("NetworkCoalesceExec", 4, role, vec![]);
    let top = plain("CoalescePartitionsExec", 1, ShownRole::Plain, vec![reader]);
    StageExec::new(QUERY, 2, top, vec![below], 1)
}

#[test]
fn a_stage_is_shown_in_a_box() {
    let top = shown_stages();
    assert!(top.is_showable(DisplayFormatType::Verbose));
    assert_eq!(top.fmt_as(DisplayFormatType::Default), "Stage 2  ");
    assert_eq!(top.fmt_as(DisplayFormatType::TreeRender), "Tasks: t0:[p0] ");
    assert_eq!(
        top.fmt_as(DisplayFormatType::Verbose),
        "┌───── Stage 2   Tasks: t0:[p0] \n\
         │ CoalescePartitionsExec\n\
         │   NetworkCoalesceExec read_from=Stage 1, output_partitions=4, input_tasks=2\n\
         └──────────────────────────────────────────────────"
    );
    let mut below = match top.inputs.into_iter().next().unwrap() {
        InputStage::Decoded(stage) => *stage,
        _ => panic!("expected a stage"),
    };
    below.depth = 1;
    assert_eq!(
        below.fmt_as(DisplayFormatType::Verbose),
        "┌───── Stage 1   Tasks: t0:[p0,p1] t1:[p2,p3] \n  \
         │ PartitionIsolatorExec Tasks: t0:[p0,p1,__] t1:[__,__,p0] \n  \
         │   DataSourceExec\n  \
         └──────────────────────────────────────────────────"
    );
}

#[test]
fn a_reader_of_an_unknown_stage_is_pointed_out() {
    let mut top = shown_stages();
    top.inputs.clear();
    assert!(top
        .fmt_as(DisplayFormatType::Verbose)
        .contains("NetworkCoalesceExecWrong partition number 1"));
}

#[test]
fn a_tree_of_stages_is_drawn() {
    let top = shown_stages();
    assert!(does_tree_fit(&top));
    let text = display_plan_graphviz(&GraphRoot::Stages(top));
    let first = text.find("cluster_stage_2_task_0").unwrap();
    let second = text.find("cluster_stage_1_task_0").unwrap();
    assert!(first < second);
    assert!(text.contains("// edges from child stage 1 task 1 to stage 2 task 0\n"));
    assert!(text.contains(
        "  PartitionIsolatorExec_1_1_1:t0:n -> NetworkCoalesceExec_2_0_2:b2:s  [color=1]\n"
    ));
    let alone = GraphRoot::Single(plain("A", 1, ShownRole::Plain, vec![]));
    assert!(display_plan_graphviz(&alone).contains("node[shape=none]\n"));
}

fn running(id: usize, stage: Option<StageBelow>, children: Vec<RunningPlan>) -> RunningPlan {
    RunningPlan { id, stage, children }
}

fn below(num: usize, tasks: usize) -> Option<StageBelow> {
    Some(StageBelow {
        query_id: QUERY,
        num,
        tasks: (0..tasks).map(|_| ExecutionTask { url: None }).collect(),
    })
}

fn write(plan: &RunningPlan) -> Result<Vec<u8>, String> {
    if plan.id == 99 {
        Err("cannot write".to_string())
    } else {
        Ok(vec![plan.id as u8])
    }
}

#[test]
fn every_task_is_sent_its_plan() {
    let leaf = running(3, None, vec![]);
    let plan = running(1, None, vec![running(2, below(1, 2), vec![leaf])]);
    let (prepared, sent) = prepare_plan(plan, &urls(), &write).ok().unwrap();
    assert_eq!(sent.len(), 2);
    for (i, request) in sent.iter().enumerate() {
        assert_eq!(request.request.plan_proto, vec![3]);
        assert_eq!(request.request.task_count, 2);
        assert_eq!(request.request.task_key.task_number, i as u64);
        assert_eq!(request.request.task_key.stage_id, 1);
        assert_eq!(request.request.task_key.query_id, vec![5; 16]);
        assert!(urls().contains(&request.url));
    }
    let boundary = &prepared.children[0];
    assert!(boundary.children.is_empty());
    assert_eq!(url_of(&boundary.stage.as_ref().unwrap().tasks[1]), sent[1].url);
}

#[test]
fn plans_that_cannot_be_prepared_are_errors() {
    let no_plan = running(2, below(4, 2), vec![]);
    assert!(matches!(
        prepare_plan(no_plan, &urls(), &write).err(),
        Some(PrepareError::PlanNotSet(4))
    ));
    let bad = running(2, below(1, 2), vec![running(99, None, vec![])]);
    match prepare_plan(bad, &urls(), &write).err() {
        Some(PrepareError::Engine(e)) => assert_eq!(e, "cannot write"),
        _ => panic!("expected the error of the engine"),
    }
    let mut exec = DistributedExec::new();
    assert!(matches!(
        exec.prepared_plan::<String>().err(),
        Some(PrepareError::NotExecuted)
    ));
    assert!(matches!(
        exec.execute(1, running(1, None, vec![]), &urls(), &write).err(),
        Some(PrepareError::ManyPartitions(1))
    ));
    assert!(exec.execute(0, running(1, None, vec![]), &urls(), &write).is_ok());
    assert_eq!(exec.prepared_plan::<String>().ok().unwrap().id, 1);
    assert_eq!(exec.fmt_as(), "DistributedExec");
}

#[test]
fn stages_with_plans_need_a_worker() {
    let with_plan = running(2, below(1, 2), vec![running(1, None, vec![])]);
    assert!(is_preparable(&with_plan, &urls()));
    assert!(!is_preparable(&running(3, None, vec![with_plan]), &vec![]));
    assert!(is_preparable(&running(1, None, vec![]), &vec![]));
    // A stage without a plan is an error before a worker is needed.
    let no_plan = running(2, below(4, 2), vec![]);
    assert!(is_preparable(&no_plan, &vec![]));
    assert!(matches!(
        prepare_plan(no_plan, &vec![], &write).err(),
        Some(PrepareError::PlanNotSet(4))
    ));
}

#[test]
fn latencies_are_averaged() {
    let mut metric = LatencyMetric::new();
    assert_eq!((metric.max(), metric.avg()), (0, 0));
    metric.record(10);
    metric.record(21);
    assert_eq!((metric.max(), metric.avg()), (21, 15));
    assert_eq!(LatencyMetric::max_name("plan"), "plan_max");
    assert_eq!(LatencyMetric::avg_name("plan"), "plan_avg");
}
