use datafusion_distributed::benchmarks::memory::{
    CacheEntry, CacheError, InMemoryCacheExec, InMemoryCacheExecCodec, InMemoryDataSourceRule,
    WarmingUpMarker,
};
use datafusion_distributed::benchmarks::tpcds::{
    dict_columns, holds_table, plan_repartition, project_cols_as_dict, table_name,
    uses_dictionaries, Repartition, RepartitionError,
};
use datafusion_distributed::distributed_planner::plan::{
    CardinalityEffect, Node, NodeKind, Partitioning, Plan,
};
use datafusion_distributed::distributed_planner::staged_plan::{
    StagedPlan, Step as PlanStep, StepKind,
};
use datafusion_distributed::distributed_planner::task_estimator::{
    combined_reply, combined_task_estimation, file_scan_task_estimation, fixed_task_estimation,
    scale_up_file_scan, TaskCountAnnotation, TaskEstimation,
};
use datafusion_distributed::examples::numbers::{
    decode_numbers, numbers_range, Argument, NumberRange, NumbersError, NumbersExec,
};
use datafusion_distributed::execution_plans::network_broadcast::{
    BroadcastError, NetworkBroadcastExec,
};
use datafusion_distributed::execution_plans::network_shuffle::{NetworkShuffleExec, ShuffleError};
use datafusion_distributed::flight_service::do_get::{
    DoGet, GetError, PartitionsRemaining, Polled, Step, TrailingStream,
};
use datafusion_distributed::flight_service::task_table::TaskTable;
use datafusion_distributed::protobuf::errors::datafusion_error::DataFusionError;
use datafusion_distributed::protobuf::stage_proto::StageKey;
use datafusion_distributed::test_utils::mock_exec::{Delay, MockAction, MockExec};
use datafusion_distributed::text::DisplayFormatType;

fn node(kind: NodeKind, partitioning: Partitioning, children: Vec<Plan>) -> Plan {
    Plan {
        node: Node {
            id: Some(0),
            kind,
            partitioning,
            cardinality_effect: CardinalityEffect::Unknown,
            estimation: None,
        },
        task_idx_map: vec![],
        children,
    }
}

fn request(partition: u64, key: bool) -> DoGet {
    DoGet {
        stage_proto: vec![],
        target_task_index: 0,
        target_partition: partition,
        stage_key: if key {
            Some(StageKey { query_id: "q".to_string(), stage_id: 1, task_number: 0 })
        } else {
            None
        },
    }
}

#[test]
fn tasks_end_with_their_last_partition() {
    // Three tasks with three partitions each, of which some partitions are read.
    let mut tasks: Vec<PartitionsRemaining> = (0..3).map(|_| PartitionsRemaining::new(3)).collect();
    assert!(!tasks[0].finish_one());
    assert!(!tasks[0].finish_one());
    assert!(tasks[0].finish_one());
    assert!(!tasks[1].finish_one());
    assert!(!tasks[1].finish_one());
    assert_eq!(tasks[2].count, 3);
}

fn task_key(task_number: u64) -> StageKey {
    StageKey { query_id: "query".to_string(), stage_id: 1, task_number }
}

/// Asks for a partition of a task and reads it to the end.
fn do_get(table: &mut TaskTable<&'static str>, partition: u64, key: &StageKey) -> bool {
    let num_partitions_per_task = 3;
    table.request(key);
    if table.find(key).is_none() {
        table.store(key, "RepartitionExec", num_partitions_per_task);
    }
    let run = match table.find(key) {
        Some(task) => task.run,
        None => return false,
    };
    let doget = DoGet {
        stage_proto: vec![],
        target_task_index: key.task_number,
        target_partition: partition,
        stage_key: Some(key.clone()),
    };
    if doget.partition("RepartitionExec", num_partitions_per_task).is_err() {
        return false;
    }
    table.finish_one(key, run);
    true
}

#[test]
fn test_task_data_partition_counting() {
    // Three tasks with three partitions each.
    let num_tasks = 3;
    let num_partitions_per_task = 3;
    let task_keys = [task_key(0), task_key(1), task_key(2)];
    let mut table = TaskTable::new();

    // Every partition of each task but the last.
    for key in task_keys.iter() {
        for partition in 0..num_partitions_per_task - 1 {
            assert!(do_get(&mut table, partition, key));
        }
    }
    assert_eq!(table.keys().len(), num_tasks);

    // The last partition of the first task.
    assert!(do_get(&mut table, 2, &task_keys[0]));
    assert_eq!(table.keys().len(), 2);
    assert!(table.keys().contains(&task_keys[1]));
    assert!(table.keys().contains(&task_keys[2]));

    // The last partition of the second task.
    assert!(do_get(&mut table, 2, &task_keys[1]));
    assert_eq!(table.keys().len(), 1);
    assert!(table.keys().contains(&task_keys[2]));

    // The last partition of the last task.
    assert!(do_get(&mut table, 2, &task_keys[2]));
    assert_eq!(table.keys().len(), 0);
}

#[test]
fn runs_of_a_task_are_counted_apart() {
    let mut table = TaskTable::new();
    let key = task_key(0);
    table.request(&key);
    assert!(table.find(&key).is_none());
    assert_eq!(table.keys(), vec![key.clone()]);
    assert!(!table.finish_one(&key, 0));
    table.store(&key, "first", 1);
    // What is there already is not replaced.
    table.store(&key, "second", 5);
    let first = table.find(&key).unwrap().run;
    assert_eq!(table.find(&key).unwrap().data, "first");
    assert!(table.finish_one(&key, first));
    assert!(table.keys().is_empty());

    table.request(&key);
    table.store(&key, "third", 2);
    let third = table.find(&key).unwrap().run;
    // A late read of the run that is over.
    assert!(!table.finish_one(&key, first));
    assert_eq!(table.find(&key).unwrap().remaining.count, 2);
    // A read of another task.
    assert!(!table.finish_one(&task_key(1), third));
    assert!(!table.finish_one(&key, third));
    assert_eq!(table.find(&key).unwrap().remaining.count, 1);
    assert!(table.finish_one(&key, third));
    assert!(table.find(&key).is_none());
}

#[test]
fn requests_name_a_task_and_a_partition() {
    assert_eq!(request(1, true).key().unwrap().stage_id, 1);
    assert!(matches!(request(1, false).key().err(), Some(GetError::MissingField(_))));
    assert_eq!(request(1, true).partition("MockExec", 2).ok(), Some(1));
    match request(2, true).partition("MockExec", 2).err() {
        Some(GetError::NoSuchPartition { partition, plan_name, partition_count }) => {
            assert_eq!((partition, plan_name.as_str(), partition_count), (2, "MockExec", 2));
        }
        _ => panic!("expected an error"),
    }
}

#[test]
fn the_last_item_is_told_apart_from_the_others() {
    let mut stream: TrailingStream<u8> = TrailingStream::new();
    assert!(matches!(stream.step::<String>(Polled::Item(1)), Step::Wait));
    assert!(matches!(stream.step::<String>(Polled::Item(2)), Step::Emit(1)));
    assert!(matches!(stream.step::<String>(Polled::End), Step::EmitLast(2)));
    assert!(matches!(stream.step::<String>(Polled::End), Step::Done));
    let mut failing: TrailingStream<u8> = TrailingStream::new();
    assert!(matches!(failing.step(Polled::Error("e".to_string())), Step::Fail(_)));
}

#[test]
fn a_mock_hands_out_its_batches() {
    let mut exec = MockExec::new(vec![Ok(1), Err(DataFusionError::Execution("x".to_string()))])
        .with_use_task(false)
        .with_delay_between_batches(Delay { secs: 0, nanos: 1 })
        .with_gate()
        .with_start_notify()
        .with_execute_counts(vec![0]);
    let mut stream = exec.execute(0);
    assert_eq!(exec.execute_counts, Some(vec![1]));
    assert_eq!(stream.step(false), MockAction::WaitForGate);
    assert_eq!(stream.step(true), MockAction::Sleep);
    assert_eq!(stream.step(true), MockAction::Emit(0));
    assert_eq!(stream.step(true), MockAction::Sleep);
    assert_eq!(stream.step(true), MockAction::Emit(1));
    assert_eq!(stream.step(true), MockAction::End);
    assert_eq!(exec.partition_statistics(Some(0)).ok(), Some(false));
    match exec.partition_statistics(None) {
        Err(DataFusionError::Execution(message)) => assert_eq!(message, "x"),
        other => panic!("{other:?}"),
    }
    assert_eq!(exec.fmt_as(DisplayFormatType::Default), "MockExec");
    // What comes after the first error is not looked at.
    let exec: MockExec<u8> = MockExec::new(vec![
        Ok(1),
        Err(DataFusionError::Execution("first".to_string())),
        Err(DataFusionError::Internal("second".to_string())),
    ]);
    match exec.partition_statistics(None) {
        Err(DataFusionError::Execution(message)) => assert_eq!(message, "first"),
        other => panic!("{other:?}"),
    }
}

#[test]
fn caches_are_filled_while_warming_up() {
    let exec = InMemoryCacheExec;
    let warming = WarmingUpMarker::warming_up();
    assert_eq!(exec.find_entry(true, None), Ok(CacheEntry::Existing));
    assert_eq!(exec.find_entry(false, Some(warming)), Ok(CacheEntry::Created));
    assert_eq!(exec.find_entry(false, None), Err(CacheError::NotWarmedUp));
    assert_eq!(exec.fmt_as(), "InMemoryDataSourceExec\n");
    let codec = InMemoryCacheExecCodec;
    assert!(codec.try_decode("InMemoryDataSourceExec").is_ok());
    let error = codec.try_decode("else").err().unwrap();
    assert_eq!(error, CacheError::UnsupportedProto("else".to_string()));
    assert_eq!(error.message("\"else\""), "unsupported InMemoryDataSourceExec proto: \"else\"");
    assert_eq!(CacheError::NotWarmedUp.message(""), "InMemoryCacheExec is not yet warmed up");
    let leaf = || node(NodeKind::Other, Partitioning::UnknownPartitioning(1), vec![]);
    let plan = node(NodeKind::Union, Partitioning::UnknownPartitioning(2), vec![leaf(), leaf()]);
    let cached = InMemoryDataSourceRule.optimize(plan);
    for child in &cached.children {
        assert!(matches!(child.node.kind, NodeKind::InMemoryCache));
        assert_eq!(child.children.len(), 1);
    }
}

#[test]
fn tables_are_found_among_the_files() {
    assert!(holds_table("main/tpcds/data/sf1/item.parquet"));
    assert!(!holds_table("main/tpch/item.parquet"));
    assert!(!holds_table("main/tpcds/item.csv"));
    assert_eq!(table_name("item.parquet"), Some("item".to_string()));
    assert_eq!(table_name("item.csv"), None);
    assert_eq!(dict_columns("store"), vec!["s_state", "s_country"]);
    assert!(dict_columns("web_site").is_empty());
    assert!(uses_dictionaries("item") && !uses_dictionaries("items"));
    assert_eq!(
        project_cols_as_dict(
            &vec!["a".to_string(), "s_state".to_string()],
            &vec!["s_state", "s_country"]
        ),
        vec![false, true]
    );
}

#[test]
fn tables_are_written_once() {
    assert_eq!(RepartitionError::DoesNotExist.message("a/b"), "Path a/b does not exist");
    assert_eq!(RepartitionError::NotParquet.message("a/b"), "Path a/b is not parquet");
    assert!(matches!(
        plan_repartition(false, "item.parquet", None, true),
        Err(RepartitionError::DoesNotExist)
    ));
    assert!(matches!(
        plan_repartition(true, "item.csv", None, true),
        Err(RepartitionError::NotParquet)
    ));
    assert!(matches!(
        plan_repartition(true, "item.parquet", Some(1), true),
        Ok(Repartition::Skip)
    ));
    match plan_repartition(true, "customer.parquet", Some(0), true) {
        Ok(Repartition::Write { table, dict_columns }) => {
            assert_eq!(table, "customer");
            assert_eq!(dict_columns, vec!["c_salutation"]);
        }
        _ => panic!("expected a table to write"),
    }
}

#[test]
fn every_number_is_produced_by_one_task() {
    let range = numbers_range(&vec![Argument::Int64(Some(1)), Argument::Int32(Some(10))]).unwrap();
    let exec = NumbersExec::new(vec![range]).scale_up(4, 3);
    let mut all = vec![];
    for task in 0..4 {
        all.extend(exec.numbers(task).unwrap());
    }
    let expected: Vec<i64> = (range.start..range.end).collect();
    assert_eq!(all, expected);
    assert!(matches!(exec.numbers(4).err(), Some(NumbersError::TaskIndexOutOfRange)));
    assert!(matches!(
        numbers_range(&vec![Argument::Other]).err(),
        Some(NumbersError::WrongArgumentCount(1))
    ));
    assert!(matches!(
        numbers_range(&vec![Argument::Int64(Some(1)), Argument::Other]).err(),
        Some(NumbersError::NotAnInteger(1))
    ));
    assert!(matches!(
        decode_numbers(1, true, vec![]).err(),
        Some(NumbersError::UnexpectedChildren(1))
    ));
    assert!(matches!(
        decode_numbers(0, false, vec![NumberRange { start: 0, end: 1 }]).err(),
        Some(NumbersError::MissingSchema)
    ));
}

#[test]
fn test_first_user_estimator_wins() {
    let users = vec![Some(TaskEstimation::desired(2)), Some(TaskEstimation::desired(1))];
    let chosen = combined_task_estimation(&users, Some(TaskEstimation::desired(9))).unwrap();
    assert_eq!(chosen.task_count, TaskCountAnnotation::Desired(2));
}

#[test]
fn test_continues_until_some() {
    let users = vec![None, Some(TaskEstimation::desired(3))];
    let chosen = combined_task_estimation(&users, None).unwrap();
    assert_eq!(chosen.task_count, TaskCountAnnotation::Desired(3));
}

#[test]
fn files_are_estimated_by_their_bytes() {
    // 250 bytes in partitions of 100 are 3 partitions, which is 2 tasks of 2.
    let estimation = file_scan_task_estimation(&vec![vec![100, 50], vec![100]], 100, 2);
    assert_eq!(estimation.task_count, TaskCountAnnotation::Desired(2));
    assert!(fixed_task_estimation(4, 1).is_none());
    assert_eq!(
        fixed_task_estimation(4, 0).unwrap().task_count,
        TaskCountAnnotation::Desired(4)
    );
    let replies: Vec<Result<Option<u8>, String>> = vec![Ok(None), Ok(Some(1)), Err("e".to_string())];
    assert_eq!(combined_reply(replies), Ok(Some(1)));
    let replies: Vec<Result<Option<u8>, String>> = vec![Err("e".to_string()), Ok(Some(1))];
    assert_eq!(combined_reply(replies), Err("e".to_string()));
}

#[test]
fn file_groups_are_dealt_to_the_tasks() {
    let groups = vec![vec!["a", "b"], vec!["c"]];
    assert_eq!(
        scale_up_file_scan(groups.clone(), None, true, 2, 2),
        vec![vec![vec!["a"], vec!["c"]], vec![vec!["b"], vec![]]]
    );
    assert_eq!(
        scale_up_file_scan(groups, None, false, 2, 2),
        vec![vec![vec!["a", "b"]], vec![vec!["c"]]]
    );
}

#[test]
fn annotations_are_merged() {
    let desired = TaskCountAnnotation::Desired;
    let maximum = TaskCountAnnotation::Maximum;
    assert_eq!(desired(2).merge(desired(3)), desired(3));
    assert_eq!(desired(5).merge(maximum(3)), maximum(3));
    assert_eq!(maximum(5).merge(maximum(3)), maximum(3));
    assert_eq!(desired(5).limit(4), desired(4));
    assert_eq!(usize::from(maximum(7)), 7);
}

fn staged(kind: NodeKind, partitioning: Partitioning, children: Vec<StagedPlan>) -> StagedPlan {
    let step = PlanStep::Node {
        node: node(kind, partitioning, vec![]).node,
        task_idx_map: vec![],
        leaf_tasks: None,
    };
    StagedPlan { step, children }
}

fn staged_leaf() -> StagedPlan {
    staged(NodeKind::Other, Partitioning::UnknownPartitioning(3), vec![])
}

fn planned_node(plan: &StagedPlan) -> Node {
    match &plan.step {
        PlanStep::Node { node, .. } => *node,
        other => panic!("{other:?}"),
    }
}

#[test]
fn a_shuffle_reads_its_part_of_every_task() {
    let input = staged(NodeKind::Repartition, Partitioning::Hash(4), vec![staged_leaf()]);
    let shuffle = NetworkShuffleExec::try_new(input, 1, 2, 3).unwrap();
    assert_eq!(shuffle.partitioning, Partitioning::Hash(4));
    let below = planned_node(shuffle.plan.as_ref().unwrap());
    assert_eq!(below.partitioning, Partitioning::Hash(8));
    let request = shuffle.request(1, 2);
    assert_eq!((request.start, request.end, request.partition), (4, 8, 6));
    assert_eq!(
        shuffle.fmt_as(),
        "[Stage 1] => NetworkShuffleExec: output_partitions=4, input_tasks=3"
    );
    let error = NetworkShuffleExec::try_new(staged_leaf(), 1, 2, 3).unwrap_err();
    assert_eq!(error, ShuffleError::InputNotHashPartitioned);
    assert_eq!(
        error.message("").as_deref(),
        Some("NetworkShuffleExec input must be hash partitioned")
    );
}

#[test]
fn a_shuffle_scales_the_first_repartition_below_it() {
    let repartition =
        || staged(NodeKind::Repartition, Partitioning::Hash(4), vec![staged_leaf()]);
    let pass = |children| staged(NodeKind::Other, Partitioning::Hash(4), children);
    let shuffle =
        NetworkShuffleExec::try_new(pass(vec![repartition(), repartition()]), 1, 3, 2).unwrap();
    assert_eq!(shuffle.partitioning, Partitioning::Hash(4));
    let plan = shuffle.plan.unwrap();
    assert_eq!(planned_node(&plan).partitioning, Partitioning::Hash(4));
    assert_eq!(planned_node(&plan.children[0]).partitioning, Partitioning::Hash(12));
    assert_eq!(planned_node(&plan.children[1]).partitioning, Partitioning::Hash(4));

    let blocked = pass(vec![staged(
        NodeKind::CoalescePartitions,
        Partitioning::UnknownPartitioning(1),
        vec![repartition()],
    )]);
    let error = NetworkShuffleExec::try_new(blocked, 1, 3, 2).unwrap_err();
    match error {
        ShuffleError::NodeNotHashPartitioned(StepKind::Node(node)) => {
            assert_eq!(node.kind, NodeKind::CoalescePartitions);
        }
        other => panic!("{other:?}"),
    }
    assert_eq!(
        error.message("CoalescePartitionsExec").as_deref(),
        Some("NetworkShuffleExec input must be hash partitioned, but CoalescePartitionsExec is not")
    );

    let bare = pass(vec![]);
    let shuffle = NetworkShuffleExec::try_new(bare, 1, 3, 2).unwrap();
    assert_eq!(planned_node(&shuffle.plan.unwrap()).partitioning, Partitioning::Hash(4));

    let childless = staged(NodeKind::Repartition, Partitioning::Hash(4), vec![]);
    assert_eq!(
        NetworkShuffleExec::try_new(childless, 1, 3, 2).unwrap_err(),
        ShuffleError::ExpectedOneChild(0)
    );
    let huge = staged(NodeKind::Repartition, Partitioning::Hash(usize::MAX), vec![staged_leaf()]);
    assert_eq!(
        NetworkShuffleExec::try_new(huge, 1, 3, 2).unwrap_err(),
        ShuffleError::TooManyPartitions
    );
}

#[test]
fn a_broadcast_is_read_by_every_task() {
    let keep = |children| {
        let kind = NodeKind::Broadcast { consumer_task_count: 1 };
        staged(kind, Partitioning::UnknownPartitioning(3), children)
    };
    let broadcast = NetworkBroadcastExec::try_new(keep(vec![staged_leaf()]), 1, 2, 4).unwrap();
    assert_eq!(broadcast.input_stage.tasks, 4);
    assert_eq!(broadcast.partitioning, Partitioning::UnknownPartitioning(3));
    let below = planned_node(broadcast.plan.as_ref().unwrap());
    assert_eq!(below.kind, NodeKind::Broadcast { consumer_task_count: 2 });
    let request = broadcast.request(1, 2);
    assert_eq!((request.start, request.end, request.partition), (3, 6, 5));

    let error = NetworkBroadcastExec::try_new(staged_leaf(), 1, 2, 4).unwrap_err();
    assert!(matches!(error, BroadcastError::InputNotBroadcast(StepKind::Node(_))));
    assert_eq!(
        error.message("DataSourceExec").as_deref(),
        Some("NetworkBroadcastExec requires a BroadcastExec input, found: DataSourceExec")
    );
    assert_eq!(
        NetworkBroadcastExec::try_new(keep(vec![]), 1, 2, 4).unwrap_err(),
        BroadcastError::ExpectedOneChild(0)
    );
}
