use datafusion_distributed::execution_plans::children_isolator_union::{
    split_children, ChildError, ChildrenIsolatorUnionExec, ObservedStream, SplitError, StreamPoll,
    UnionError,
};
use datafusion_distributed::execution_plans::partition_isolator::PartitionIsolatorExec;
use datafusion_distributed::protobuf::distributed_codec::InputPlan;
use datafusion_distributed::stage::DistributedTaskContext;
use datafusion_distributed::text::DisplayFormatType;

fn ctx(task_index: usize, task_count: usize) -> DistributedTaskContext {
    DistributedTaskContext { task_index, task_count }
}

fn children(partitions: &[usize]) -> Vec<InputPlan<()>> {
    partitions.iter().map(|partitions| InputPlan { plan: (), partitions: *partitions }).collect()
}

fn accept(_children: &Vec<InputPlan<()>>) -> Result<(), String> {
    Ok(())
}

#[test]
fn children_split_all_1_task() {
    assert_eq!(
        split_children(vec![1, 1, 1], 3).unwrap(),
        vec![vec![(0, ctx(0, 1))], vec![(1, ctx(0, 1))], vec![(2, ctx(0, 1))]]
    );
    assert_eq!(
        split_children(vec![1, 1, 1], 2).unwrap(),
        vec![vec![(0, ctx(0, 1)), (1, ctx(0, 1))], vec![(2, ctx(0, 1))]]
    );
    assert_eq!(
        split_children(vec![1, 1, 1], 1).unwrap(),
        vec![vec![(0, ctx(0, 1)), (1, ctx(0, 1)), (2, ctx(0, 1))]]
    );
}

#[test]
fn split_children_different_tasks() {
    assert_eq!(
        split_children(vec![1, 2, 3], 6).unwrap(),
        vec![
            vec![(0, ctx(0, 1))],
            vec![(1, ctx(0, 2))],
            vec![(1, ctx(1, 2))],
            vec![(2, ctx(0, 3))],
            vec![(2, ctx(1, 3))],
            vec![(2, ctx(2, 3))]
        ]
    );
    assert_eq!(
        split_children(vec![1, 2, 3], 5).unwrap(),
        vec![
            vec![(0, ctx(0, 1))],
            vec![(1, ctx(0, 2))],
            vec![(1, ctx(1, 2))],
            vec![(2, ctx(0, 2))],
            vec![(2, ctx(1, 2))],
        ]
    );
    assert_eq!(
        split_children(vec![1, 2, 3], 4).unwrap(),
        vec![
            vec![(0, ctx(0, 1))],
            vec![(1, ctx(0, 1))],
            vec![(2, ctx(0, 2))],
            vec![(2, ctx(1, 2))],
        ]
    );
    assert_eq!(
        split_children(vec![1, 2, 3], 3).unwrap(),
        vec![vec![(0, ctx(0, 1))], vec![(1, ctx(0, 1))], vec![(2, ctx(0, 1))]]
    );
    assert_eq!(
        split_children(vec![1, 2, 3], 2).unwrap(),
        vec![vec![(0, ctx(0, 1)), (1, ctx(0, 1))], vec![(2, ctx(0, 1))]]
    );
    assert_eq!(
        split_children(vec![1, 2, 3], 1).unwrap(),
        vec![vec![(0, ctx(0, 1)), (1, ctx(0, 1)), (2, ctx(0, 1))]]
    );
}

#[test]
fn the_largest_children_are_trimmed_evenly() {
    let tasks = split_children(vec![9, 2, 6, 1], 9).unwrap();
    let mut counts = vec![0; 4];
    for (child, ctx) in tasks.into_iter().flatten() {
        counts[child] = ctx.task_count;
    }
    assert_eq!(counts, vec![3, 2, 3, 1]);
    let tasks = split_children(vec![5, 5, 5], 13).unwrap();
    let mut counts = vec![0; 3];
    for (child, ctx) in tasks.into_iter().flatten() {
        counts[child] = ctx.task_count;
    }
    assert_eq!(counts, vec![4, 4, 5]);
}

#[test]
fn test_partition_groups() {
    assert_eq!(PartitionIsolatorExec::partition_groups(2, 1), vec![vec![0, 1]]);
    assert_eq!(
        PartitionIsolatorExec::partition_groups(6, 2),
        vec![vec![0, 1, 2], vec![3, 4, 5]]
    );
    assert_eq!(
        PartitionIsolatorExec::partition_groups(6, 3),
        vec![vec![0, 1], vec![2, 3], vec![4, 5]]
    );
    assert_eq!(
        PartitionIsolatorExec::partition_groups(6, 4),
        vec![vec![0, 1], vec![2, 3], vec![4], vec![5]]
    );
    assert_eq!(
        PartitionIsolatorExec::partition_groups(10, 3),
        vec![vec![0, 1, 2, 3], vec![4, 5, 6], vec![7, 8, 9]]
    );
    assert_eq!(
        PartitionIsolatorExec::partition_groups(10, 4),
        vec![vec![0, 1, 2], vec![3, 4, 5], vec![6, 7], vec![8, 9]]
    );
}

#[test]
fn every_partition_belongs_to_one_task() {
    let mut seen = vec![0; 10];
    for task in 0..4 {
        for p in PartitionIsolatorExec::partition_group(10, task, 4) {
            seen[p] += 1;
        }
    }
    assert_eq!(seen, vec![1; 10]);
}

#[test]
fn an_isolator_shows_its_tasks() {
    let isolator = PartitionIsolatorExec::new(3, 2);
    assert_eq!(isolator.partition_count, 2);
    assert_eq!(
        isolator.fmt_as(DisplayFormatType::Verbose),
        "PartitionIsolatorExec: t0:[p0,p1,__] t1:[__,__,p0] "
    );
    assert_eq!(
        isolator.fmt_as(DisplayFormatType::Default),
        "PartitionIsolatorExec: tasks=2 partitions=3"
    );
    assert_eq!(isolator.actual_partition(0, ctx(1, 2)), Some(2));
    assert_eq!(isolator.actual_partition(1, ctx(1, 2)), None);
}

#[test]
fn splits_that_cannot_be_made_are_errors() {
    assert_eq!(
        split_children(vec![1, 2], 4).unwrap_err(),
        SplitError::BudgetTooLarge { budget: 4, total: 3 }
    );
    assert_eq!(split_children(vec![1, 2], 0).unwrap_err(), SplitError::EmptyBudget);
    assert_eq!(
        ChildrenIsolatorUnionExec::from_children_and_task_counts(
            &children(&[4]),
            vec![1, 2],
            2,
            accept,
        )
        .unwrap_err(),
        UnionError::Split(SplitError::ChildrenMismatch { children: 1, task_counts: 2 })
    );
}

#[test]
fn partitions_are_found_in_the_children_that_a_task_runs() {
    let union = ChildrenIsolatorUnionExec::from_children_and_task_counts(
        &children(&[2, 3, 4]),
        vec![1, 1, 1],
        2,
        accept,
    )
    .unwrap();
    assert_eq!(union.partition_count, 5);
    let located = union.locate_partition(0, 3).unwrap().unwrap();
    assert_eq!((located.child_idx, located.partition), (1, 1));
    assert_eq!(located.task_ctx, ctx(0, 1));
    assert_eq!(union.locate_partition(1, 4).unwrap(), None);
    let error = union.with_new_children(vec![1]).unwrap_err();
    assert_eq!(error, ChildError::CountChanged { have: 1, expected: 3 });
    assert_eq!(
        error.message(),
        "Number of children must match the original plan, have 1 but expected 3"
    );
}

#[test]
fn a_stream_ends_when_enough_rows_have_come() {
    let mut stream = ObservedStream::new(Some(5));
    assert_eq!(stream.limit_reached(StreamPoll::Batch(3)), StreamPoll::Batch(3));
    assert_eq!(stream.limit_reached(StreamPoll::Batch(3)), StreamPoll::Batch(2));
    assert_eq!(stream.limit_reached(StreamPoll::Batch(3)), StreamPoll::Finished);
    // Rows that come after the limit are not counted.
    assert_eq!(stream.limit_reached(StreamPoll::Batch(usize::MAX)), StreamPoll::Finished);
    assert_eq!(stream.produced, 5);
}

#[test]
fn every_partition_below_an_isolator_is_run_once() {
    let isolator = PartitionIsolatorExec::new(7, 3);
    let mut run: Vec<usize> = (0..3)
        .flat_map(|t| (0..7).map(move |p| (t, p)))
        .filter_map(|(t, p)| isolator.actual_partition(p, ctx(t, 3)))
        .collect();
    assert_eq!(run.len(), 7);
    run.sort();
    assert_eq!(run, vec![0, 1, 2, 3, 4, 5, 6]);
}

#[test]
fn refused_splits_say_why() {
    assert_eq!(
        SplitError::BudgetTooLarge { budget: 4, total: 3 }.message(),
        "ChildrenIsolatorUnionExec had a task count 4, which is greater than the sum of child task \
         counts 3. This is a bug in the distributed planning logic, please report it"
    );
    assert_eq!(
        SplitError::EmptyBudget.message(),
        "ChildrenIsolatorUnionExec had a task count 0. This is a bug in the distributed planning \
         logic, please report it"
    );
    assert_eq!(
        SplitError::ChildrenMismatch { children: 2, task_counts: 1 }.message(),
        "ChildrenIsolatorUnionExec received 2 children but a vec of 1 positions for those \
         children. This is a bug in the distributed planning logic, please report it"
    );
    assert_eq!(ChildError::NotFound(7).message(), "Could not find child with index 7");
}
