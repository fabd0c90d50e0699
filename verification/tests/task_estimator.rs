use datafusion_distributed::distributed_planner::file_scan::{
    is_countable, FileScanConfigTaskEstimator, ScannedFile,
};
use datafusion_distributed::distributed_planner::task_estimator::{
    rebalance_round_robin, TaskCountAnnotation,
};

#[test]
fn test_rebalance_round_robin_fixes_group_boundary_skew() {
    let items = (0..8).collect::<Vec<_>>();
    let groups = rebalance_round_robin(items, 5);
    let sizes = groups.iter().map(Vec::len).collect::<Vec<_>>();
    assert_eq!(sizes, vec![2, 2, 2, 1, 1]);
}

#[test]
fn test_rebalance_round_robin_pads_with_empty_groups() {
    // With fewer items than target groups, the extra groups are kept empty rather than
    // dropped. This guarantees every task ends up with the same number of partitions.
    let items = vec![10, 20, 30];
    let groups = rebalance_round_robin(items, 5);
    let sizes = groups.iter().map(Vec::len).collect::<Vec<_>>();
    assert_eq!(sizes, vec![1, 1, 1, 0, 0]);
}

fn whole(file: u64, size: u64) -> ScannedFile {
    ScannedFile::new(file, size, None)
}

fn part(file: u64, size: u64, start: i64, end: i64) -> ScannedFile {
    ScannedFile::new(file, size, Some((start, end)))
}

#[test]
fn large_files_are_cut_for_the_tasks() {
    let groups = vec![vec![whole(7, 100)]];
    assert!(is_countable(&groups));
    let tasks = FileScanConfigTaskEstimator.scale_up_leaf_node(groups, false, false, 2, 2);
    assert_eq!(
        tasks,
        vec![
            vec![vec![part(7, 100, 0, 25)], vec![part(7, 100, 50, 75)]],
            vec![vec![part(7, 100, 25, 50)], vec![part(7, 100, 75, 100)]],
        ]
    );
}

#[test]
fn files_with_a_declared_partitioning_stay_whole() {
    let groups = vec![vec![whole(0, 10), whole(1, 20)], vec![whole(2, 30)]];
    let tasks = FileScanConfigTaskEstimator.scale_up_leaf_node(groups, true, false, 2, 2);
    assert_eq!(
        tasks,
        vec![
            vec![vec![whole(0, 10)], vec![whole(2, 30)]],
            vec![vec![whole(1, 20)], vec![]],
        ]
    );
    // Their sizes do not matter.
    let groups = vec![vec![part(0, 1, 5, 4)], vec![whole(1, u64::MAX), whole(2, u64::MAX)]];
    let tasks = FileScanConfigTaskEstimator.scale_up_leaf_node(groups, true, false, 1, 2);
    assert_eq!(
        tasks,
        vec![
            vec![vec![part(0, 1, 5, 4), whole(2, u64::MAX)]],
            vec![vec![whole(1, u64::MAX)]],
        ]
    );
    let nothing = FileScanConfigTaskEstimator.scale_up_leaf_node(vec![vec![]], true, false, 0, 2);
    assert_eq!(nothing, vec![Vec::<Vec<ScannedFile>>::new(), vec![]]);
}

#[test]
fn empty_files_are_not_cut() {
    let groups = vec![vec![whole(0, 0)], vec![whole(1, 0)]];
    let tasks =
        FileScanConfigTaskEstimator.scale_up_leaf_node(groups.clone(), false, false, 2, 2);
    assert_eq!(tasks, vec![vec![groups[0].clone()], vec![groups[1].clone()]]);
}

#[test]
fn test_defaults_to_file_scan_config_task_estimator() {
    let groups = vec![vec![whole(0, 100), part(1, 1000, 100, 150)], vec![whole(2, 100)]];
    let estimation = FileScanConfigTaskEstimator.task_estimation(&groups, 100, 2);
    assert_eq!(estimation.task_count, TaskCountAnnotation::Desired(2));
    assert!(!is_countable(&vec![vec![part(0, 1, 5, 4)]]));
}
