use datafusion_distributed::distributed_planner::statistics::complexity::{
    Complexity, LinearComplexity,
};
use datafusion_distributed::distributed_planner::statistics::complexity_cpu::{
    bytes_per_row, complexity_cpu, expression_complexity, ColumnIndex, CostedNode, JoinFilter,
    JoinSide, PhysicalExpr, RepartitionKeys,
};

fn terms<'a>(cost: &'a Complexity, found: &mut Vec<&'a Complexity>) {
    match cost {
        Complexity::Plus(a, b) => {
            terms(a, found);
            found.push(b);
        }
        other => found.push(other),
    }
}

fn show(cost: &Complexity) -> String {
    match cost {
        Complexity::Constant(n) => n.to_string(),
        Complexity::Linear(l) => match l {
            LinearComplexity::AllColumns => "Cols".to_string(),
            LinearComplexity::AllColumnsFromLeft => "left_Cols".to_string(),
            LinearComplexity::AllColumnsFromRight => "right_Cols".to_string(),
            LinearComplexity::AllOutputColumns => "out_Cols".to_string(),
            LinearComplexity::Column(i) => format!("Col{i}"),
            LinearComplexity::ColumnFromLeft(i) => format!("left_Col{i}"),
            LinearComplexity::ColumnFromRight(i) => format!("right_Col{i}"),
        },
        Complexity::Log(n, m) => format!("{}*Log({})", show(n), show(m)),
        Complexity::Multiply(n, m) => format!("({}*{})", show(n), show(m)),
        Complexity::Plus(_, _) => {
            let mut found = vec![];
            terms(cost, &mut found);
            if found.iter().all(|t| matches!(t, Complexity::Constant(_))) {
                let sum: u64 = found
                    .iter()
                    .map(|t| match t {
                        Complexity::Constant(n) => *n,
                        _ => 0,
                    })
                    .sum();
                return sum.to_string();
            }
            let mut parts: Vec<(usize, String)> = vec![];
            for term in found {
                let text = show(term);
                match parts.last_mut() {
                    Some((n, last)) if *last == text => *n += 1,
                    _ => parts.push((1, text)),
                }
            }
            let shown: Vec<String> = parts
                .into_iter()
                .map(|(n, text)| if n > 1 { format!("({n}*{text})") } else { text })
                .collect();
            format!("({})", shown.join("+"))
        }
    }
}

fn cost(node: CostedNode) -> String {
    format!("O({})", show(&complexity_cpu(&node)))
}

fn col(i: usize) -> PhysicalExpr {
    PhysicalExpr::Column(i)
}

fn op(children: Vec<PhysicalExpr>) -> PhysicalExpr {
    PhysicalExpr::Operation(children)
}

fn greater() -> JoinFilter {
    JoinFilter {
        expression: op(vec![col(0), col(1)]),
        column_indices: vec![
            ColumnIndex { index: 0, side: JoinSide::Left },
            ColumnIndex { index: 0, side: JoinSide::Right },
        ],
    }
}

#[test]
fn data_source_exec() {
    assert_eq!(cost(CostedNode::DataSource), "O(out_Cols)");
}

#[test]
fn filter_exec() {
    let predicate = op(vec![col(0), PhysicalExpr::Literal]);
    assert_eq!(cost(CostedNode::Filter { predicate }), "O((out_Cols+Col0))");
}

#[test]
fn projection_exec() {
    // The source works out the sum itself.
    assert_eq!(cost(CostedNode::DataSource), "O(out_Cols)");
    let sum = op(vec![col(0), col(1)]);
    assert_eq!(cost(CostedNode::Projection { exprs: vec![sum] }), "O((Col0+Col1))");
    assert_eq!(cost(CostedNode::Projection { exprs: vec![] }), "O(1)");
}

#[test]
fn partitioned_hash_join_exec() {
    assert_eq!(
        cost(CostedNode::HashJoin { on: vec![(col(1), col(1))], filter: None }),
        "O(((2*left_Cols)+left_Col1+right_Cols+right_Col1))"
    );
    assert_eq!(
        cost(CostedNode::Repartition { partitioning: RepartitionKeys::Hash(vec![col(1)]) }),
        "O((Cols+Col1))"
    );
    assert_eq!(cost(CostedNode::DataSource), "O(out_Cols)");
}

#[test]
fn aggregate_exec() {
    assert_eq!(cost(CostedNode::Projection { exprs: vec![col(0), col(1)] }), "O(2)");
    assert_eq!(
        cost(CostedNode::Aggregate { group_by: vec![col(0)], filters: vec![None] }),
        "O((Cols+Col0))"
    );
}

#[test]
fn sort_exec() {
    assert_eq!(
        cost(CostedNode::Sort { keys: vec![col(5)], fetch: false }),
        "O((Cols+Col5)*Log((Cols+Col5)))"
    );
}

#[test]
fn topk_sort_exec() {
    assert_eq!(
        cost(CostedNode::Sort { keys: vec![col(5)], fetch: true }),
        "O((Cols+Col5)*Log(out_Cols))"
    );
}

#[test]
fn sort_preserving_merge_exec() {
    assert_eq!(cost(CostedNode::SortPreservingMerge { keys: vec![col(5)] }), "O((Cols+Col5))");
}

#[test]
fn repartition_hash_exec() {
    assert_eq!(
        cost(CostedNode::Repartition { partitioning: RepartitionKeys::Hash(vec![col(0)]) }),
        "O((Cols+Col0))"
    );
}

#[test]
fn hash_join_exec() {
    assert_eq!(
        cost(CostedNode::HashJoin { on: vec![(col(1), col(1))], filter: None }),
        "O(((2*left_Cols)+left_Col1+right_Cols+right_Col1))"
    );
}

#[test]
fn hash_join_with_filter_exec() {
    assert_eq!(
        cost(CostedNode::HashJoin { on: vec![(col(1), col(1))], filter: Some(greater()) }),
        "O(((2*left_Cols)+left_Col1+right_Cols+right_Col1+(left_Col0+right_Col0)))"
    );
}

#[test]
fn cross_join_exec() {
    assert_eq!(cost(CostedNode::CrossJoin), "O((left_Cols*right_Cols))");
}

#[test]
fn nested_loop_join_exec() {
    assert_eq!(
        cost(CostedNode::NestedLoopJoin { filter: Some(greater()) }),
        "O(((left_Cols*right_Cols)+(left_Col0+right_Col0)))"
    );
}

#[test]
fn sort_merge_join_exec() {
    assert_eq!(
        cost(CostedNode::SortMergeJoin { on: vec![(col(1), col(1))], filter: None }),
        "O((left_Col1+right_Col1))"
    );
}

#[test]
fn bounded_window_agg_exec() {
    assert_eq!(
        cost(CostedNode::BoundedWindowAgg { partition_keys: vec![col(1)] }),
        "O((Cols+Col1))"
    );
    assert_eq!(
        cost(CostedNode::Sort { keys: vec![col(1), col(0)], fetch: false }),
        "O((Cols+Col1+Col0)*Log((Cols+Col1+Col0)))"
    );
}

#[test]
fn window_agg_exec() {
    assert_eq!(cost(CostedNode::WindowAgg { partition_keys: vec![col(1)] }), "O((Cols+Col1))");
}

#[test]
fn union_exec() {
    assert_eq!(cost(CostedNode::Union), "O(1)");
}

#[test]
fn aggregate_no_group_by_and_coalesce_partitions() {
    assert_eq!(
        cost(CostedNode::Aggregate { group_by: vec![], filters: vec![None] }),
        "O(Cols)"
    );
    assert_eq!(cost(CostedNode::CoalescePartitions), "O(1)");
}

#[test]
fn global_limit_exec() {
    assert_eq!(cost(CostedNode::GlobalLimit), "O(1)");
    assert_eq!(cost(CostedNode::LocalLimit), "O(1)");
}

#[test]
fn empty_exec() {
    assert_eq!(cost(CostedNode::Empty), "O(1)");
}

#[test]
fn round_robin_repartition_exec() {
    assert_eq!(
        cost(CostedNode::Repartition { partitioning: RepartitionKeys::RoundRobinBatch }),
        "O(Cols)"
    );
}

#[test]
fn interleave_exec() {
    assert_eq!(cost(CostedNode::Interleave), "O(1)");
}

#[test]
fn default_fallback_unhandled_node() {
    assert_eq!(cost(CostedNode::Projection { exprs: vec![PhysicalExpr::Literal] }), "O(1)");
    assert_eq!(cost(CostedNode::Other), "O(out_Cols)");
}

#[test]
fn nested_operations_read_deep_columns_more_often() {
    let nested = op(vec![op(vec![col(0), col(1)]), col(2)]);
    assert_eq!(show(&expression_complexity(&nested)), "(Col0+Col1+Col0+Col1+Col2)");
    assert_eq!(bytes_per_row(&nested).cols_read, vec![0, 1, 2]);
}
