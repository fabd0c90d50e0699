use crate::distributed_planner::statistics::complexity::{
    add_term, plus, sum, sum_or_unit, total, Complexity, LinearComplexity,
};
use vstd::prelude::*;

verus! {

/// An expression over the columns of a node, as far as its cost goes.
#[derive(Debug)]
pub enum PhysicalExpr {
    Column(usize),
    Literal,
    /// An operation on the results of other expressions.
    Operation(Vec<PhysicalExpr>),
}

/// The shape of a [PhysicalExpr].
#[verifier::ext_equal]
pub enum ExprView {
    Column(usize),
    Literal,
    Operation(Seq<ExprView>),
}

pub open spec fn expr_view(expr: PhysicalExpr) -> ExprView
    decreases expr,
{
    match expr {
        PhysicalExpr::Column(i) => ExprView::Column(i),
        PhysicalExpr::Literal => ExprView::Literal,
        PhysicalExpr::Operation(children) => ExprView::Operation(
            Seq::new(
                children@.len(),
                |i: int|
                    if 0 <= i < children@.len() {
                        expr_view(children@[i])
                    } else {
                        arbitrary()
                    },
            ),
        ),
    }
}

impl View for PhysicalExpr {
    type V = ExprView;

    open spec fn view(&self) -> ExprView {
        expr_view(*self)
    }
}

/// The shapes of some expressions.
pub open spec fn expr_views(exprs: Seq<PhysicalExpr>) -> Seq<ExprView> {
    Seq::new(exprs.len(), |i: int| exprs[i]@)
}

/// The columns that an expression reads, from left to right.
pub open spec fn columns_read(expr: ExprView) -> Seq<usize>
    decreases expr,
{
    match expr {
        ExprView::Column(i) => seq![i],
        ExprView::Literal => Seq::empty(),
        ExprView::Operation(children) => all_columns_read(children),
    }
}

/// The columns that some expressions read, from left to right.
pub open spec fn all_columns_read(exprs: Seq<ExprView>) -> Seq<usize>
    decreases exprs,
{
    if exprs.len() == 0 {
        Seq::empty()
    } else {
        all_columns_read(exprs.drop_last()) + columns_read(exprs.last())
    }
}

/// One pass over each of some columns.
pub open spec fn passes(columns: Seq<usize>) -> Seq<Complexity> {
    columns.map_values(|i: usize| Complexity::Linear(LinearComplexity::Column(i)))
}

/// The work of evaluating an expression: a column or a literal takes none.
pub open spec fn processed(expr: ExprView) -> Option<Complexity>
    decreases expr, 0int,
{
    match expr {
        ExprView::Column(_) => None,
        ExprView::Literal => None,
        ExprView::Operation(children) => total(operation_terms(children)),
    }
}

/// The work of an operation: for each operand the work of evaluating it, and one pass over each
/// column that the operand reads.
pub open spec fn operation_terms(operands: Seq<ExprView>) -> Seq<Complexity>
    decreases operands, 1int,
{
    if operands.len() == 0 {
        Seq::empty()
    } else {
        operation_terms(operands.drop_last()) + operand_terms(operands.last())
    }
}

/// The work that one operand causes.
pub open spec fn operand_terms(operand: ExprView) -> Seq<Complexity>
    decreases operand, 1int,
{
    (match processed(operand) {
        Some(work) => seq![work],
        None => Seq::empty(),
    }) + passes(columns_read(operand))
}

/// What is known of the cost of an expression.
#[derive(Debug)]
pub struct BytesPerRow {
    pub processed: Option<Complexity>,
    pub cols_read: Vec<usize>,
}

proof fn lemma_expr_children(children: Seq<PhysicalExpr>, expr: PhysicalExpr)
    requires
        expr matches PhysicalExpr::Operation(c) && c@ == children,
    ensures
        expr@ == ExprView::Operation(expr_views(children)),
{
    assert(expr_view(expr)->Operation_0 =~= expr_views(children));
}

/// The cost of an expression.
pub fn bytes_per_row(expression: &PhysicalExpr) -> (cost: BytesPerRow)
    ensures
        cost.processed == processed(expression@),
        cost.cols_read@ == columns_read(expression@),
    decreases *expression,
{
    match expression {
        PhysicalExpr::Column(i) => {
            let mut cols_read: Vec<usize> = Vec::new();
            cols_read.push(*i);
            proof {
                assert(cols_read@ =~= seq![*i]);
            }
            BytesPerRow { processed: None, cols_read }
        },
        PhysicalExpr::Literal => BytesPerRow { processed: None, cols_read: Vec::new() },
        PhysicalExpr::Operation(children) => {
            let ghost views = expr_views(children@);
            proof {
                lemma_expr_children(children@, *expression);
                assert(views.take(0) =~= Seq::empty());
            }
            let mut work: Option<Complexity> = None;
            let mut cols_read: Vec<usize> = Vec::new();
            for i in 0..children.len()
                invariant
                    views == expr_views(children@),
                    *expression == PhysicalExpr::Operation(*children),
                    work == total(operation_terms(views.take(i as int))),
                    cols_read@ == all_columns_read(views.take(i as int)),
            {
                proof {
                    assert(decreases_to!(*expression => expression->Operation_0@[i as int]));
                    assert(views.take(i + 1).drop_last() =~= views.take(i as int));
                    assert(views.take(i + 1).last() == children@[i as int]@);
                }
                let ghost mut terms = operation_terms(views.take(i as int));
                let ghost operand = children@[i as int]@;
                let cost = bytes_per_row(&children[i]);
                if let Some(child_work) = cost.processed {
                    work = add_term(work, child_work, Ghost(terms));
                    proof {
                        terms = terms.push(child_work);
                    }
                }
                let ghost before = terms;
                proof {
                    assert(passes(cost.cols_read@.take(0)) =~= Seq::empty());
                    assert(before + passes(cost.cols_read@.take(0)) =~= before);
                }
                let ghost cols_before = cols_read@;
                for j in 0..cost.cols_read.len()
                    invariant
                        work == total(before + passes(cost.cols_read@.take(j as int))),
                        cols_read@ == cols_before + cost.cols_read@.take(j as int),
                {
                    let c: usize = cost.cols_read[j];
                    let ghost so_far = before + passes(cost.cols_read@.take(j as int));
                    work = add_term(
                        work,
                        Complexity::Linear(LinearComplexity::Column(c)),
                        Ghost(so_far),
                    );
                    cols_read.push(c);
                    proof {
                        assert(so_far.push(Complexity::Linear(LinearComplexity::Column(c)))
                            =~= before + passes(cost.cols_read@.take(j + 1)));
                        assert(cols_read@ =~= cols_before + cost.cols_read@.take(j + 1));
                    }
                }
                proof {
                    let columns = cost.cols_read@;
                    assert(columns.take(columns.len() as int) =~= columns);
                    assert(before + passes(columns) =~= operation_terms(views.take(i as int))
                        + operand_terms(operand));
                }
            }
            proof {
                assert(views.take(children@.len() as int) =~= views);
            }
            BytesPerRow { processed: work, cols_read }
        },
    }
}

/// The work of evaluating an expression, at least one unit.
pub open spec fn expression_cost(expr: ExprView) -> Complexity {
    match processed(expr) {
        Some(work) => work,
        None => Complexity::Constant(1),
    }
}

/// The work of evaluating an expression, at least one unit.
pub fn expression_complexity(expression: &PhysicalExpr) -> (cost: Complexity)
    ensures
        cost == expression_cost(expression@),
{
    match bytes_per_row(expression).processed {
        Some(work) => work,
        None => Complexity::Constant(1),
    }
}

/// One pass over each of some columns of one side of a join.
pub open spec fn side_passes(columns: Seq<usize>, from_left: bool) -> Seq<Complexity> {
    columns.map_values(
        |i: usize|
            Complexity::Linear(
                if from_left {
                    LinearComplexity::ColumnFromLeft(i)
                } else {
                    LinearComplexity::ColumnFromRight(i)
                },
            ),
    )
}

/// The work of hashing or comparing the key of one side of a join: one pass over each column that
/// the key reads.
pub open spec fn join_key_cost(expr: ExprView, from_left: bool) -> Complexity {
    sum_or_unit(side_passes(columns_read(expr), from_left))
}

/// The work of hashing or comparing the key of one side of a join.
pub fn join_key_complexity(expression: &PhysicalExpr, from_left: bool) -> (cost: Complexity)
    ensures
        cost == join_key_cost(expression@, from_left),
{
    let columns = bytes_per_row(expression).cols_read;
    let mut result: Option<Complexity> = None;
    proof {
        assert(side_passes(columns@.take(0), from_left) =~= Seq::empty());
    }
    for j in 0..columns.len()
        invariant
            result == total(side_passes(columns@.take(j as int), from_left)),
    {
        let linear = if from_left {
            LinearComplexity::ColumnFromLeft(columns[j])
        } else {
            LinearComplexity::ColumnFromRight(columns[j])
        };
        let ghost so_far = side_passes(columns@.take(j as int), from_left);
        result = add_term(result, Complexity::Linear(linear), Ghost(so_far));
        proof {
            assert(so_far.push(Complexity::Linear(linear)) =~= side_passes(
                columns@.take(j + 1),
                from_left,
            ));
        }
    }
    proof {
        assert(columns@.take(columns@.len() as int) =~= columns@);
    }
    match result {
        Some(cost) => cost,
        None => Complexity::Constant(1),
    }
}

/// The work of hashing or comparing a key: one pass over each column that the key reads.
pub open spec fn key_cost(expr: ExprView) -> Complexity {
    sum_or_unit(passes(columns_read(expr)))
}

/// The work of hashing or comparing a key. The operator does it, so that a plain column costs its
/// bytes too.
pub fn hashed_or_sorted_key_complexity(expression: &PhysicalExpr) -> (cost: Complexity)
    ensures
        cost == key_cost(expression@),
{
    let columns = bytes_per_row(expression).cols_read;
    let mut result: Option<Complexity> = None;
    proof {
        assert(passes(columns@.take(0)) =~= Seq::empty());
    }
    for j in 0..columns.len()
        invariant
            result == total(passes(columns@.take(j as int))),
    {
        let linear = LinearComplexity::Column(columns[j]);
        let ghost so_far = passes(columns@.take(j as int));
        result = add_term(result, Complexity::Linear(linear), Ghost(so_far));
        proof {
            assert(so_far.push(Complexity::Linear(linear)) =~= passes(columns@.take(j + 1)));
        }
    }
    proof {
        assert(columns@.take(columns@.len() as int) =~= columns@);
    }
    match result {
        Some(cost) => cost,
        None => Complexity::Constant(1),
    }
}

/// Where a column of the rows that a join filter sees comes from.
#[derive(Debug, Clone, Copy, PartialEq, Eq, Structural)]
pub enum JoinSide {
    Left,
    Right,
    Neither,
}

/// A column of the rows that a join filter sees.
#[derive(Debug, Clone, Copy, PartialEq, Eq, Structural)]
pub struct ColumnIndex {
    pub index: usize,
    pub side: JoinSide,
}

/// A condition on pairs of rows of a join.
#[derive(Debug)]
pub struct JoinFilter {
    pub expression: PhysicalExpr,
    pub column_indices: Vec<ColumnIndex>,
}

/// The work that grows with a column of the rows that a join filter sees, as work that grows with
/// the column of the side that it comes from. One that comes from no side has no bytes.
pub open spec fn side_column(i: usize, column_indices: Seq<ColumnIndex>) -> Complexity {
    if i >= column_indices.len() {
        Complexity::Constant(1)
    } else {
        let column = column_indices[i as int];
        match column.side {
            JoinSide::Left => Complexity::Linear(LinearComplexity::ColumnFromLeft(column.index)),
            JoinSide::Right => Complexity::Linear(LinearComplexity::ColumnFromRight(column.index)),
            JoinSide::Neither => Complexity::Constant(1),
        }
    }
}

/// Work on the rows that a join filter sees, as work on the two sides of the join.
pub open spec fn remapped(c: Complexity, column_indices: Seq<ColumnIndex>) -> Complexity
    decreases c,
{
    match c {
        Complexity::Constant(v) => Complexity::Constant(v),
        Complexity::Linear(LinearComplexity::Column(i)) => side_column(i, column_indices),
        Complexity::Linear(other) => Complexity::Linear(other),
        Complexity::Log(n, m) => Complexity::Log(
            Box::new(remapped(*n, column_indices)),
            Box::new(remapped(*m, column_indices)),
        ),
        Complexity::Plus(n, m) => Complexity::Plus(
            Box::new(remapped(*n, column_indices)),
            Box::new(remapped(*m, column_indices)),
        ),
        Complexity::Multiply(n, m) => Complexity::Multiply(
            Box::new(remapped(*n, column_indices)),
            Box::new(remapped(*m, column_indices)),
        ),
    }
}

/// Turns work on the rows that a join filter sees into work on the two sides of the join.
pub fn remap_filter_columns(c: Complexity, column_indices: &Vec<ColumnIndex>) -> (result:
    Complexity)
    ensures
        result == remapped(c, column_indices@),
    decreases c,
{
    match c {
        Complexity::Constant(v) => Complexity::Constant(v),
        Complexity::Linear(LinearComplexity::Column(i)) => {
            if i >= column_indices.len() {
                Complexity::Constant(1)
            } else {
                let column = column_indices[i];
                match column.side {
                    JoinSide::Left => Complexity::Linear(
                        LinearComplexity::ColumnFromLeft(column.index),
                    ),
                    JoinSide::Right => Complexity::Linear(
                        LinearComplexity::ColumnFromRight(column.index),
                    ),
                    JoinSide::Neither => Complexity::Constant(1),
                }
            }
        },
        Complexity::Linear(other) => Complexity::Linear(other),
        Complexity::Log(n, m) => {
            let n = remap_filter_columns(*n, column_indices);
            n.log(remap_filter_columns(*m, column_indices))
        },
        Complexity::Plus(n, m) => {
            let n = remap_filter_columns(*n, column_indices);
            n.plus(remap_filter_columns(*m, column_indices))
        },
        Complexity::Multiply(n, m) => {
            let n = remap_filter_columns(*n, column_indices);
            n.multiply(remap_filter_columns(*m, column_indices))
        },
    }
}

/// The work of a join filter on each row.
pub open spec fn join_filter_cost(filter: JoinFilter) -> Complexity {
    remapped(expression_cost(filter.expression@), filter.column_indices@)
}

/// The work of a join filter on each row.
pub fn join_filter_complexity(filter: &JoinFilter) -> (cost: Complexity)
    ensures
        cost == join_filter_cost(*filter),
{
    remap_filter_columns(expression_complexity(&filter.expression), &filter.column_indices)
}

/// How a node spreads its rows.
#[derive(Debug)]
pub enum RepartitionKeys {
    Hash(Vec<PhysicalExpr>),
    Range(Vec<PhysicalExpr>),
    RoundRobinBatch,
    UnknownPartitioning,
}

/// A node of a plan, as far as its cost goes.
#[derive(Debug)]
pub enum CostedNode {
    NestedLoopJoin { filter: Option<JoinFilter> },
    CrossJoin,
    /// Sorts by the keys; with `fetch` it keeps only the first rows.
    Sort { keys: Vec<PhysicalExpr>, fetch: bool },
    HashJoin { on: Vec<(PhysicalExpr, PhysicalExpr)>, filter: Option<JoinFilter> },
    SortMergeJoin { on: Vec<(PhysicalExpr, PhysicalExpr)>, filter: Option<JoinFilter> },
    SymmetricHashJoin { on: Vec<(PhysicalExpr, PhysicalExpr)>, filter: Option<JoinFilter> },
    /// Groups by the keys; each aggregate may look at some of the rows only.
    Aggregate { group_by: Vec<PhysicalExpr>, filters: Vec<Option<PhysicalExpr>> },
    WindowAgg { partition_keys: Vec<PhysicalExpr> },
    BoundedWindowAgg { partition_keys: Vec<PhysicalExpr> },
    SortPreservingMerge { keys: Vec<PhysicalExpr> },
    Filter { predicate: PhysicalExpr },
    Projection { exprs: Vec<PhysicalExpr> },
    Repartition { partitioning: RepartitionKeys },
    DataSource,
    GlobalLimit,
    LocalLimit,
    CoalescePartitions,
    Broadcast,
    Union,
    ChildrenIsolatorUnion,
    Interleave,
    Empty,
    Other,
}

/// The work of hashing or comparing some keys.
pub open spec fn keys_cost(keys: Seq<ExprView>) -> Seq<Complexity> {
    keys.map_values(|e: ExprView| key_cost(e))
}

/// The work of hashing or comparing the keys of one side of a join.
pub open spec fn side_cost(on: Seq<(PhysicalExpr, PhysicalExpr)>, from_left: bool) -> Seq<
    Complexity,
> {
    Seq::new(
        on.len(),
        |i: int| join_key_cost(if from_left { on[i].0@ } else { on[i].1@ }, from_left),
    )
}

/// The work of a filter that may be there.
pub open spec fn filter_cost(filter: Option<JoinFilter>) -> Seq<Complexity> {
    match filter {
        Some(filter) => seq![join_filter_cost(filter)],
        None => Seq::empty(),
    }
}

/// The work of evaluating the expressions that are there.
pub open spec fn present_cost(exprs: Seq<Option<PhysicalExpr>>) -> Seq<Complexity>
    decreases exprs.len(),
{
    if exprs.len() == 0 {
        Seq::empty()
    } else {
        let before = present_cost(exprs.drop_last());
        match exprs.last() {
            Some(expr) => before.push(expression_cost(expr@)),
            None => before,
        }
    }
}

/// Work that grows with some columns.
pub open spec fn linear(columns: LinearComplexity) -> Complexity {
    Complexity::Linear(columns)
}

/// The work of a node, without that of the nodes below it.
pub open spec fn cpu_cost(node: CostedNode) -> Complexity {
    match node {
        CostedNode::NestedLoopJoin { filter } => sum_or_unit(
            seq![
                Complexity::Multiply(
                    Box::new(linear(LinearComplexity::AllColumnsFromLeft)),
                    Box::new(linear(LinearComplexity::AllColumnsFromRight)),
                ),
            ] + filter_cost(filter),
        ),
        CostedNode::CrossJoin => Complexity::Multiply(
            Box::new(linear(LinearComplexity::AllColumnsFromLeft)),
            Box::new(linear(LinearComplexity::AllColumnsFromRight)),
        ),
        CostedNode::Sort { keys, fetch } => {
            let input = sum_or_unit(
                seq![linear(LinearComplexity::AllColumns)] + keys_cost(expr_views(keys@)),
            );
            Complexity::Log(
                Box::new(input),
                Box::new(
                    if fetch {
                        linear(LinearComplexity::AllOutputColumns)
                    } else {
                        input
                    },
                ),
            )
        },
        CostedNode::HashJoin { on, filter } => sum_or_unit(
            seq![
                linear(LinearComplexity::AllColumnsFromLeft),
                linear(LinearComplexity::AllColumnsFromLeft),
            ] + side_cost(on@, true) + seq![linear(LinearComplexity::AllColumnsFromRight)]
                + side_cost(on@, false) + filter_cost(filter),
        ),
        CostedNode::SortMergeJoin { on, filter } => sum_or_unit(
            side_cost(on@, true) + side_cost(on@, false) + filter_cost(filter),
        ),
        CostedNode::SymmetricHashJoin { on, filter } => sum_or_unit(
            seq![
                linear(LinearComplexity::AllColumnsFromLeft),
                linear(LinearComplexity::AllColumnsFromLeft),
            ] + side_cost(on@, true) + seq![
                linear(LinearComplexity::AllColumnsFromRight),
                linear(LinearComplexity::AllColumnsFromRight),
            ] + side_cost(on@, false) + filter_cost(filter),
        ),
        CostedNode::Aggregate { group_by, filters } => sum_or_unit(
            seq![linear(LinearComplexity::AllColumns)] + keys_cost(expr_views(group_by@))
                + present_cost(filters@),
        ),
        CostedNode::WindowAgg { partition_keys } => sum_or_unit(
            seq![linear(LinearComplexity::AllColumns)] + keys_cost(expr_views(partition_keys@)),
        ),
        CostedNode::BoundedWindowAgg { partition_keys } => sum_or_unit(
            seq![linear(LinearComplexity::AllColumns)] + keys_cost(expr_views(partition_keys@)),
        ),
        CostedNode::SortPreservingMerge { keys } => sum_or_unit(
            seq![linear(LinearComplexity::AllColumns)] + keys_cost(expr_views(keys@)),
        ),
        CostedNode::Filter { predicate } => plus(
            linear(LinearComplexity::AllOutputColumns),
            expression_cost(predicate@),
        ),
        CostedNode::Projection { exprs } => sum_or_unit(
            expr_views(exprs@).map_values(|e: ExprView| expression_cost(e)),
        ),
        CostedNode::Repartition { partitioning } => match partitioning {
            RepartitionKeys::Hash(keys) => sum_or_unit(
                seq![linear(LinearComplexity::AllColumns)] + keys_cost(expr_views(keys@)),
            ),
            RepartitionKeys::Range(keys) => sum_or_unit(
                seq![linear(LinearComplexity::AllColumns)] + keys_cost(expr_views(keys@)),
            ),
            RepartitionKeys::RoundRobinBatch => linear(LinearComplexity::AllColumns),
            RepartitionKeys::UnknownPartitioning => linear(LinearComplexity::AllColumns),
        },
        CostedNode::DataSource => linear(LinearComplexity::AllOutputColumns),
        CostedNode::GlobalLimit => Complexity::Constant(1),
        CostedNode::LocalLimit => Complexity::Constant(1),
        CostedNode::CoalescePartitions => Complexity::Constant(1),
        CostedNode::Broadcast => Complexity::Constant(1),
        CostedNode::Union => Complexity::Constant(1),
        CostedNode::ChildrenIsolatorUnion => Complexity::Constant(1),
        CostedNode::Interleave => Complexity::Constant(1),
        CostedNode::Empty => Complexity::Constant(1),
        CostedNode::Other => linear(LinearComplexity::AllOutputColumns),
    }
}

fn add_linear(
    so_far: Option<Complexity>,
    columns: LinearComplexity,
    Ghost(terms): Ghost<Seq<Complexity>>,
) -> (result: Option<Complexity>)
    requires
        so_far == total(terms),
    ensures
        result == total(terms + seq![linear(columns)]),
{
    proof {
        assert(terms + seq![linear(columns)] =~= terms.push(linear(columns)));
    }
    add_term(so_far, Complexity::Linear(columns), Ghost(terms))
}

fn add_keys(
    so_far: Option<Complexity>,
    keys: &Vec<PhysicalExpr>,
    Ghost(terms): Ghost<Seq<Complexity>>,
) -> (result: Option<Complexity>)
    requires
        so_far == total(terms),
    ensures
        result == total(terms + keys_cost(expr_views(keys@))),
{
    let ghost views = expr_views(keys@);
    let mut result = so_far;
    proof {
        assert(terms + keys_cost(views.take(0)) =~= terms);
    }
    for i in 0..keys.len()
        invariant
            views == expr_views(keys@),
            result == total(terms + keys_cost(views.take(i as int))),
    {
        let key = hashed_or_sorted_key_complexity(&keys[i]);
        let ghost before = terms + keys_cost(views.take(i as int));
        proof {
            assert(before.push(key) =~= terms + keys_cost(views.take(i + 1)));
        }
        result = add_term(result, key, Ghost(before));
    }
    proof {
        assert(views.take(keys@.len() as int) =~= views);
    }
    result
}

fn add_side(
    so_far: Option<Complexity>,
    on: &Vec<(PhysicalExpr, PhysicalExpr)>,
    from_left: bool,
    Ghost(terms): Ghost<Seq<Complexity>>,
) -> (result: Option<Complexity>)
    requires
        so_far == total(terms),
    ensures
        result == total(terms + side_cost(on@, from_left)),
{
    let mut result = so_far;
    proof {
        assert(terms + side_cost(on@, from_left).take(0) =~= terms);
    }
    for i in 0..on.len()
        invariant
            result == total(terms + side_cost(on@, from_left).take(i as int)),
    {
        let key = if from_left {
            join_key_complexity(&on[i].0, true)
        } else {
            join_key_complexity(&on[i].1, false)
        };
        let ghost before = terms + side_cost(on@, from_left).take(i as int);
        proof {
            assert(before.push(key) =~= terms + side_cost(on@, from_left).take(i + 1));
        }
        result = add_term(result, key, Ghost(before));
    }
    proof {
        assert(side_cost(on@, from_left).take(on@.len() as int) =~= side_cost(on@, from_left));
    }
    result
}

fn add_filter(
    so_far: Option<Complexity>,
    filter: &Option<JoinFilter>,
    Ghost(terms): Ghost<Seq<Complexity>>,
) -> (result: Option<Complexity>)
    requires
        so_far == total(terms),
    ensures
        result == total(terms + filter_cost(*filter)),
{
    match filter {
        Some(filter) => {
            let cost = join_filter_complexity(filter);
            proof {
                assert(terms.push(cost) =~= terms + seq![cost]);
            }
            add_term(so_far, cost, Ghost(terms))
        },
        None => {
            proof {
                assert(terms + Seq::<Complexity>::empty() =~= terms);
            }
            so_far
        },
    }
}

fn add_present(
    so_far: Option<Complexity>,
    exprs: &Vec<Option<PhysicalExpr>>,
    Ghost(terms): Ghost<Seq<Complexity>>,
) -> (result: Option<Complexity>)
    requires
        so_far == total(terms),
    ensures
        result == total(terms + present_cost(exprs@)),
{
    let mut result = so_far;
    proof {
        assert(exprs@.take(0) =~= Seq::empty());
        assert(terms + present_cost(exprs@.take(0)) =~= terms);
    }
    for i in 0..exprs.len()
        invariant
            result == total(terms + present_cost(exprs@.take(i as int))),
    {
        proof {
            assert(exprs@.take(i + 1).drop_last() =~= exprs@.take(i as int));
        }
        if let Some(expr) = &exprs[i] {
            let cost = expression_complexity(expr);
            let ghost before = terms + present_cost(exprs@.take(i as int));
            proof {
                assert(before.push(cost) =~= terms + present_cost(exprs@.take(i + 1)));
            }
            result = add_term(result, cost, Ghost(before));
        }
    }
    proof {
        assert(exprs@.take(exprs@.len() as int) =~= exprs@);
    }
    result
}

fn at_least_unit(cost: Option<Complexity>, Ghost(terms): Ghost<Seq<Complexity>>) -> (result:
    Complexity)
    requires
        cost == total(terms),
    ensures
        result == sum_or_unit(terms),
{
    match cost {
        Some(cost) => cost,
        None => Complexity::Constant(1),
    }
}

fn all_columns_and_keys(keys: &Vec<PhysicalExpr>) -> (cost: Complexity)
    ensures
        cost == sum_or_unit(
            seq![linear(LinearComplexity::AllColumns)] + keys_cost(expr_views(keys@)),
        ),
{
    let ghost first = seq![linear(LinearComplexity::AllColumns)];
    let input = Some(Complexity::Linear(LinearComplexity::AllColumns));
    let input = add_keys(input, keys, Ghost(first));
    at_least_unit(input, Ghost(first + keys_cost(expr_views(keys@))))
}

/// The work of a node, without that of the nodes below it.
pub fn complexity_cpu(node: &CostedNode) -> (cost: Complexity)
    ensures
        cost == cpu_cost(*node),
{
    match node {
        CostedNode::NestedLoopJoin { filter } => {
            let n = Complexity::Linear(LinearComplexity::AllColumnsFromLeft);
            let pairs = n.multiply(Complexity::Linear(LinearComplexity::AllColumnsFromRight));
            let ghost terms = seq![pairs];
            let c = add_filter(Some(pairs), filter, Ghost(terms));
            at_least_unit(c, Ghost(terms + filter_cost(*filter)))
        },
        CostedNode::CrossJoin => {
            let n = Complexity::Linear(LinearComplexity::AllColumnsFromLeft);
            n.multiply(Complexity::Linear(LinearComplexity::AllColumnsFromRight))
        },
        CostedNode::Sort { keys, fetch } => {
            let input = all_columns_and_keys(keys);
            if *fetch {
                input.log(Complexity::Linear(LinearComplexity::AllOutputColumns))
            } else {
                input.clone().log(input)
            }
        },
        CostedNode::HashJoin { on, filter } => {
            let ghost left = linear(LinearComplexity::AllColumnsFromLeft);
            let ghost right = linear(LinearComplexity::AllColumnsFromRight);
            let ghost one = seq![left];
            let ghost t0 = seq![left, left];
            let ghost t1 = t0 + side_cost(on@, true);
            let ghost t2 = t1 + seq![right];
            let ghost t3 = t2 + side_cost(on@, false);
            let c = Some(Complexity::Linear(LinearComplexity::AllColumnsFromLeft));
            let c = add_linear(c, LinearComplexity::AllColumnsFromLeft, Ghost(one));
            proof {
                assert(one + seq![left] =~= t0);
            }
            let c = add_side(c, on, true, Ghost(t0));
            let c = add_linear(c, LinearComplexity::AllColumnsFromRight, Ghost(t1));
            let c = add_side(c, on, false, Ghost(t2));
            let c = add_filter(c, filter, Ghost(t3));
            at_least_unit(c, Ghost(t3 + filter_cost(*filter)))
        },
        CostedNode::SortMergeJoin { on, filter } => {
            let ghost t1 = side_cost(on@, true);
            let ghost t2 = t1 + side_cost(on@, false);
            proof {
                assert(Seq::<Complexity>::empty() + t1 =~= t1);
            }
            let c = add_side(None, on, true, Ghost(Seq::empty()));
            let c = add_side(c, on, false, Ghost(t1));
            let c = add_filter(c, filter, Ghost(t2));
            at_least_unit(c, Ghost(t2 + filter_cost(*filter)))
        },
        CostedNode::SymmetricHashJoin { on, filter } => {
            let ghost left = linear(LinearComplexity::AllColumnsFromLeft);
            let ghost right = linear(LinearComplexity::AllColumnsFromRight);
            let ghost one = seq![left];
            let ghost t0 = seq![left, left];
            let ghost t1 = t0 + side_cost(on@, true);
            let ghost t2 = t1 + seq![right];
            let ghost t3 = t1 + seq![right, right];
            let ghost t4 = t3 + side_cost(on@, false);
            let c = Some(Complexity::Linear(LinearComplexity::AllColumnsFromLeft));
            let c = add_linear(c, LinearComplexity::AllColumnsFromLeft, Ghost(one));
            proof {
                assert(one + seq![left] =~= t0);
                assert(t2 + seq![right] =~= t3);
            }
            let c = add_side(c, on, true, Ghost(t0));
            let c = add_linear(c, LinearComplexity::AllColumnsFromRight, Ghost(t1));
            let c = add_linear(c, LinearComplexity::AllColumnsFromRight, Ghost(t2));
            let c = add_side(c, on, false, Ghost(t3));
            let c = add_filter(c, filter, Ghost(t4));
            at_least_unit(c, Ghost(t4 + filter_cost(*filter)))
        },
        CostedNode::Aggregate { group_by, filters } => {
            let ghost t0 = seq![linear(LinearComplexity::AllColumns)];
            let ghost t1 = t0 + keys_cost(expr_views(group_by@));
            let c = Some(Complexity::Linear(LinearComplexity::AllColumns));
            let c = add_keys(c, group_by, Ghost(t0));
            let c = add_present(c, filters, Ghost(t1));
            at_least_unit(c, Ghost(t1 + present_cost(filters@)))
        },
        CostedNode::WindowAgg { partition_keys } => all_columns_and_keys(partition_keys),
        CostedNode::BoundedWindowAgg { partition_keys } => all_columns_and_keys(partition_keys),
        CostedNode::SortPreservingMerge { keys } => all_columns_and_keys(keys),
        CostedNode::Filter { predicate } => {
            let n = Complexity::Linear(LinearComplexity::AllOutputColumns);
            n.plus(expression_complexity(predicate))
        },
        CostedNode::Projection { exprs } => {
            let ghost costs = expr_views(exprs@).map_values(|e: ExprView| expression_cost(e));
            let mut c: Option<Complexity> = None;
            for i in 0..exprs.len()
                invariant
                    costs == expr_views(exprs@).map_values(|e: ExprView| expression_cost(e)),
                    c == total(costs.take(i as int)),
            {
                let cost = expression_complexity(&exprs[i]);
                proof {
                    assert(costs.take(i as int).push(cost) =~= costs.take(i + 1));
                }
                c = add_term(c, cost, Ghost(costs.take(i as int)));
            }
            proof {
                assert(costs.take(exprs@.len() as int) =~= costs);
            }
            at_least_unit(c, Ghost(costs))
        },
        CostedNode::Repartition { partitioning } => match partitioning {
            RepartitionKeys::Hash(keys) => all_columns_and_keys(keys),
            RepartitionKeys::Range(keys) => all_columns_and_keys(keys),
            RepartitionKeys::RoundRobinBatch => Complexity::Linear(LinearComplexity::AllColumns),
            RepartitionKeys::UnknownPartitioning => Complexity::Linear(
                LinearComplexity::AllColumns,
            ),
        },
        CostedNode::DataSource => Complexity::Linear(LinearComplexity::AllOutputColumns),
        CostedNode::GlobalLimit => Complexity::Constant(1),
        CostedNode::LocalLimit => Complexity::Constant(1),
        CostedNode::CoalescePartitions => Complexity::Constant(1),
        CostedNode::Broadcast => Complexity::Constant(1),
        CostedNode::Union => Complexity::Constant(1),
        CostedNode::ChildrenIsolatorUnion => Complexity::Constant(1),
        CostedNode::Interleave => Complexity::Constant(1),
        CostedNode::Empty => Complexity::Constant(1),
        CostedNode::Other => Complexity::Linear(LinearComplexity::AllOutputColumns),
    }
}

/// How often work passes over a column.
pub open spec fn weight(c: Complexity, column: usize) -> nat
    decreases c,
{
    match c {
        Complexity::Constant(_) => 0,
        Complexity::Linear(l) => if l == LinearComplexity::Column(column) {
            1
        } else {
            0
        },
        Complexity::Log(n, m) => weight(*n, column) + weight(*m, column),
        Complexity::Plus(n, m) => weight(*n, column) + weight(*m, column),
        Complexity::Multiply(n, m) => weight(*n, column) + weight(*m, column),
    }
}

/// For each place where an expression reads a column, the number of operations above that place,
/// added up. `above` operations are above the expression itself.
pub open spec fn depth_weight(expr: ExprView, column: usize, above: nat) -> nat
    decreases expr,
{
    match expr {
        ExprView::Column(i) => if i == column {
            above
        } else {
            0
        },
        ExprView::Literal => 0,
        ExprView::Operation(operands) => all_depth_weight(operands, column, above + 1),
    }
}

/// The numbers of operations above the places where some expressions read a column, added up.
pub open spec fn all_depth_weight(exprs: Seq<ExprView>, column: usize, above: nat) -> nat
    decreases exprs,
{
    if exprs.len() == 0 {
        0
    } else {
        all_depth_weight(exprs.drop_last(), column, above) + depth_weight(
            exprs.last(),
            column,
            above,
        )
    }
}

/// How often a column is in a list.
pub open spec fn occurrences(columns: Seq<usize>, column: usize) -> nat
    decreases columns.len(),
{
    if columns.len() == 0 {
        0
    } else {
        occurrences(columns.drop_last(), column) + if columns.last() == column {
            1nat
        } else {
            0
        }
    }
}

proof fn lemma_occurrences_concat(a: Seq<usize>, b: Seq<usize>, column: usize)
    ensures
        occurrences(a + b, column) == occurrences(a, column) + occurrences(b, column),
    decreases b.len(),
{
    if b.len() == 0 {
        assert(a + b =~= a);
    } else {
        assert((a + b).drop_last() =~= a + b.drop_last());
        lemma_occurrences_concat(a, b.drop_last(), column);
    }
}

/// How often some amounts of work pass over a column.
pub open spec fn total_weight(terms: Seq<Complexity>, column: usize) -> nat
    decreases terms.len(),
{
    if terms.len() == 0 {
        0
    } else {
        total_weight(terms.drop_last(), column) + weight(terms.last(), column)
    }
}

proof fn lemma_sum_weight(terms: Seq<Complexity>, column: usize)
    requires
        terms.len() > 0,
    ensures
        weight(sum(terms), column) == total_weight(terms, column),
    decreases terms.len(),
{
    if terms.len() == 1 {
        assert(terms.drop_last() =~= Seq::empty());
        assert(total_weight(terms.drop_last(), column) == 0);
    } else {
        lemma_sum_weight(terms.drop_last(), column);
    }
}

proof fn lemma_weight_concat(a: Seq<Complexity>, b: Seq<Complexity>, column: usize)
    ensures
        total_weight(a + b, column) == total_weight(a, column) + total_weight(b, column),
    decreases b.len(),
{
    if b.len() == 0 {
        assert(a + b =~= a);
    } else {
        assert((a + b).drop_last() =~= a + b.drop_last());
        lemma_weight_concat(a, b.drop_last(), column);
    }
}

proof fn lemma_passes_weight(columns: Seq<usize>, column: usize)
    ensures
        total_weight(passes(columns), column) == occurrences(columns, column),
    decreases columns.len(),
{
    if columns.len() > 0 {
        assert(passes(columns).drop_last() =~= passes(columns.drop_last()));
        lemma_passes_weight(columns.drop_last(), column);
    }
}

proof fn lemma_one_deeper(expr: ExprView, column: usize, above: nat)
    ensures
        depth_weight(expr, column, above + 1) == depth_weight(expr, column, above) + occurrences(
            columns_read(expr),
            column,
        ),
    decreases expr,
{
    match expr {
        ExprView::Column(i) => {
            assert(seq![i].drop_last() =~= Seq::empty());
            assert(occurrences(seq![i].drop_last(), column) == 0);
        },
        ExprView::Literal => {},
        ExprView::Operation(operands) => {
            lemma_all_one_deeper(operands, column, above + 1);
        },
    }
}

proof fn lemma_all_one_deeper(exprs: Seq<ExprView>, column: usize, above: nat)
    ensures
        all_depth_weight(exprs, column, above + 1) == all_depth_weight(exprs, column, above)
            + occurrences(all_columns_read(exprs), column),
    decreases exprs,
{
    if exprs.len() > 0 {
        lemma_all_one_deeper(exprs.drop_last(), column, above);
        lemma_one_deeper(exprs.last(), column, above);
        lemma_occurrences_concat(
            all_columns_read(exprs.drop_last()),
            columns_read(exprs.last()),
            column,
        );
    }
}

/// Evaluating an expression passes over a column once for each operation above each place where the
/// expression reads it: the bytes of a column are weighted by its depth.
pub proof fn columns_are_weighted_by_depth(expr: ExprView, column: usize)
    ensures
        match processed(expr) {
            Some(work) => weight(work, column) == depth_weight(expr, column, 0),
            None => depth_weight(expr, column, 0) == 0,
        },
    decreases expr, 0int,
{
    match expr {
        ExprView::Operation(operands) => {
            lemma_operation_weight(operands, column);
            let terms = operation_terms(operands);
            if terms.len() > 0 {
                lemma_sum_weight(terms, column);
            }
        },
        _ => {},
    }
}

proof fn lemma_operation_weight(operands: Seq<ExprView>, column: usize)
    ensures
        total_weight(operation_terms(operands), column) == all_depth_weight(operands, column, 1),
    decreases operands, 1int,
{
    if operands.len() > 0 {
        let operand = operands.last();
        lemma_operation_weight(operands.drop_last(), column);
        columns_are_weighted_by_depth(operand, column);
        lemma_weight_concat(
            operation_terms(operands.drop_last()),
            operand_terms(operand),
            column,
        );
        let own = match processed(operand) {
            Some(work) => seq![work],
            None => Seq::empty(),
        };
        lemma_weight_concat(own, passes(columns_read(operand)), column);
        lemma_passes_weight(columns_read(operand), column);
        lemma_one_deeper(operand, column, 0);
        if own.len() > 0 {
            assert(own.drop_last() =~= Seq::empty());
            assert(total_weight(own.drop_last(), column) == 0);
        }
    }
}

/// The work of a join filter grows with columns of the two sides only.
pub proof fn filters_read_from_the_sides(
    c: Complexity,
    column_indices: Seq<ColumnIndex>,
    column: usize,
)
    ensures
        weight(remapped(c, column_indices), column) == 0,
    decreases c,
{
    match c {
        Complexity::Constant(_) => {},
        Complexity::Linear(_) => {},
        Complexity::Log(n, m) => {
            filters_read_from_the_sides(*n, column_indices, column);
            filters_read_from_the_sides(*m, column_indices, column);
        },
        Complexity::Plus(n, m) => {
            filters_read_from_the_sides(*n, column_indices, column);
            filters_read_from_the_sides(*m, column_indices, column);
        },
        Complexity::Multiply(n, m) => {
            filters_read_from_the_sides(*n, column_indices, column);
            filters_read_from_the_sides(*m, column_indices, column);
        },
    }
}

} // verus!
