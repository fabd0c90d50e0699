use crate::distributed_planner::statistics::complexity::{
    sum, sum_or_unit, Complexity, LinearComplexity,
};
use crate::distributed_planner::statistics::complexity_cpu::{
    all_columns_read, columns_read, cpu_cost, expr_views, expression_cost, filter_cost,
    join_filter_cost, join_key_cost, key_cost, keys_cost, linear, operand_terms, operation_terms,
    passes, present_cost, processed, remapped, side_cost, side_passes, ColumnIndex, CostedNode,
    ExprView, JoinFilter, PhysicalExpr, RepartitionKeys,
};
use vstd::prelude::*;

verus! {

/// The number that an amount of work comes to where the columns have the given bytes. `log` is the
/// logarithm.
pub open spec fn amount(
    work: Complexity,
    bytes: spec_fn(LinearComplexity) -> nat,
    log: spec_fn(nat) -> nat,
) -> nat
    decreases work,
{
    match work {
        Complexity::Constant(n) => n as nat,
        Complexity::Linear(columns) => bytes(columns),
        Complexity::Log(n, m) => amount(*n, bytes, log) * log(amount(*m, bytes, log)),
        Complexity::Plus(n, m) => amount(*n, bytes, log) + amount(*m, bytes, log),
        Complexity::Multiply(n, m) => amount(*n, bytes, log) * amount(*m, bytes, log),
    }
}

/// The first `n` of some numbers added up.
pub open spec fn sum_over(n: nat, f: spec_fn(int) -> nat) -> nat
    decreases n,
{
    if n == 0 {
        0
    } else {
        sum_over((n - 1) as nat, f) + f(n - 1)
    }
}

/// Whether an expression reads a column.
pub open spec fn reads_any(expr: ExprView) -> bool
    decreases expr,
{
    match expr {
        ExprView::Column(_) => true,
        ExprView::Literal => false,
        ExprView::Operation(operands) => exists|i: int|
            0 <= i < operands.len() && reads_any(#[trigger] operands[i]),
    }
}

/// The bytes of the columns that an expression reads, once for each place where it reads them.
pub open spec fn read_bytes(expr: ExprView, bytes: spec_fn(usize) -> nat) -> nat
    decreases expr,
{
    match expr {
        ExprView::Column(i) => bytes(i),
        ExprView::Literal => 0,
        ExprView::Operation(operands) => all_read_bytes(operands, bytes),
    }
}

/// The bytes of the columns that some expressions read.
pub open spec fn all_read_bytes(exprs: Seq<ExprView>, bytes: spec_fn(usize) -> nat) -> nat
    decreases exprs,
{
    if exprs.len() == 0 {
        0
    } else {
        all_read_bytes(exprs.drop_last(), bytes) + read_bytes(exprs.last(), bytes)
    }
}

/// The bytes of the columns that an expression reads, once for each operation above each place where it
/// reads them. `above` operations are above the expression itself.
pub open spec fn handled_bytes(expr: ExprView, bytes: spec_fn(usize) -> nat, above: nat) -> nat
    decreases expr,
{
    match expr {
        ExprView::Column(i) => above * bytes(i),
        ExprView::Literal => 0,
        ExprView::Operation(operands) => all_handled_bytes(operands, bytes, above + 1),
    }
}

/// The bytes that operations above and inside some expressions handle.
pub open spec fn all_handled_bytes(
    exprs: Seq<ExprView>,
    bytes: spec_fn(usize) -> nat,
    above: nat,
) -> nat
    decreases exprs,
{
    if exprs.len() == 0 {
        0
    } else {
        all_handled_bytes(exprs.drop_last(), bytes, above) + handled_bytes(
            exprs.last(),
            bytes,
            above,
        )
    }
}

/// What comparing or hashing a key takes: the bytes of the columns that it reads, or one unit where it
/// reads none.
pub open spec fn key_bytes(expr: ExprView, bytes: spec_fn(usize) -> nat) -> nat {
    if reads_any(expr) {
        read_bytes(expr, bytes)
    } else {
        1
    }
}

/// What evaluating an expression takes: every operation handles the bytes of the columns below it, and
/// where no operation handles a column, it takes one unit.
pub open spec fn evaluation_bytes(expr: ExprView, bytes: spec_fn(usize) -> nat) -> nat {
    if expr is Operation && reads_any(expr) {
        handled_bytes(expr, bytes, 0)
    } else {
        1
    }
}

/// The bytes of the columns of a plan by their places.
pub open spec fn input_bytes(bytes: spec_fn(LinearComplexity) -> nat) -> spec_fn(usize) -> nat {
    |i: usize| bytes(LinearComplexity::Column(i))
}

/// The bytes of the columns of the left side of a join by their places.
pub open spec fn left_bytes(bytes: spec_fn(LinearComplexity) -> nat) -> spec_fn(usize) -> nat {
    |i: usize| bytes(LinearComplexity::ColumnFromLeft(i))
}

/// The bytes of the columns of the right side of a join by their places.
pub open spec fn right_bytes(bytes: spec_fn(LinearComplexity) -> nat) -> spec_fn(usize) -> nat {
    |i: usize| bytes(LinearComplexity::ColumnFromRight(i))
}

/// The bytes of the columns that a join filter sees: those of the column of the side that each comes
/// from, and one unit where it comes from neither.
pub open spec fn filter_bytes(
    columns: Seq<ColumnIndex>,
    bytes: spec_fn(LinearComplexity) -> nat,
) -> spec_fn(usize) -> nat {
    |i: usize|
        if i >= columns.len() || columns[i as int].side is Neither {
            1
        } else if columns[i as int].side is Left {
            bytes(LinearComplexity::ColumnFromLeft(columns[i as int].index))
        } else {
            bytes(LinearComplexity::ColumnFromRight(columns[i as int].index))
        }
}

/// What the filter of a join takes, if it has one.
pub open spec fn join_filter_bytes(
    filter: Option<JoinFilter>,
    bytes: spec_fn(LinearComplexity) -> nat,
) -> nat {
    match filter {
        Some(filter) => evaluation_bytes(
            filter.expression@,
            filter_bytes(filter.column_indices@, bytes),
        ),
        None => 0,
    }
}

/// What the keys of the left side of a join take: all of them.
pub open spec fn left_keys_bytes(
    on: Seq<(PhysicalExpr, PhysicalExpr)>,
    bytes: spec_fn(LinearComplexity) -> nat,
) -> nat {
    sum_over(on.len(), |i: int| key_bytes(on[i].0@, left_bytes(bytes)))
}

/// What the keys of the right side of a join take: all of them.
pub open spec fn right_keys_bytes(
    on: Seq<(PhysicalExpr, PhysicalExpr)>,
    bytes: spec_fn(LinearComplexity) -> nat,
) -> nat {
    sum_over(on.len(), |i: int| key_bytes(on[i].1@, right_bytes(bytes)))
}

/// What some keys take: all of them.
pub open spec fn keys_bytes(
    keys: Seq<PhysicalExpr>,
    bytes: spec_fn(LinearComplexity) -> nat,
) -> nat {
    sum_over(keys.len(), |i: int| key_bytes(keys[i]@, input_bytes(bytes)))
}

proof fn lemma_sum_same(n: nat, f: spec_fn(int) -> nat, g: spec_fn(int) -> nat)
    requires
        forall|i: int| 0 <= i < n ==> #[trigger] f(i) == g(i),
    ensures
        sum_over(n, f) == sum_over(n, g),
    decreases n,
{
    if n > 0 {
        lemma_sum_same((n - 1) as nat, f, g);
        assert(f(n - 1) == g(n - 1));
    }
}

/// The numbers that some amounts of work come to, added up.
spec fn amounts(
    terms: Seq<Complexity>,
    bytes: spec_fn(LinearComplexity) -> nat,
    log: spec_fn(nat) -> nat,
) -> nat {
    sum_over(terms.len(), |i: int| amount(terms[i], bytes, log))
}

proof fn lemma_amounts_push(
    terms: Seq<Complexity>,
    bytes: spec_fn(LinearComplexity) -> nat,
    log: spec_fn(nat) -> nat,
)
    requires
        terms.len() > 0,
    ensures
        amounts(terms, bytes, log) == amounts(terms.drop_last(), bytes, log) + amount(
            terms.last(),
            bytes,
            log,
        ),
{
    lemma_sum_same(
        (terms.len() - 1) as nat,
        |i: int| amount(terms[i], bytes, log),
        |i: int| amount(terms.drop_last()[i], bytes, log),
    );
}

proof fn lemma_amounts_concat(
    a: Seq<Complexity>,
    b: Seq<Complexity>,
    bytes: spec_fn(LinearComplexity) -> nat,
    log: spec_fn(nat) -> nat,
)
    ensures
        amounts(a + b, bytes, log) == amounts(a, bytes, log) + amounts(b, bytes, log),
    decreases b.len(),
{
    if b.len() == 0 {
        assert(a + b =~= a);
    } else {
        assert((a + b).drop_last() =~= a + b.drop_last());
        lemma_amounts_concat(a, b.drop_last(), bytes, log);
        lemma_amounts_push(a + b, bytes, log);
        lemma_amounts_push(b, bytes, log);
    }
}

proof fn lemma_amounts_one(
    term: Complexity,
    bytes: spec_fn(LinearComplexity) -> nat,
    log: spec_fn(nat) -> nat,
)
    ensures
        amounts(seq![term], bytes, log) == amount(term, bytes, log),
{
    lemma_amounts_push(seq![term], bytes, log);
    assert(seq![term].drop_last() =~= Seq::empty());
}

proof fn lemma_sum_amount(
    terms: Seq<Complexity>,
    bytes: spec_fn(LinearComplexity) -> nat,
    log: spec_fn(nat) -> nat,
)
    requires
        terms.len() > 0,
    ensures
        amount(sum(terms), bytes, log) == amounts(terms, bytes, log),
    decreases terms.len(),
{
    lemma_amounts_push(terms, bytes, log);
    if terms.len() > 1 {
        lemma_sum_amount(terms.drop_last(), bytes, log);
    } else {
        assert(terms.drop_last() =~= Seq::empty());
    }
}

/// The bytes of some columns added up.
spec fn columns_bytes(columns: Seq<usize>, bytes: spec_fn(usize) -> nat) -> nat {
    sum_over(columns.len(), |i: int| bytes(columns[i]))
}

proof fn lemma_columns_concat(a: Seq<usize>, b: Seq<usize>, bytes: spec_fn(usize) -> nat)
    ensures
        columns_bytes(a + b, bytes) == columns_bytes(a, bytes) + columns_bytes(b, bytes),
    decreases b.len(),
{
    let f = |i: int| bytes((a + b)[i]);
    if b.len() == 0 {
        assert(a + b =~= a);
    } else {
        assert((a + b).drop_last() =~= a + b.drop_last());
        lemma_columns_concat(a, b.drop_last(), bytes);
        lemma_sum_same((a.len() + b.len() - 1) as nat, f, |i: int| bytes((a + b.drop_last())[i]));
        lemma_sum_same(
            (b.len() - 1) as nat,
            |i: int| bytes(b[i]),
            |i: int| bytes(b.drop_last()[i]),
        );
    }
}

proof fn lemma_columns_read(expr: ExprView, bytes: spec_fn(usize) -> nat)
    ensures
        columns_bytes(columns_read(expr), bytes) == read_bytes(expr, bytes),
        reads_any(expr) == (columns_read(expr).len() > 0),
    decreases expr,
{
    match expr {
        ExprView::Column(i) => {
            reveal_with_fuel(sum_over, 2);
        },
        ExprView::Literal => {},
        ExprView::Operation(operands) => {
            lemma_all_columns_read(operands, bytes);
        },
    }
}

proof fn lemma_all_columns_read(exprs: Seq<ExprView>, bytes: spec_fn(usize) -> nat)
    ensures
        columns_bytes(all_columns_read(exprs), bytes) == all_read_bytes(exprs, bytes),
        (exists|i: int| 0 <= i < exprs.len() && reads_any(#[trigger] exprs[i])) == (
        all_columns_read(exprs).len() > 0),
    decreases exprs,
{
    if exprs.len() > 0 {
        let before = exprs.drop_last();
        lemma_all_columns_read(before, bytes);
        lemma_columns_read(exprs.last(), bytes);
        lemma_columns_concat(all_columns_read(before), columns_read(exprs.last()), bytes);
        assert(exprs.last() == exprs[exprs.len() - 1]);
        if exists|i: int| 0 <= i < before.len() && reads_any(#[trigger] before[i]) {
            let i = choose|i: int| 0 <= i < before.len() && reads_any(#[trigger] before[i]);
            assert(reads_any(exprs[i]));
        }
        if exists|i: int| 0 <= i < exprs.len() && reads_any(#[trigger] exprs[i]) {
            let i = choose|i: int| 0 <= i < exprs.len() && reads_any(#[trigger] exprs[i]);
            if i < before.len() {
                assert(reads_any(before[i]));
            }
        }
    }
}

proof fn lemma_passes_amount(
    columns: Seq<usize>,
    bytes: spec_fn(LinearComplexity) -> nat,
    log: spec_fn(nat) -> nat,
)
    ensures
        amounts(passes(columns), bytes, log) == columns_bytes(columns, input_bytes(bytes)),
        amounts(side_passes(columns, true), bytes, log) == columns_bytes(
            columns,
            left_bytes(bytes),
        ),
        amounts(side_passes(columns, false), bytes, log) == columns_bytes(
            columns,
            right_bytes(bytes),
        ),
{
    let n = columns.len();
    let all = passes(columns);
    let left = side_passes(columns, true);
    let right = side_passes(columns, false);
    lemma_sum_same(
        n,
        |i: int| amount(all[i], bytes, log),
        |i: int| input_bytes(bytes)(columns[i]),
    );
    lemma_sum_same(
        n,
        |i: int| amount(left[i], bytes, log),
        |i: int| left_bytes(bytes)(columns[i]),
    );
    lemma_sum_same(
        n,
        |i: int| amount(right[i], bytes, log),
        |i: int| right_bytes(bytes)(columns[i]),
    );
}

/// Hashing or comparing a key takes the bytes of all the columns that it reads.
proof fn lemma_key_amount(
    expr: ExprView,
    bytes: spec_fn(LinearComplexity) -> nat,
    log: spec_fn(nat) -> nat,
)
    ensures
        amount(key_cost(expr), bytes, log) == key_bytes(expr, input_bytes(bytes)),
        amount(join_key_cost(expr, true), bytes, log) == key_bytes(expr, left_bytes(bytes)),
        amount(join_key_cost(expr, false), bytes, log) == key_bytes(expr, right_bytes(bytes)),
{
    let columns = columns_read(expr);
    lemma_columns_read(expr, input_bytes(bytes));
    lemma_columns_read(expr, left_bytes(bytes));
    lemma_columns_read(expr, right_bytes(bytes));
    lemma_passes_amount(columns, bytes, log);
    if columns.len() > 0 {
        lemma_sum_amount(passes(columns), bytes, log);
        lemma_sum_amount(side_passes(columns, true), bytes, log);
        lemma_sum_amount(side_passes(columns, false), bytes, log);
    }
}

proof fn lemma_handled_deeper(expr: ExprView, bytes: spec_fn(usize) -> nat, above: nat)
    ensures
        handled_bytes(expr, bytes, above + 1) == handled_bytes(expr, bytes, above) + read_bytes(
            expr,
            bytes,
        ),
    decreases expr,
{
    match expr {
        ExprView::Column(i) => {
            let n = bytes(i);
            assert((above + 1) * n == above * n + n) by (nonlinear_arith);
        },
        ExprView::Literal => {},
        ExprView::Operation(operands) => {
            lemma_all_handled_deeper(operands, bytes, above + 1);
        },
    }
}

proof fn lemma_all_handled_deeper(exprs: Seq<ExprView>, bytes: spec_fn(usize) -> nat, above: nat)
    ensures
        all_handled_bytes(exprs, bytes, above + 1) == all_handled_bytes(exprs, bytes, above)
            + all_read_bytes(exprs, bytes),
    decreases exprs,
{
    if exprs.len() > 0 {
        lemma_all_handled_deeper(exprs.drop_last(), bytes, above);
        lemma_handled_deeper(exprs.last(), bytes, above);
    }
}

proof fn lemma_processed_amount(
    expr: ExprView,
    bytes: spec_fn(LinearComplexity) -> nat,
    log: spec_fn(nat) -> nat,
)
    ensures
        match processed(expr) {
            Some(work) => expr is Operation && reads_any(expr) && amount(work, bytes, log)
                == handled_bytes(expr, input_bytes(bytes), 0),
            None => !(expr is Operation && reads_any(expr)) && handled_bytes(
                expr,
                input_bytes(bytes),
                0,
            ) == 0,
        },
    decreases expr, 0int,
{
    match expr {
        ExprView::Column(i) => {
            let n = input_bytes(bytes)(i);
            assert(0 * n == 0) by (nonlinear_arith);
        },
        ExprView::Literal => {},
        ExprView::Operation(operands) => {
            let terms = operation_terms(operands);
            lemma_operation_amount(operands, bytes, log);
            if terms.len() > 0 {
                lemma_sum_amount(terms, bytes, log);
            }
        },
    }
}

proof fn lemma_operation_amount(
    operands: Seq<ExprView>,
    bytes: spec_fn(LinearComplexity) -> nat,
    log: spec_fn(nat) -> nat,
)
    ensures
        amounts(operation_terms(operands), bytes, log) == all_handled_bytes(
            operands,
            input_bytes(bytes),
            1,
        ),
        (operation_terms(operands).len() > 0) == exists|i: int|
            0 <= i < operands.len() && reads_any(#[trigger] operands[i]),
    decreases operands, 1int,
{
    if operands.len() > 0 {
        let before = operands.drop_last();
        let operand = operands.last();
        let own = match processed(operand) {
            Some(work) => seq![work],
            None => Seq::empty(),
        };
        lemma_operation_amount(before, bytes, log);
        lemma_processed_amount(operand, bytes, log);
        lemma_columns_read(operand, input_bytes(bytes));
        lemma_passes_amount(columns_read(operand), bytes, log);
        lemma_amounts_concat(operation_terms(before), operand_terms(operand), bytes, log);
        lemma_amounts_concat(own, passes(columns_read(operand)), bytes, log);
        lemma_handled_deeper(operand, input_bytes(bytes), 0);
        if let Some(work) = processed(operand) {
            lemma_amounts_one(work, bytes, log);
        }
        assert(operand == operands[operands.len() - 1]);
        if exists|i: int| 0 <= i < before.len() && reads_any(#[trigger] before[i]) {
            let i = choose|i: int| 0 <= i < before.len() && reads_any(#[trigger] before[i]);
            assert(reads_any(operands[i]));
        }
        if exists|i: int| 0 <= i < operands.len() && reads_any(#[trigger] operands[i]) {
            let i = choose|i: int| 0 <= i < operands.len() && reads_any(#[trigger] operands[i]);
            if i < before.len() {
                assert(reads_any(before[i]));
            }
        }
    }
}

/// Evaluating an expression takes, for every operation, the bytes of all the columns below it.
pub proof fn expressions_cost_what_they_handle(
    expr: ExprView,
    bytes: spec_fn(LinearComplexity) -> nat,
    log: spec_fn(nat) -> nat,
)
    ensures
        amount(expression_cost(expr), bytes, log) == evaluation_bytes(expr, input_bytes(bytes)),
{
    lemma_processed_amount(expr, bytes, log);
}

proof fn lemma_remapped_amount(
    work: Complexity,
    columns: Seq<ColumnIndex>,
    bytes: spec_fn(LinearComplexity) -> nat,
    log: spec_fn(nat) -> nat,
    seen: spec_fn(LinearComplexity) -> nat,
)
    requires
        forall|l: LinearComplexity| #[trigger]
            seen(l) == match l {
                LinearComplexity::Column(i) => filter_bytes(columns, bytes)(i),
                _ => bytes(l),
            },
    ensures
        amount(remapped(work, columns), bytes, log) == amount(work, seen, log),
    decreases work,
{
    match work {
        Complexity::Constant(_) => {},
        Complexity::Linear(l) => {
            assert(seen(l) == amount(work, seen, log));
        },
        Complexity::Log(n, m) => {
            lemma_remapped_amount(*n, columns, bytes, log, seen);
            lemma_remapped_amount(*m, columns, bytes, log, seen);
        },
        Complexity::Plus(n, m) => {
            lemma_remapped_amount(*n, columns, bytes, log, seen);
            lemma_remapped_amount(*m, columns, bytes, log, seen);
        },
        Complexity::Multiply(n, m) => {
            lemma_remapped_amount(*n, columns, bytes, log, seen);
            lemma_remapped_amount(*m, columns, bytes, log, seen);
        },
    }
}

/// The filter of a join takes, for every operation, the bytes of all the columns below it, on the side
/// that each comes from.
pub proof fn join_filters_cost_what_they_handle(
    filter: JoinFilter,
    bytes: spec_fn(LinearComplexity) -> nat,
    log: spec_fn(nat) -> nat,
)
    ensures
        amount(join_filter_cost(filter), bytes, log) == join_filter_bytes(Some(filter), bytes),
{
    let columns = filter.column_indices@;
    let seen = |l: LinearComplexity|
        match l {
            LinearComplexity::Column(i) => filter_bytes(columns, bytes)(i),
            _ => bytes(l),
        };
    let expr = filter.expression@;
    lemma_remapped_amount(expression_cost(expr), columns, bytes, log, seen);
    expressions_cost_what_they_handle(expr, seen, log);
    assert(input_bytes(seen) =~= filter_bytes(columns, bytes));
}

proof fn lemma_side_amount(
    on: Seq<(PhysicalExpr, PhysicalExpr)>,
    bytes: spec_fn(LinearComplexity) -> nat,
    log: spec_fn(nat) -> nat,
)
    ensures
        amounts(side_cost(on, true), bytes, log) == left_keys_bytes(on, bytes),
        amounts(side_cost(on, false), bytes, log) == right_keys_bytes(on, bytes),
{
    let left = side_cost(on, true);
    let right = side_cost(on, false);
    assert forall|i: int| 0 <= i < on.len() implies amount(#[trigger] left[i], bytes, log)
        == key_bytes(on[i].0@, left_bytes(bytes)) by {
        lemma_key_amount(on[i].0@, bytes, log);
    }
    assert forall|i: int| 0 <= i < on.len() implies amount(#[trigger] right[i], bytes, log)
        == key_bytes(on[i].1@, right_bytes(bytes)) by {
        lemma_key_amount(on[i].1@, bytes, log);
    }
    lemma_sum_same(
        on.len(),
        |i: int| amount(left[i], bytes, log),
        |i: int| key_bytes(on[i].0@, left_bytes(bytes)),
    );
    lemma_sum_same(
        on.len(),
        |i: int| amount(right[i], bytes, log),
        |i: int| key_bytes(on[i].1@, right_bytes(bytes)),
    );
}

proof fn lemma_keys_amount(
    keys: Seq<PhysicalExpr>,
    bytes: spec_fn(LinearComplexity) -> nat,
    log: spec_fn(nat) -> nat,
)
    ensures
        amounts(keys_cost(expr_views(keys)), bytes, log) == keys_bytes(keys, bytes),
        amount(
            sum_or_unit(
                seq![linear(LinearComplexity::AllColumns)] + keys_cost(expr_views(keys)),
            ),
            bytes,
            log,
        ) == bytes(LinearComplexity::AllColumns) + keys_bytes(keys, bytes),
{
    let terms = keys_cost(expr_views(keys));
    let first = linear(LinearComplexity::AllColumns);
    assert forall|i: int| 0 <= i < keys.len() implies amount(#[trigger] terms[i], bytes, log)
        == key_bytes(keys[i]@, input_bytes(bytes)) by {
        lemma_key_amount(keys[i]@, bytes, log);
    }
    lemma_sum_same(
        keys.len(),
        |i: int| amount(terms[i], bytes, log),
        |i: int| key_bytes(keys[i]@, input_bytes(bytes)),
    );
    lemma_amounts_one(first, bytes, log);
    lemma_amounts_concat(seq![first], terms, bytes, log);
    lemma_sum_amount(seq![first] + terms, bytes, log);
}

proof fn lemma_filter_amount(
    filter: Option<JoinFilter>,
    bytes: spec_fn(LinearComplexity) -> nat,
    log: spec_fn(nat) -> nat,
)
    ensures
        amounts(filter_cost(filter), bytes, log) == join_filter_bytes(filter, bytes),
{
    if let Some(f) = filter {
        join_filters_cost_what_they_handle(f, bytes, log);
        lemma_amounts_one(join_filter_cost(f), bytes, log);
    }
}

/// What evaluating an expression takes, if it is there.
pub open spec fn present_bytes(
    expr: Option<PhysicalExpr>,
    bytes: spec_fn(LinearComplexity) -> nat,
) -> nat {
    match expr {
        Some(expr) => evaluation_bytes(expr@, input_bytes(bytes)),
        None => 0,
    }
}

proof fn lemma_present_amount(
    exprs: Seq<Option<PhysicalExpr>>,
    bytes: spec_fn(LinearComplexity) -> nat,
    log: spec_fn(nat) -> nat,
)
    ensures
        amounts(present_cost(exprs), bytes, log) == sum_over(
            exprs.len(),
            |i: int| present_bytes(exprs[i], bytes),
        ),
    decreases exprs.len(),
{
    if exprs.len() > 0 {
        let before = exprs.drop_last();
        lemma_present_amount(before, bytes, log);
        lemma_sum_same(
            before.len(),
            |i: int| present_bytes(before[i], bytes),
            |i: int| present_bytes(exprs[i], bytes),
        );
        if let Some(expr) = exprs.last() {
            expressions_cost_what_they_handle(expr@, bytes, log);
            lemma_amounts_push(present_cost(exprs), bytes, log);
            assert(present_cost(exprs).drop_last() =~= present_cost(before));
        }
    }
}

/// A hash join reads its left side twice and its right side once, a symmetric one reads both twice, and a
/// sort merge join only looks at the keys. Each of them hashes or compares every key of both sides and
/// evaluates the filter. A sort merge join without keys and filter still takes a unit. The other two
/// joins look at every pair of rows.
pub proof fn joins_cost_what_they_read(
    node: CostedNode,
    bytes: spec_fn(LinearComplexity) -> nat,
    log: spec_fn(nat) -> nat,
)
    ensures
        ({
            let left = bytes(LinearComplexity::AllColumnsFromLeft);
            let right = bytes(LinearComplexity::AllColumnsFromRight);
            match node {
                CostedNode::HashJoin { on, filter } => amount(cpu_cost(node), bytes, log) == 2
                    * left + left_keys_bytes(on@, bytes) + right + right_keys_bytes(on@, bytes)
                    + join_filter_bytes(filter, bytes),
                CostedNode::SymmetricHashJoin { on, filter } => amount(cpu_cost(node), bytes, log)
                    == 2 * left + left_keys_bytes(on@, bytes) + 2 * right + right_keys_bytes(
                    on@,
                    bytes,
                ) + join_filter_bytes(filter, bytes),
                CostedNode::SortMergeJoin { on, filter } => amount(cpu_cost(node), bytes, log)
                    == if on@.len() == 0 && filter is None {
                    1
                } else {
                    left_keys_bytes(on@, bytes) + right_keys_bytes(on@, bytes) + join_filter_bytes(
                        filter,
                        bytes,
                    )
                },
                CostedNode::NestedLoopJoin { filter } => amount(cpu_cost(node), bytes, log) == left
                    * right + join_filter_bytes(filter, bytes),
                CostedNode::CrossJoin => amount(cpu_cost(node), bytes, log) == left * right,
                _ => true,
            }
        }),
{
    let l = linear(LinearComplexity::AllColumnsFromLeft);
    let r = linear(LinearComplexity::AllColumnsFromRight);
    lemma_amounts_one(l, bytes, log);
    lemma_amounts_one(r, bytes, log);
    lemma_amounts_concat(seq![l], seq![l], bytes, log);
    lemma_amounts_concat(seq![r], seq![r], bytes, log);
    assert(seq![l] + seq![l] =~= seq![l, l]);
    assert(seq![r] + seq![r] =~= seq![r, r]);
    match node {
        CostedNode::HashJoin { on, filter } => {
            let t0 = seq![l, l];
            let t1 = t0 + side_cost(on@, true);
            let t2 = t1 + seq![r];
            let t3 = t2 + side_cost(on@, false);
            lemma_side_amount(on@, bytes, log);
            lemma_filter_amount(filter, bytes, log);
            lemma_amounts_concat(t0, side_cost(on@, true), bytes, log);
            lemma_amounts_concat(t1, seq![r], bytes, log);
            lemma_amounts_concat(t2, side_cost(on@, false), bytes, log);
            lemma_amounts_concat(t3, filter_cost(filter), bytes, log);
            lemma_sum_amount(t3 + filter_cost(filter), bytes, log);
        },
        CostedNode::SymmetricHashJoin { on, filter } => {
            let t0 = seq![l, l];
            let t1 = t0 + side_cost(on@, true);
            let t2 = t1 + seq![r, r];
            let t3 = t2 + side_cost(on@, false);
            lemma_side_amount(on@, bytes, log);
            lemma_filter_amount(filter, bytes, log);
            lemma_amounts_concat(t0, side_cost(on@, true), bytes, log);
            lemma_amounts_concat(t1, seq![r, r], bytes, log);
            lemma_amounts_concat(t2, side_cost(on@, false), bytes, log);
            lemma_amounts_concat(t3, filter_cost(filter), bytes, log);
            lemma_sum_amount(t3 + filter_cost(filter), bytes, log);
        },
        CostedNode::SortMergeJoin { on, filter } => {
            let t1 = side_cost(on@, true);
            let t2 = t1 + side_cost(on@, false);
            let t3 = t2 + filter_cost(filter);
            lemma_side_amount(on@, bytes, log);
            lemma_filter_amount(filter, bytes, log);
            lemma_amounts_concat(t1, side_cost(on@, false), bytes, log);
            lemma_amounts_concat(t2, filter_cost(filter), bytes, log);
            if t3.len() > 0 {
                lemma_sum_amount(t3, bytes, log);
            }
        },
        CostedNode::NestedLoopJoin { filter } => {
            let pairs = Complexity::Multiply(Box::new(l), Box::new(r));
            lemma_filter_amount(filter, bytes, log);
            lemma_amounts_one(pairs, bytes, log);
            lemma_amounts_concat(seq![pairs], filter_cost(filter), bytes, log);
            lemma_sum_amount(seq![pairs] + filter_cost(filter), bytes, log);
        },
        _ => {},
    }
}

/// A node that works on one input reads all its columns where it must, hashes or compares every key, and
/// evaluates every expression. Sorting takes as much for each step of the logarithm of what it keeps. A
/// node that only passes rows on takes a unit.
pub proof fn nodes_cost_what_they_read(
    node: CostedNode,
    bytes: spec_fn(LinearComplexity) -> nat,
    log: spec_fn(nat) -> nat,
)
    ensures
        ({
            let all = bytes(LinearComplexity::AllColumns);
            let output = bytes(LinearComplexity::AllOutputColumns);
            let cost = amount(cpu_cost(node), bytes, log);
            match node {
                CostedNode::Sort { keys, fetch } => {
                    let input = all + keys_bytes(keys@, bytes);
                    cost == input * log(
                        if fetch {
                            output
                        } else {
                            input
                        },
                    )
                },
                CostedNode::Aggregate { group_by, filters } => cost == all + keys_bytes(
                    group_by@,
                    bytes,
                ) + sum_over(filters@.len(), |i: int| present_bytes(filters@[i], bytes)),
                CostedNode::WindowAgg { partition_keys } => cost == all + keys_bytes(
                    partition_keys@,
                    bytes,
                ),
                CostedNode::BoundedWindowAgg { partition_keys } => cost == all + keys_bytes(
                    partition_keys@,
                    bytes,
                ),
                CostedNode::SortPreservingMerge { keys } => cost == all + keys_bytes(
                    keys@,
                    bytes,
                ),
                CostedNode::Repartition { partitioning } => match partitioning {
                    RepartitionKeys::Hash(keys) => cost == all + keys_bytes(keys@, bytes),
                    RepartitionKeys::Range(keys) => cost == all + keys_bytes(keys@, bytes),
                    _ => cost == all,
                },
                CostedNode::Filter { predicate } => cost == output + evaluation_bytes(
                    predicate@,
                    input_bytes(bytes),
                ),
                CostedNode::Projection { exprs } => cost == if exprs@.len() == 0 {
                    1
                } else {
                    sum_over(
                        exprs@.len(),
                        |i: int| evaluation_bytes(exprs@[i]@, input_bytes(bytes)),
                    )
                },
                CostedNode::DataSource | CostedNode::Other => cost == output,
                CostedNode::GlobalLimit
                | CostedNode::LocalLimit
                | CostedNode::CoalescePartitions
                | CostedNode::Broadcast
                | CostedNode::Union
                | CostedNode::ChildrenIsolatorUnion
                | CostedNode::Interleave
                | CostedNode::Empty => cost == 1,
                _ => true,
            }
        }),
{
    match node {
        CostedNode::Sort { keys, fetch } => {
            let input = sum_or_unit(
                seq![linear(LinearComplexity::AllColumns)] + keys_cost(expr_views(keys@)),
            );
            let kept = if fetch {
                linear(LinearComplexity::AllOutputColumns)
            } else {
                input
            };
            lemma_keys_amount(keys@, bytes, log);
            assert(cpu_cost(node) == Complexity::Log(Box::new(input), Box::new(kept)));
            assert(amount(linear(LinearComplexity::AllOutputColumns), bytes, log) == bytes(
                LinearComplexity::AllOutputColumns,
            ));
            assert(amount(cpu_cost(node), bytes, log) == amount(input, bytes, log) * log(
                amount(kept, bytes, log),
            ));
        },
        CostedNode::Aggregate { group_by, filters } => {
            let first = linear(LinearComplexity::AllColumns);
            let keys = keys_cost(expr_views(group_by@));
            lemma_keys_amount(group_by@, bytes, log);
            lemma_present_amount(filters@, bytes, log);
            lemma_amounts_one(first, bytes, log);
            lemma_amounts_concat(seq![first], keys, bytes, log);
            lemma_amounts_concat(seq![first] + keys, present_cost(filters@), bytes, log);
            lemma_sum_amount(seq![first] + keys + present_cost(filters@), bytes, log);
        },
        CostedNode::WindowAgg { partition_keys } => {
            lemma_keys_amount(partition_keys@, bytes, log);
        },
        CostedNode::BoundedWindowAgg { partition_keys } => {
            lemma_keys_amount(partition_keys@, bytes, log);
        },
        CostedNode::SortPreservingMerge { keys } => {
            lemma_keys_amount(keys@, bytes, log);
        },
        CostedNode::Repartition { partitioning } => match partitioning {
            RepartitionKeys::Hash(keys) => {
                lemma_keys_amount(keys@, bytes, log);
            },
            RepartitionKeys::Range(keys) => {
                lemma_keys_amount(keys@, bytes, log);
            },
            _ => {},
        },
        CostedNode::Filter { predicate } => {
            expressions_cost_what_they_handle(predicate@, bytes, log);
            assert(amount(linear(LinearComplexity::AllOutputColumns), bytes, log) == bytes(
                LinearComplexity::AllOutputColumns,
            ));
        },
        CostedNode::Projection { exprs } => {
            let costs = expr_views(exprs@).map_values(|e: ExprView| expression_cost(e));
            assert forall|i: int| 0 <= i < exprs@.len() implies amount(
                #[trigger] costs[i],
                bytes,
                log,
            ) == evaluation_bytes(exprs@[i]@, input_bytes(bytes)) by {
                expressions_cost_what_they_handle(exprs@[i]@, bytes, log);
            }
            lemma_sum_same(
                exprs@.len(),
                |i: int| amount(costs[i], bytes, log),
                |i: int| evaluation_bytes(exprs@[i]@, input_bytes(bytes)),
            );
            if costs.len() > 0 {
                lemma_sum_amount(costs, bytes, log);
            }
        },
        _ => {},
    }
}

} // verus!
