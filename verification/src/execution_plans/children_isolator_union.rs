use crate::protobuf::distributed_codec::{partitions_of, InputPlan};
use crate::stage::DistributedTaskContext;
use crate::text::{
    concat, decimal, join, lemma_concat_push, lemma_join_push, push_usize, DisplayFormatType,
};
use vstd::arithmetic::div_mod::{lemma_div_pos_is_pos, lemma_fundamental_div_mod};
use vstd::prelude::*;

verus! {

/// Why the children of a union cannot be spread over tasks.
#[derive(Debug, Clone, Copy, PartialEq, Eq, Structural)]
pub enum SplitError {
    /// The number of children and the number of task counts differ.
    ChildrenMismatch { children: usize, task_counts: usize },
    /// There are more tasks than the children want together.
    BudgetTooLarge { budget: usize, total: usize },
    /// There is no task to run the children in.
    EmptyBudget,
}

/// Why a union whose children run apart cannot be made: they cannot be spread over the tasks, or the
/// query engine cannot unite them.
#[derive(Debug, PartialEq, Eq)]
pub enum UnionError<E> {
    Split(SplitError),
    Engine(E),
}

/// How the text of each [SplitError] ends.
pub const SPLIT_BUG: &'static str = ". This is a bug in the distributed planning logic, please report it";

/// The text for a [SplitError].
pub open spec fn split_error_text(error: SplitError) -> Seq<char> {
    match error {
        SplitError::ChildrenMismatch { children, task_counts } => {
            "ChildrenIsolatorUnionExec received "@ + decimal(children as nat)
                + " children but a vec of "@ + decimal(task_counts as nat)
                + " positions for those children"@ + SPLIT_BUG@
        },
        SplitError::BudgetTooLarge { budget, total } => {
            "ChildrenIsolatorUnionExec had a task count "@ + decimal(budget as nat)
                + ", which is greater than the sum of child task counts "@ + decimal(total as nat)
                + SPLIT_BUG@
        },
        SplitError::EmptyBudget => "ChildrenIsolatorUnionExec had a task count "@ + decimal(0)
            + SPLIT_BUG@,
    }
}

impl SplitError {
    /// The text of the error.
    pub fn message(&self) -> (text: String)
        ensures
            text@ == split_error_text(*self),
    {
        let mut text = String::new();
        match *self {
            SplitError::ChildrenMismatch { children, task_counts } => {
                text.push_str("ChildrenIsolatorUnionExec received ");
                push_usize(&mut text, children);
                text.push_str(" children but a vec of ");
                push_usize(&mut text, task_counts);
                text.push_str(" positions for those children");
            },
            SplitError::BudgetTooLarge { budget, total } => {
                text.push_str("ChildrenIsolatorUnionExec had a task count ");
                push_usize(&mut text, budget);
                text.push_str(", which is greater than the sum of child task counts ");
                push_usize(&mut text, total);
            },
            SplitError::EmptyBudget => {
                text.push_str("ChildrenIsolatorUnionExec had a task count ");
                push_usize(&mut text, 0);
            },
        }
        text.push_str(SPLIT_BUG);
        proof {
            assert(text@ =~= split_error_text(*self));
        }
        text
    }
}

/// Why the children of a union cannot be used.
#[derive(Debug, Clone, Copy, PartialEq, Eq, Structural)]
pub enum ChildError {
    /// There is no child with this index.
    NotFound(usize),
    /// The number of children would change.
    CountChanged { have: usize, expected: usize },
}

/// The text for a [ChildError].
pub open spec fn child_error_text(error: ChildError) -> Seq<char> {
    match error {
        ChildError::NotFound(child_idx) => "Could not find child with index "@ + decimal(
            child_idx as nat,
        ),
        ChildError::CountChanged { have, expected } => {
            "Number of children must match the original plan, have "@ + decimal(have as nat)
                + " but expected "@ + decimal(expected as nat)
        },
    }
}

impl ChildError {
    /// The text of the error.
    pub fn message(&self) -> (text: String)
        ensures
            text@ == child_error_text(*self),
    {
        let mut text = String::new();
        match *self {
            ChildError::NotFound(child_idx) => {
                text.push_str("Could not find child with index ");
                push_usize(&mut text, child_idx);
            },
            ChildError::CountChanged { have, expected } => {
                text.push_str("Number of children must match the original plan, have ");
                push_usize(&mut text, have);
                text.push_str(" but expected ");
                push_usize(&mut text, expected);
            },
        }
        proof {
            assert(text@ =~= child_error_text(*self));
        }
        text
    }
}

/// One unit of work of a union: one task of one child.
pub type Slot = (usize, DistributedTaskContext);

/// The sum of one number per child.
pub open spec fn total_count(counts: Seq<usize>) -> nat
    decreases counts.len(),
{
    if counts.len() == 0 {
        0
    } else {
        total_count(counts.drop_last()) + counts.last() as nat
    }
}

/// The `i`-th child has more than one task, none has more, and none before it has as many.
pub open spec fn is_first_largest(counts: Seq<usize>, i: int) -> bool {
    &&& 0 <= i < counts.len()
    &&& counts[i] > 1
    &&& forall|j: int| 0 <= j < counts.len() ==> #[trigger] counts[j] <= counts[i]
    &&& forall|j: int| 0 <= j < i ==> #[trigger] counts[j] < counts[i]
}

/// No child has more than one task.
pub open spec fn all_single(counts: Seq<usize>) -> bool {
    forall|j: int| 0 <= j < counts.len() ==> #[trigger] counts[j] <= 1
}

/// Takes away `surplus` tasks, one at a time from the child that has the most, for as long as
/// some child has more than one.
pub open spec fn trim_tasks(counts: Seq<usize>, surplus: nat) -> Seq<usize>
    decreases surplus,
{
    if surplus == 0 || all_single(counts) {
        counts
    } else {
        let i = choose|i: int| is_first_largest(counts, i);
        trim_tasks(counts.update(i, (counts[i] - 1) as usize), (surplus - 1) as nat)
    }
}

/// All the tasks of one child.
pub open spec fn child_slots(child: usize, count: usize) -> Seq<Slot> {
    Seq::new(
        count as nat,
        |i: int| (child, DistributedTaskContext { task_index: i as usize, task_count: count }),
    )
}

/// All the tasks of all the children, child after child.
pub open spec fn all_slots(counts: Seq<usize>) -> Seq<Slot>
    decreases counts.len(),
{
    if counts.len() == 0 {
        Seq::empty()
    } else {
        all_slots(counts.drop_last()) + child_slots((counts.len() - 1) as usize, counts.last())
    }
}

/// Where the slots of the `t`-th of `tasks` tasks begin when `total` slots are handed out in
/// contiguous runs, the first tasks taking one slot more while the remainder lasts.
pub open spec fn run_start(total: nat, tasks: nat, t: int) -> int {
    t * (total / tasks) as int + if t <= total % tasks { t } else { (total % tasks) as int }
}

/// How the children are spread over `budget` tasks.
pub open spec fn task_runs(counts: Seq<usize>, budget: nat) -> Seq<Seq<Slot>> {
    let trimmed = trim_tasks(counts, (total_count(counts) - budget) as nat);
    let slots = all_slots(trimmed);
    Seq::new(
        budget,
        |t: int|
            slots.subrange(
                run_start(slots.len(), budget, t),
                run_start(slots.len(), budget, t + 1),
            ),
    )
}

/// The outcome of spreading children with the given task counts over `budget` tasks.
pub open spec fn split_outcome(counts: Seq<usize>, budget: usize) -> Result<
    Seq<Seq<Slot>>,
    SplitError,
> {
    if budget > total_count(counts) {
        Err(SplitError::BudgetTooLarge { budget, total: total_count(counts) as usize })
    } else if budget == 0 {
        Err(SplitError::EmptyBudget)
    } else {
        Ok(task_runs(counts, budget as nat))
    }
}

pub(crate) proof fn lemma_total_prefix(counts: Seq<usize>, i: int)
    requires
        0 <= i <= counts.len(),
    ensures
        total_count(counts.take(i)) <= total_count(counts),
    decreases counts.len() - i,
{
    if i < counts.len() {
        lemma_total_prefix(counts, i + 1);
        assert(counts.take(i + 1).drop_last() =~= counts.take(i));
    } else {
        assert(counts.take(i) =~= counts);
    }
}

proof fn lemma_total_update(counts: Seq<usize>, i: int, v: usize)
    requires
        0 <= i < counts.len(),
    ensures
        total_count(counts.update(i, v)) == total_count(counts) - counts[i] + v,
    decreases counts.len(),
{
    let updated = counts.update(i, v);
    if i == counts.len() - 1 {
        assert(updated.drop_last() =~= counts.drop_last());
    } else {
        assert(updated.drop_last() =~= counts.drop_last().update(i, v));
        lemma_total_update(counts.drop_last(), i, v);
    }
}

pub(crate) proof fn lemma_slots_len(counts: Seq<usize>)
    ensures
        all_slots(counts).len() == total_count(counts),
    decreases counts.len(),
{
    if counts.len() > 0 {
        lemma_slots_len(counts.drop_last());
    }
}

proof fn lemma_first_largest_unique(counts: Seq<usize>, i: int, j: int)
    requires
        is_first_largest(counts, i),
        is_first_largest(counts, j),
    ensures
        i == j,
{
    if i < j {
        assert(counts[i] < counts[j]);
        assert(counts[j] <= counts[i]);
    } else if j < i {
        assert(counts[j] < counts[i]);
        assert(counts[i] <= counts[j]);
    }
}

proof fn lemma_first_largest_exists(counts: Seq<usize>) -> (i: int)
    requires
        !all_single(counts),
    ensures
        is_first_largest(counts, i),
    decreases counts.len(),
{
    let n = counts.len() - 1;
    let front = counts.drop_last();
    if all_single(front) {
        let large = choose|j: int| 0 <= j < counts.len() && #[trigger] counts[j] > 1;
        assert(large == n) by {
            if large < n {
                assert(front[large] <= 1);
            }
        }
        assert forall|j: int| 0 <= j < counts.len() implies #[trigger] counts[j] <= counts[n] by {
            if j < n {
                assert(front[j] <= 1);
            }
        }
        assert forall|j: int| 0 <= j < n implies #[trigger] counts[j] < counts[n] by {
            assert(front[j] <= 1);
        }
        assert(is_first_largest(counts, n));
        n
    } else {
        let k = lemma_first_largest_exists(front);
        if counts[n] > counts[k] {
            assert forall|j: int| 0 <= j < n implies #[trigger] counts[j] < counts[n] by {
                assert(front[j] <= front[k]);
            }
            n
        } else {
            assert forall|j: int|
                0 <= j < counts.len() implies #[trigger] counts[j] <= counts[k] by {
                if j < n {
                    assert(front[j] <= front[k]);
                }
            }
            assert forall|j: int| 0 <= j < k implies #[trigger] counts[j] < counts[k] by {
                assert(front[j] < front[k]);
            }
            k
        }
    }
}

/// Trimming keeps the number of children, never raises a child's tasks, leaves every child that
/// had a task with at least one, and stops early only when no child has more than one.
pub proof fn trimming_is_fair(counts: Seq<usize>, surplus: nat)
    ensures
        trim_tasks(counts, surplus).len() == counts.len(),
        forall|i: int|
            0 <= i < counts.len() ==> #[trigger] trim_tasks(counts, surplus)[i] <= counts[i],
        forall|i: int|
            0 <= i < counts.len() && counts[i] >= 1 ==> #[trigger] trim_tasks(counts, surplus)[i]
                >= 1,
        total_count(trim_tasks(counts, surplus)) >= total_count(counts) - surplus,
        total_count(trim_tasks(counts, surplus)) <= total_count(counts),
        total_count(trim_tasks(counts, surplus)) == total_count(counts) - surplus || all_single(
            trim_tasks(counts, surplus),
        ),
    decreases surplus,
{
    if surplus != 0 && !all_single(counts) {
        let found = lemma_first_largest_exists(counts);
        let i = choose|i: int| is_first_largest(counts, i);
        let next = counts.update(i, (counts[i] - 1) as usize);
        lemma_total_update(counts, i, (counts[i] - 1) as usize);
        trimming_is_fair(next, (surplus - 1) as nat);
        let result = trim_tasks(counts, surplus);
        assert forall|j: int| 0 <= j < counts.len() implies #[trigger] result[j] <= counts[j] by {
            assert(result[j] <= next[j]);
        }
        assert forall|j: int| 0 <= j < counts.len() && counts[j] >= 1 implies #[trigger] result[j]
            >= 1 by {
            assert(next[j] >= 1);
        }
    }
}

/// Trimming is as even as it can be: no child is left with more than one task beyond those of a child
/// that lost some.
pub proof fn trimming_is_even(counts: Seq<usize>, surplus: nat, i: int, j: int)
    requires
        0 <= i < counts.len(),
        0 <= j < counts.len(),
        trim_tasks(counts, surplus)[i] < counts[i],
    ensures
        trim_tasks(counts, surplus)[j] <= trim_tasks(counts, surplus)[i] + 1,
    decreases surplus,
{
    if surplus > 0 && !all_single(counts) {
        let largest = lemma_first_largest_exists(counts);
        let chosen = choose|k: int| is_first_largest(counts, k);
        lemma_first_largest_unique(counts, largest, chosen);
        let next = counts.update(chosen, (counts[chosen] - 1) as usize);
        let less = (surplus - 1) as nat;
        trimming_is_fair(next, less);
        if trim_tasks(next, less)[i] < next[i] {
            trimming_is_even(next, less, i, j);
        } else {
            assert(i == chosen);
            assert(trim_tasks(next, less)[j] <= next[j]);
        }
    }
}

fn sum_tasks(counts: &Vec<usize>) -> (total: usize)
    requires
        total_count(counts@) <= usize::MAX,
    ensures
        total == total_count(counts@),
{
    let mut total: usize = 0;
    for i in 0..counts.len()
        invariant
            total == total_count(counts@.take(i as int)),
            total_count(counts@) <= usize::MAX,
    {
        proof {
            lemma_total_prefix(counts@, i + 1);
            assert(counts@.take(i + 1).drop_last() =~= counts@.take(i as int));
        }
        total = total + counts[i];
    }
    proof {
        assert(counts@.take(counts@.len() as int) =~= counts@);
    }
    total
}

/// The child to take a task from, if any has more than one.
fn find_first_largest(counts: &Vec<usize>) -> (found: Option<usize>)
    ensures
        found is None ==> all_single(counts@),
        found is Some ==> is_first_largest(counts@, found->0 as int),
{
    let mut index: usize = 0;
    let mut value: usize = 1;
    for i in 0..counts.len()
        invariant
            value >= 1,
            forall|j: int| 0 <= j < i ==> #[trigger] counts@[j] <= value,
            value > 1 ==> 0 <= index < i && counts@[index as int] == value && forall|j: int|
                0 <= j < index ==> #[trigger] counts@[j] < value,
    {
        if counts[i] > value {
            index = i;
            value = counts[i];
        }
    }
    if value == 1 {
        None
    } else {
        Some(index)
    }
}

fn trim(counts: Vec<usize>, surplus: usize) -> (trimmed: Vec<usize>)
    ensures
        trimmed@ == trim_tasks(counts@, surplus as nat),
{
    let mut trimmed = counts;
    let mut left: usize = surplus;
    let ghost goal = trim_tasks(counts@, surplus as nat);
    while left > 0
        invariant
            trim_tasks(trimmed@, left as nat) == goal,
            goal == trim_tasks(counts@, surplus as nat),
        decreases left,
    {
        match find_first_largest(&trimmed) {
            None => {
                return trimmed;
            },
            Some(index) => {
                proof {
                    let chosen = choose|i: int| is_first_largest(trimmed@, i);
                    lemma_first_largest_unique(trimmed@, index as int, chosen);
                    assert(!all_single(trimmed@)) by {
                        assert(trimmed@[index as int] > 1);
                    }
                }
                let count: usize = trimmed[index];
                trimmed.set(index, count - 1);
                left = left - 1;
            },
        }
    }
    trimmed
}

pub(crate) proof fn lemma_run_start(total: nat, tasks: nat, t: int)
    requires
        tasks > 0,
        0 <= t < tasks,
    ensures
        run_start(total, tasks, 0) == 0,
        run_start(total, tasks, tasks as int) == total,
        run_start(total, tasks, t + 1) == run_start(total, tasks, t) + (total / tasks) + if t
            < total % tasks { 1int } else { 0int },
        0 <= run_start(total, tasks, t) <= run_start(total, tasks, t + 1) <= total,
    decreases tasks - t,
{
    let base = (total / tasks) as int;
    let extra = (total % tasks) as int;
    lemma_fundamental_div_mod(total as int, tasks as int);
    lemma_div_pos_is_pos(total as int, tasks as int);
    assert((t + 1) * base == t * base + base) by (nonlinear_arith);
    assert(0 <= t * base) by (nonlinear_arith)
        requires
            0 <= t,
            0 <= base,
    ;
    assert(0 * base == 0) by (nonlinear_arith);
    if t + 1 < tasks {
        lemma_run_start(total, tasks, t + 1);
    }
}

/// Spreads the children of a union over `task_count_budget` tasks. Every child is cut into the
/// number of tasks it wants, trimmed from the largest down where that is more than the budget,
/// and the resulting pieces are handed to the tasks in contiguous runs of nearly equal length.
pub fn split_children(task_count_per_children: Vec<usize>, task_count_budget: usize) -> (result:
    Result<Vec<Vec<Slot>>, SplitError>)
    requires
        total_count(task_count_per_children@) <= usize::MAX,
    ensures
        match (result, split_outcome(task_count_per_children@, task_count_budget)) {
            (Ok(tasks), Ok(runs)) => tasks@.len() == runs.len() && forall|t: int|
                0 <= t < runs.len() ==> (#[trigger] tasks@[t])@ == runs[t],
            (Err(e), Err(expected)) => e == expected,
            _ => false,
        },
{
    let ghost original = task_count_per_children@;
    let total: usize = sum_tasks(&task_count_per_children);
    if task_count_budget > total {
        return Err(SplitError::BudgetTooLarge { budget: task_count_budget, total });
    }
    if task_count_budget == 0 {
        return Err(SplitError::EmptyBudget);
    }
    let counts = trim(task_count_per_children, total - task_count_budget);
    proof {
        trimming_is_fair(original, (total - task_count_budget) as nat);
    }
    let trimmed_total: usize = sum_tasks(&counts);
    let base: usize = trimmed_total / task_count_budget;
    let mut extra: usize = trimmed_total % task_count_budget;
    let ghost slots = all_slots(counts@);
    let ghost budget = task_count_budget as nat;
    let ghost n = trimmed_total as nat;
    proof {
        lemma_slots_len(counts@);
        lemma_run_start(n, budget, 0);
        assert(base >= 1) by (nonlinear_arith)
            requires
                base == trimmed_total as int / task_count_budget as int,
                trimmed_total >= task_count_budget,
                task_count_budget > 0,
        ;
    }
    let mut result: Vec<Vec<Slot>> = Vec::new();
    for t in 0..task_count_budget
        invariant
            result@.len() == t,
            forall|u: int| 0 <= u < t ==> (#[trigger] result@[u])@ =~= Seq::<Slot>::empty(),
    {
        result.push(Vec::new());
    }
    let mut task_idx: usize = 0;
    let mut filled: usize = 0;
    let mut capacity: usize = base;
    if extra > 0 {
        extra = extra - 1;
        capacity = capacity + 1;
    }
    let ghost mut dealt: int = 0;
    proof {
        assert(slots.subrange(0, 0) =~= Seq::<Slot>::empty());
    }
    for child_idx in 0..counts.len()
        invariant
            counts@.len() <= usize::MAX,
            slots == all_slots(counts@),
            slots.len() == n,
            n == trimmed_total,
            budget == task_count_budget,
            budget > 0,
            base == trimmed_total as int / task_count_budget as int,
            base >= 1,
            n >= budget,
            dealt == total_count(counts@.take(child_idx as int)),
            0 <= dealt <= n,
            0 <= task_idx < budget,
            dealt == run_start(n, budget, task_idx as int) + filled,
            capacity == run_start(n, budget, task_idx + 1) - run_start(n, budget, task_idx as int),
            task_idx < budget - 1 ==> filled < capacity,
            extra == if task_idx + 1 <= n % budget { (n % budget) - (task_idx + 1) } else { 0 },
            result@.len() == budget,
            forall|u: int|
                0 <= u < task_idx ==> (#[trigger] result@[u])@ == slots.subrange(
                    run_start(n, budget, u),
                    run_start(n, budget, u + 1),
                ),
            result@[task_idx as int]@ == slots.subrange(
                run_start(n, budget, task_idx as int),
                dealt,
            ),
            forall|u: int|
                task_idx < u < budget ==> (#[trigger] result@[u])@ =~= Seq::<Slot>::empty(),
    {
        let child_task_count: usize = counts[child_idx];
        let ghost first = dealt;
        proof {
            assert(counts@.take(child_idx + 1).drop_last() =~= counts@.take(child_idx as int));
            lemma_total_prefix(counts@, child_idx + 1);
            lemma_slots_prefix(counts@, child_idx as int);
        }
        for task_i in 0..child_task_count
            invariant
                child_idx < counts@.len(),
                counts@.len() <= usize::MAX,
                child_task_count == counts@[child_idx as int],
                slots == all_slots(counts@),
                slots.len() == n,
                n == trimmed_total,
                budget == task_count_budget,
                budget > 0,
                base == trimmed_total as int / task_count_budget as int,
                base >= 1,
                n >= budget,
                first == total_count(counts@.take(child_idx as int)),
                first + child_task_count <= n,
                forall|k: int|
                    0 <= k < child_task_count ==> #[trigger] slots[first + k] == (
                        child_idx,
                        DistributedTaskContext {
                            task_index: k as usize,
                            task_count: child_task_count,
                        },
                    ),
                dealt == first + task_i,
                0 <= task_idx < budget,
                dealt == run_start(n, budget, task_idx as int) + filled,
                capacity == run_start(n, budget, task_idx + 1) - run_start(
                    n,
                    budget,
                    task_idx as int,
                ),
                task_idx < budget - 1 ==> filled < capacity,
                extra == if task_idx + 1 <= n % budget {
                    (n % budget) - (task_idx + 1)
                } else {
                    0
                },
                result@.len() == budget,
                forall|u: int|
                    0 <= u < task_idx ==> (#[trigger] result@[u])@ == slots.subrange(
                        run_start(n, budget, u),
                        run_start(n, budget, u + 1),
                    ),
                result@[task_idx as int]@ == slots.subrange(
                    run_start(n, budget, task_idx as int),
                    dealt,
                ),
                forall|u: int|
                    task_idx < u < budget ==> (#[trigger] result@[u])@ =~= Seq::<Slot>::empty(),
        {
            let slot = (
                child_idx,
                DistributedTaskContext { task_index: task_i, task_count: child_task_count },
            );
            let ghost before = result@;
            proof {
                lemma_run_start(n, budget, task_idx as int);
                assert(slots[first + task_i] == slot);
            }
            result[task_idx].push(slot);
            proof {
                assert(result@[task_idx as int]@ =~= slots.subrange(
                    run_start(n, budget, task_idx as int),
                    dealt + 1,
                ));
                assert forall|u: int| 0 <= u < budget && u != task_idx implies (
                #[trigger] result@[u])@ == before[u]@ by {}
                dealt = dealt + 1;
            }
            filled = filled + 1;
            if filled >= capacity && task_idx < task_count_budget - 1 {
                proof {
                    lemma_run_start(n, budget, task_idx + 1);
                    assert(slots.subrange(dealt, dealt) =~= Seq::<Slot>::empty());
                }
                task_idx = task_idx + 1;
                filled = 0;
                capacity = base;
                if extra > 0 {
                    extra = extra - 1;
                    capacity = capacity + 1;
                }
            }
        }
    }
    proof {
        assert(counts@.take(counts@.len() as int) =~= counts@);
        lemma_run_start(n, budget, task_idx as int);
        if task_idx < budget - 1 {
            assert(dealt < run_start(n, budget, task_idx + 1));
            assert(false);
        }
        let runs = task_runs(original, budget);
        assert forall|t: int| 0 <= t < runs.len() implies (#[trigger] result@[t])@ == runs[t] by {}
    }
    Ok(result)
}

pub(crate) proof fn lemma_slots_prefix(counts: Seq<usize>, i: int)
    requires
        0 <= i < counts.len(),
        counts.len() <= usize::MAX,
    ensures
        total_count(counts.take(i)) + counts[i] <= all_slots(counts).len(),
        forall|k: int|
            0 <= k < counts[i] ==> #[trigger] all_slots(counts)[total_count(counts.take(i)) + k]
                == (
                i as usize,
                DistributedTaskContext { task_index: k as usize, task_count: counts[i] },
            ),
    decreases counts.len(),
{
    let front = counts.drop_last();
    lemma_slots_len(front);
    lemma_slots_len(counts);
    if i == counts.len() - 1 {
        assert(counts.take(i) =~= front);
    } else {
        lemma_slots_prefix(front, i);
        assert(front.take(i) =~= counts.take(i));
    }
}

proof fn lemma_slot_children(counts: Seq<usize>, a: int, b: int)
    requires
        counts.len() <= usize::MAX,
        0 <= a < b < all_slots(counts).len(),
    ensures
        all_slots(counts)[a].0 < counts.len(),
        all_slots(counts)[b].0 < counts.len(),
        all_slots(counts)[a].0 <= all_slots(counts)[b].0,
        all_slots(counts)[a].1.task_count == counts[all_slots(counts)[a].0 as int],
        all_slots(counts)[b].1.task_count == counts[all_slots(counts)[b].0 as int],
        all_single(counts) ==> all_slots(counts)[a].0 < all_slots(counts)[b].0,
    decreases counts.len(),
{
    let front = counts.drop_last();
    let m = all_slots(front).len();
    if b < m {
        lemma_slot_children(front, a, b);
        if all_single(counts) {
            assert forall|j: int| 0 <= j < front.len() implies #[trigger] front[j] <= 1 by {
                assert(counts[j] <= 1);
            }
        }
    } else {
        if a < m {
            lemma_slot_in_range(front, a);
        }
        if all_single(counts) {
            assert(counts[counts.len() - 1] <= 1);
        }
    }
}

pub(crate) proof fn lemma_slot_in_range(counts: Seq<usize>, a: int)
    requires
        counts.len() <= usize::MAX,
        0 <= a < all_slots(counts).len(),
    ensures
        all_slots(counts)[a].0 < counts.len(),
        all_slots(counts)[a].1.task_count == counts[all_slots(counts)[a].0 as int],
        all_slots(counts)[a].1.task_index < all_slots(counts)[a].1.task_count,
    decreases counts.len(),
{
    let front = counts.drop_last();
    if a < all_slots(front).len() {
        lemma_slot_in_range(front, a);
    }
}

/// Every piece of every child is run by exactly one task: the runs of the tasks, one after the
/// other, are the pieces of the first child, then those of the second, and so on. The tasks run
/// almost the same number of pieces, and at least one each.
pub proof fn split_covers_every_piece(counts: Seq<usize>, budget: usize, t: int)
    requires
        0 < budget <= total_count(counts),
        0 <= t < budget,
    ensures
        ({
            let trimmed = trim_tasks(counts, (total_count(counts) - budget) as nat);
            let slots = all_slots(trimmed);
            let runs = task_runs(counts, budget as nat);
            &&& runs.len() == budget
            &&& run_start(slots.len(), budget as nat, 0) == 0
            &&& run_start(slots.len(), budget as nat, budget as int) == slots.len()
            &&& runs[t] == slots.subrange(
                run_start(slots.len(), budget as nat, t),
                run_start(slots.len(), budget as nat, t + 1),
            )
            &&& 1 <= runs[t].len()
            &&& slots.len() / budget as nat <= runs[t].len() <= slots.len() / budget as nat + 1
        }),
{
    let trimmed = trim_tasks(counts, (total_count(counts) - budget) as nat);
    trimming_is_fair(counts, (total_count(counts) - budget) as nat);
    lemma_slots_len(trimmed);
    let n = all_slots(trimmed).len();
    lemma_run_start(n, budget as nat, t);
    lemma_run_start(n, budget as nat, 0);
    assert(n / budget as nat >= 1) by (nonlinear_arith)
        requires
            n >= budget,
            budget > 0,
    ;
}

/// No task runs two pieces of the same child.
pub proof fn split_isolates_children(counts: Seq<usize>, budget: usize, t: int, a: int, b: int)
    requires
        counts.len() <= usize::MAX,
        0 < budget <= total_count(counts),
        0 <= t < budget,
        0 <= a < b < task_runs(counts, budget as nat)[t].len(),
    ensures
        task_runs(counts, budget as nat)[t][a].0 < task_runs(counts, budget as nat)[t][b].0,
        task_runs(counts, budget as nat)[t][b].0 < counts.len(),
{
    let trimmed = trim_tasks(counts, (total_count(counts) - budget) as nat);
    let slots = all_slots(trimmed);
    trimming_is_fair(counts, (total_count(counts) - budget) as nat);
    lemma_slots_len(trimmed);
    let n = slots.len();
    lemma_run_start(n, budget as nat, t);
    let start = run_start(n, budget as nat, t);
    lemma_slot_children(trimmed, start + a, start + b);
    if total_count(trimmed) == budget {
        vstd::arithmetic::div_mod::lemma_fundamental_div_mod_converse(
            n as int,
            budget as int,
            1,
            0,
        );
        assert(false);
    }
}

/// The partitions of all the children that a task runs.
pub open spec fn run_partitions(run: Seq<Slot>, child_partitions: Seq<usize>) -> nat
    decreases run.len(),
{
    if run.len() == 0 {
        0
    } else {
        run_partitions(run.drop_last(), child_partitions)
            + child_partitions[run.last().0 as int] as nat
    }
}

/// The partitions of the task that has the most of them.
pub open spec fn most_partitions(runs: Seq<Seq<Slot>>, child_partitions: Seq<usize>) -> nat
    decreases runs.len(),
{
    if runs.len() == 0 {
        0
    } else {
        let rest = most_partitions(runs.drop_last(), child_partitions);
        let last = run_partitions(runs.last(), child_partitions);
        if last > rest { last } else { rest }
    }
}

/// The children of the run come in increasing order.
pub open spec fn increasing_children(run: Seq<Slot>) -> bool {
    forall|a: int, b: int| 0 <= a < b < run.len() ==> #[trigger] run[a].0 < #[trigger] run[b].0
}

proof fn lemma_run_partitions_bound(run: Seq<Slot>, child_partitions: Seq<usize>, end: int)
    requires
        increasing_children(run),
        0 <= end <= child_partitions.len(),
        forall|a: int| 0 <= a < run.len() ==> #[trigger] run[a].0 < end,
    ensures
        run_partitions(run, child_partitions) <= total_count(child_partitions.take(end)),
    decreases run.len(),
{
    if run.len() > 0 {
        let front = run.drop_last();
        let last = run.last().0 as int;
        assert(run[run.len() - 1].0 < end);
        assert forall|a: int| 0 <= a < front.len() implies #[trigger] front[a].0 < last by {
            assert(run[a].0 < run[run.len() - 1].0);
        }
        assert(increasing_children(front)) by {
            assert forall|a: int, b: int| 0 <= a < b < front.len() implies #[trigger] front[a].0
                < #[trigger] front[b].0 by {
                assert(run[a].0 < run[b].0);
            }
        }
        lemma_run_partitions_bound(front, child_partitions, last);
        assert(child_partitions.take(last + 1).drop_last() =~= child_partitions.take(last));
        lemma_total_prefix(child_partitions.take(end), last + 1);
        assert(child_partitions.take(end).take(last + 1) =~= child_partitions.take(last + 1));
    }
}

/// A union whose children are spread over the tasks of its stage, so that each task runs only
/// some of them. It keeps what it needs to know of its children: how many partitions each has.
#[derive(Debug)]
pub struct ChildrenIsolatorUnionExec {
    pub child_partitions: Vec<usize>,
    pub partition_count: usize,
    pub task_idx_map: Vec<Vec<Slot>>,
}

/// A partition of a union, found in the child that produces it.
#[derive(Debug, Clone, Copy, PartialEq, Eq, Structural)]
pub struct LocatedPartition {
    pub child_idx: usize,
    pub partition: usize,
    pub task_ctx: DistributedTaskContext,
}

/// Finds a partition of a task among the children that the task runs: the partitions of the
/// first child come first, then those of the second, and so on. Past the last one there is
/// nothing. A child index that does not exist is an error.
pub open spec fn locate(run: Seq<Slot>, child_partitions: Seq<usize>, partition: usize) -> Result<
    Option<LocatedPartition>,
    ChildError,
>
    decreases run.len(),
{
    if run.len() == 0 {
        Ok(None)
    } else {
        let (child_idx, task_ctx) = run[0];
        if child_idx >= child_partitions.len() {
            Err(ChildError::NotFound(child_idx))
        } else if partition < child_partitions[child_idx as int] {
            Ok(Some(LocatedPartition { child_idx, partition, task_ctx }))
        } else {
            locate(
                run.drop_first(),
                child_partitions,
                (partition - child_partitions[child_idx as int]) as usize,
            )
        }
    }
}

/// Every partition of every child that a task runs is served under a number of its own: the
/// `p`-th partition of the `i`-th child under `p` plus the partitions of the children before.
pub proof fn every_child_partition_is_located(
    run: Seq<Slot>,
    child_partitions: Seq<usize>,
    i: int,
    p: usize,
)
    requires
        forall|a: int| 0 <= a < run.len() ==> #[trigger] run[a].0 < child_partitions.len(),
        0 <= i < run.len(),
        p < child_partitions[run[i].0 as int],
        run_partitions(run.take(i), child_partitions) + p <= usize::MAX,
    ensures
        locate(
            run,
            child_partitions,
            (run_partitions(run.take(i), child_partitions) + p) as usize,
        ) == Ok::<Option<LocatedPartition>, ChildError>(
            Some(
                LocatedPartition { child_idx: run[i].0, partition: p, task_ctx: run[i].1 },
            ),
        ),
    decreases i,
{
    assert(run[0].0 < child_partitions.len());
    if i == 0 {
        assert(run.take(0) =~= Seq::empty());
    } else {
        let rest = run.drop_first();
        assert forall|a: int| 0 <= a < rest.len() implies #[trigger] rest[a].0
            < child_partitions.len() by {
            assert(run[a + 1].0 < child_partitions.len());
        }
        lemma_run_partitions_first(run.take(i), child_partitions);
        assert(run.take(i).drop_first() =~= rest.take(i - 1));
        every_child_partition_is_located(rest, child_partitions, i - 1, p);
    }
}

proof fn lemma_run_partitions_first(run: Seq<Slot>, child_partitions: Seq<usize>)
    requires
        run.len() > 0,
    ensures
        run_partitions(run, child_partitions) == child_partitions[run[0].0 as int]
            + run_partitions(run.drop_first(), child_partitions),
    decreases run.len(),
{
    if run.len() == 1 {
        assert(run.drop_last() =~= Seq::empty());
        assert(run.drop_first() =~= Seq::empty());
    } else {
        lemma_run_partitions_first(run.drop_last(), child_partitions);
        assert(run.drop_last().drop_first() =~= run.drop_first().drop_last());
    }
}

/// How one piece of a child is shown.
pub open spec fn slot_text(slot: Slot) -> Seq<char> {
    if slot.1.task_count > 1 {
        "c"@ + decimal(slot.0 as nat) + "("@ + decimal(slot.1.task_index as nat) + "/"@ + decimal(
            slot.1.task_count as nat,
        ) + ")"@
    } else {
        "c"@ + decimal(slot.0 as nat)
    }
}

/// How the pieces that one task runs are shown.
pub open spec fn run_text(task: int, run: Seq<Slot>) -> Seq<char> {
    " t"@ + decimal(task as nat) + ":["@ + join(run.map_values(|s: Slot| slot_text(s)), ", "@)
        + "]"@
}

/// How a whole union is shown.
pub open spec fn union_text(runs: Seq<Seq<Slot>>) -> Seq<char> {
    "DistributedUnionExec:"@ + concat(Seq::new(runs.len(), |t: int| run_text(t, runs[t])))
}

/// The pieces that each task runs and the partitions of the union, for children with the given
/// partitions that are spread over `task_count` tasks.
pub open spec fn spread_outcome(
    child_partitions: Seq<usize>,
    children_task_count: Seq<usize>,
    task_count: usize,
) -> Result<(Seq<Seq<Slot>>, nat), SplitError> {
    if child_partitions.len() != children_task_count.len() {
        Err(
            SplitError::ChildrenMismatch {
                children: child_partitions.len() as usize,
                task_counts: children_task_count.len() as usize,
            },
        )
    } else {
        match split_outcome(children_task_count, task_count) {
            Err(e) => Err(e),
            Ok(runs) => Ok((runs, most_partitions(runs, child_partitions))),
        }
    }
}

impl ChildrenIsolatorUnionExec {
    /// The pieces that each task runs.
    pub open spec fn runs(&self) -> Seq<Seq<Slot>> {
        Seq::new(self.task_idx_map@.len(), |t: int| self.task_idx_map@[t]@)
    }

    /// Spreads the children over `task_count` tasks, and lets the query engine unite them. The
    /// union has as many partitions as the task that runs the most of them.
    pub fn from_children_and_task_counts<P, E, F>(
        children: &Vec<InputPlan<P>>,
        children_task_count: Vec<usize>,
        task_count: usize,
        unite: F,
    ) -> (result: Result<Self, UnionError<E>>) where F: Fn(&Vec<InputPlan<P>>) -> Result<(), E>
        requires
            total_count(children_task_count@) <= usize::MAX,
            total_count(partitions_of(children@)) <= usize::MAX,
            call_requires(unite, (children,)),
        ensures
            match spread_outcome(partitions_of(children@), children_task_count@, task_count) {
                Err(e) => result == Err::<Self, _>(UnionError::<E>::Split(e)),
                Ok((runs, partition_count)) => exists|united: Result<(), E>| #[trigger]
                    call_ensures(unite, (children,), united) && match united {
                        Err(e) => result == Err::<Self, _>(UnionError::Engine(e)),
                        Ok(()) => result matches Ok(union) && {
                            &&& union.runs() == runs
                            &&& union.child_partitions@ == partitions_of(children@)
                            &&& union.partition_count == partition_count
                        },
                    },
            },
    {
        let mut child_partitions: Vec<usize> = Vec::new();
        for i in 0..children.len()
            invariant
                child_partitions@ =~= partitions_of(children@).take(i as int),
        {
            child_partitions.push(children[i].partitions);
        }
        proof {
            assert(child_partitions@ =~= partitions_of(children@));
        }
        match Self::spread(child_partitions, children_task_count, task_count) {
            Err(e) => Err(UnionError::Split(e)),
            Ok(union) => match unite(children) {
                Err(e) => Err(UnionError::Engine(e)),
                Ok(()) => Ok(union),
            },
        }
    }

    /// Spreads children that the query engine has united before over `task_count` tasks.
    pub(crate) fn spread(
        child_partitions: Vec<usize>,
        children_task_count: Vec<usize>,
        task_count: usize,
    ) -> (result: Result<Self, SplitError>)
        requires
            total_count(children_task_count@) <= usize::MAX,
            total_count(child_partitions@) <= usize::MAX,
        ensures
            match (
                result,
                spread_outcome(child_partitions@, children_task_count@, task_count),
            ) {
                (Ok(union), Ok((runs, partition_count))) => {
                    &&& union.runs() == runs
                    &&& union.child_partitions@ == child_partitions@
                    &&& union.partition_count == partition_count
                },
                (Err(e), Err(expected)) => e == expected,
                _ => false,
            },
    {
        if child_partitions.len() != children_task_count.len() {
            return Err(
                SplitError::ChildrenMismatch {
                    children: child_partitions.len(),
                    task_counts: children_task_count.len(),
                },
            );
        }
        let ghost counts = children_task_count@;
        let task_idx_map = match split_children(children_task_count, task_count) {
            Ok(map) => map,
            Err(e) => {
                return Err(e);
            },
        };
        let ghost runs = task_runs(counts, task_count as nat);
        let mut partition_count: usize = 0;
        for t in 0..task_idx_map.len()
            invariant
                task_idx_map@.len() == runs.len(),
                runs == task_runs(counts, task_count as nat),
                0 < task_count <= total_count(counts),
                counts.len() == child_partitions@.len(),
                counts.len() <= usize::MAX,
                total_count(child_partitions@) <= usize::MAX,
                forall|u: int| 0 <= u < runs.len() ==> (#[trigger] task_idx_map@[u])@ == runs[u],
                partition_count == most_partitions(runs.take(t as int), child_partitions@),
        {
            let run = &task_idx_map[t];
            let mut partitions: usize = 0;
            proof {
                assert(run@ == runs[t as int]);
                assert forall|a: int, b: int| 0 <= a < b < run@.len() implies #[trigger] run@[a].0
                    < #[trigger] run@[b].0 by {
                    split_isolates_children(counts, task_count, t as int, a, b);
                }
                assert forall|a: int| 0 <= a < run@.len() implies #[trigger] run@[a].0
                    < counts.len() by {
                    lemma_run_in_range(counts, task_count, t as int, a);
                }
            }
            for i in 0..run.len()
                invariant
                    increasing_children(run@),
                    forall|a: int|
                        0 <= a < run@.len() ==> #[trigger] run@[a].0 < child_partitions@.len(),
                    total_count(child_partitions@) <= usize::MAX,
                    partitions == run_partitions(run@.take(i as int), child_partitions@),
            {
                let child_idx: usize = run[i].0;
                proof {
                    let prefix = run@.take(i + 1);
                    assert(prefix.drop_last() =~= run@.take(i as int));
                    assert(increasing_children(prefix)) by {
                        assert forall|a: int, b: int|
                            0 <= a < b < prefix.len() implies #[trigger] prefix[a].0
                            < #[trigger] prefix[b].0 by {
                            assert(run@[a].0 < run@[b].0);
                        }
                    }
                    assert forall|a: int| 0 <= a < prefix.len() implies #[trigger] prefix[a].0
                        < child_partitions@.len() by {
                        assert(run@[a].0 < child_partitions@.len());
                    }
                    lemma_run_partitions_bound(
                        prefix,
                        child_partitions@,
                        child_partitions@.len() as int,
                    );
                    assert(child_partitions@.take(child_partitions@.len() as int)
                        =~= child_partitions@);
                    assert(run@[i as int].0 < child_partitions@.len());
                }
                partitions = partitions + child_partitions[child_idx];
            }
            proof {
                assert(run@.take(run@.len() as int) =~= run@);
                assert(runs.take(t + 1).drop_last() =~= runs.take(t as int));
            }
            if partitions > partition_count {
                partition_count = partitions;
            }
        }
        let union = ChildrenIsolatorUnionExec { child_partitions, partition_count, task_idx_map };
        proof {
            assert(runs.take(runs.len() as int) =~= runs);
            assert(union.runs() =~= runs);
        }
        Ok(union)
    }

    /// The child, and the partition of it, that the given partition of the given task is.
    pub fn locate_partition(&self, task_index: usize, partition: usize) -> (located: Result<
        Option<LocatedPartition>,
        ChildError,
    >)
        requires
            task_index < self.task_idx_map@.len(),
        ensures
            located == locate(
                self.task_idx_map@[task_index as int]@,
                self.child_partitions@,
                partition,
            ),
    {
        let run = &self.task_idx_map[task_index];
        let mut left: usize = partition;
        proof {
            assert(run@.skip(0) =~= run@);
        }
        for i in 0..run.len()
            invariant
                run@ == self.task_idx_map@[task_index as int]@,
                locate(run@.skip(i as int), self.child_partitions@, left) == locate(
                    run@,
                    self.child_partitions@,
                    partition,
                ),
        {
            let (child_idx, task_ctx) = run[i];
            proof {
                assert(run@.skip(i as int).drop_first() =~= run@.skip(i + 1));
            }
            if child_idx >= self.child_partitions.len() {
                return Err(ChildError::NotFound(child_idx));
            }
            let partitions: usize = self.child_partitions[child_idx];
            if left < partitions {
                return Ok(Some(LocatedPartition { child_idx, partition: left, task_ctx }));
            }
            left = left - partitions;
        }
        Ok(None)
    }

    /// Replaces the children, given the partitions of the new ones. Their number must not change.
    pub fn with_new_children(self, child_partitions: Vec<usize>) -> (result: Result<
        Self,
        ChildError,
    >)
        ensures
            child_partitions@.len() != self.child_partitions@.len() ==> result == Err::<
                Self,
                ChildError,
            >(
                ChildError::CountChanged {
                    have: child_partitions@.len() as usize,
                    expected: self.child_partitions@.len() as usize,
                },
            ),
            child_partitions@.len() == self.child_partitions@.len() ==> (result matches Ok(union)
                && union.child_partitions == child_partitions && union.partition_count
                == self.partition_count && union.task_idx_map == self.task_idx_map),
    {
        if child_partitions.len() != self.child_partitions.len() {
            return Err(
                ChildError::CountChanged {
                    have: child_partitions.len(),
                    expected: self.child_partitions.len(),
                },
            );
        }
        Ok(
            ChildrenIsolatorUnionExec {
                child_partitions,
                partition_count: self.partition_count,
                task_idx_map: self.task_idx_map,
            },
        )
    }

    /// Shows which children each task runs.
    pub fn fmt_as(&self, t: DisplayFormatType) -> (text: String)
        ensures
            text@ == if t is TreeRender { Seq::empty() } else { union_text(self.runs()) },
    {
        let mut out = String::new();
        if matches!(t, DisplayFormatType::TreeRender) {
            return out;
        }
        out.push_str("DistributedUnionExec:");
        let ghost runs = self.runs();
        let ghost mut shown: Seq<Seq<char>> = Seq::empty();
        proof {
            assert(out@ =~= "DistributedUnionExec:"@ + concat(shown));
        }
        for task_i in 0..self.task_idx_map.len()
            invariant
                runs == self.runs(),
                shown =~= Seq::new(task_i as nat, |t: int| run_text(t, runs[t])),
                out@ == "DistributedUnionExec:"@ + concat(shown),
        {
            let run = &self.task_idx_map[task_i];
            let ghost start = out@;
            out.push_str(" t");
            push_usize(&mut out, task_i);
            out.push_str(":[");
            let ghost head = out@;
            let ghost mut parts: Seq<Seq<char>> = Seq::empty();
            proof {
                assert(out@ =~= head + join(parts, ", "@));
            }
            for i in 0..run.len()
                invariant
                    parts =~= run@.take(i as int).map_values(|s: Slot| slot_text(s)),
                    out@ == head + join(parts, ", "@),
            {
                if i > 0 {
                    out.push_str(", ");
                }
                let slot = run[i];
                let ghost before = out@;
                out.push_str("c");
                push_usize(&mut out, slot.0);
                if slot.1.task_count > 1 {
                    out.push_str("(");
                    push_usize(&mut out, slot.1.task_index);
                    out.push_str("/");
                    push_usize(&mut out, slot.1.task_count);
                    out.push_str(")");
                }
                proof {
                    assert(out@ =~= before + slot_text(slot));
                    lemma_join_push(parts, ", "@, slot_text(slot));
                    parts = parts.push(slot_text(slot));
                    assert(out@ =~= head + join(parts, ", "@));
                }
            }
            out.push_str("]");
            proof {
                assert(run@.take(run@.len() as int) =~= run@);
                let part = run_text(task_i as int, runs[task_i as int]);
                assert(out@ =~= start + part);
                lemma_concat_push(shown, part);
                shown = shown.push(part);
                assert(out@ =~= "DistributedUnionExec:"@ + concat(shown));
            }
        }
        proof {
            assert(shown =~= Seq::new(runs.len(), |t: int| run_text(t, runs[t])));
        }
        out
    }
}

proof fn lemma_run_in_range(counts: Seq<usize>, budget: usize, t: int, a: int)
    requires
        counts.len() <= usize::MAX,
        0 < budget <= total_count(counts),
        0 <= t < budget,
        0 <= a < task_runs(counts, budget as nat)[t].len(),
    ensures
        task_runs(counts, budget as nat)[t][a].0 < counts.len(),
{
    let trimmed = trim_tasks(counts, (total_count(counts) - budget) as nat);
    trimming_is_fair(counts, (total_count(counts) - budget) as nat);
    lemma_slots_len(trimmed);
    let n = all_slots(trimmed).len();
    lemma_run_start(n, budget as nat, t);
    lemma_slot_in_range(trimmed, run_start(n, budget as nat, t) + a);
}

/// What a stream of batches gave when it was polled.
#[derive(Debug, Clone, Copy, PartialEq, Eq, Structural)]
pub enum StreamPoll {
    Pending,
    /// A batch with this many rows.
    Batch(usize),
    Failed,
    Finished,
}

/// Counts the rows that a stream has produced and cuts it off after `fetch` of them.
#[derive(Debug, Clone, Copy, PartialEq, Eq, Structural)]
pub struct ObservedStream {
    pub fetch: Option<usize>,
    pub produced: usize,
}

/// What is handed on when an observed stream gives `poll`.
pub open spec fn observed_poll(stream: ObservedStream, poll: StreamPoll) -> StreamPoll {
    match (stream.fetch, poll) {
        (None, _) => poll,
        (Some(fetch), _) if stream.produced >= fetch => StreamPoll::Finished,
        (Some(fetch), StreamPoll::Batch(rows)) => if stream.produced + rows > fetch {
            StreamPoll::Batch((fetch - stream.produced) as usize)
        } else {
            poll
        },
        _ => poll,
    }
}

/// The rows of a batch. Anything else has none.
pub open spec fn rows_of(poll: StreamPoll) -> usize {
    match poll {
        StreamPoll::Batch(rows) => rows,
        _ => 0,
    }
}

/// An observed stream after it was given `poll`. Rows are counted only where they are limited.
pub open spec fn observed_after(stream: ObservedStream, poll: StreamPoll) -> ObservedStream {
    match stream.fetch {
        None => stream,
        Some(_) => ObservedStream {
            produced: (stream.produced + rows_of(observed_poll(stream, poll))) as usize,
            ..stream
        },
    }
}

impl ObservedStream {
    /// A stream that has produced nothing yet.
    pub fn new(fetch: Option<usize>) -> (stream: Self)
        ensures
            stream.fetch == fetch,
            stream.produced == 0,
    {
        ObservedStream { fetch, produced: 0 }
    }

    /// Hands on what the inner stream gave, cut down to the rows that are still wanted.
    pub fn limit_reached(&mut self, poll: StreamPoll) -> (handed_on: StreamPoll)
        requires
            old(self).fetch matches Some(fetch) && old(self).produced < fetch ==> old(self).produced
                + rows_of(poll) <= usize::MAX,
        ensures
            handed_on == observed_poll(*old(self), poll),
            *final(self) == observed_after(*old(self), poll),
            old(self).fetch matches Some(fetch) ==> (old(self).produced <= fetch ==> {
                &&& final(self).produced == old(self).produced + rows_of(handed_on)
                &&& final(self).produced <= fetch
            }),
    {
        let fetch: usize = match self.fetch {
            None => {
                return poll;
            },
            Some(fetch) => fetch,
        };
        if self.produced >= fetch {
            return StreamPoll::Finished;
        }
        if let StreamPoll::Batch(rows) = poll {
            if self.produced + rows > fetch {
                let kept: usize = fetch - self.produced;
                self.produced = self.produced + kept;
                return StreamPoll::Batch(kept);
            }
            self.produced = self.produced + rows;
        }
        poll
    }
}

/// The rows that are handed on of a stream that gives some polls.
pub open spec fn rows_handed_on(stream: ObservedStream, polls: Seq<StreamPoll>) -> nat
    decreases polls.len(),
{
    if polls.len() == 0 {
        0
    } else {
        rows_of(observed_poll(stream, polls[0])) as nat + rows_handed_on(
            observed_after(stream, polls[0]),
            polls.drop_first(),
        )
    }
}

/// An observed stream never hands on more than `fetch` rows in all, whatever the inner stream gives
/// and however often it is asked.
pub proof fn observed_stream_stays_within_fetch(stream: ObservedStream, polls: Seq<StreamPoll>)
    requires
        stream.fetch matches Some(fetch) && stream.produced <= fetch,
    ensures
        stream.produced + rows_handed_on(stream, polls) <= stream.fetch->0,
    decreases polls.len(),
{
    if polls.len() > 0 {
        observed_stream_stays_within_fetch(observed_after(stream, polls[0]), polls.drop_first());
    }
}

} // verus!
