use crate::execution_plans::children_isolator_union::{lemma_run_start, run_start};
use crate::stage::DistributedTaskContext;
use crate::text::{
    concat, decimal, join, lemma_concat_push, lemma_join_push, push_usize, DisplayFormatType,
};
use vstd::prelude::*;

verus! {

/// The partitions that a task reads when `partitions` of them are handed to `tasks` tasks in
/// contiguous groups of nearly equal size.
pub open spec fn group_of(partitions: nat, tasks: nat, task: int) -> Seq<usize> {
    Seq::new(
        (run_start(partitions, tasks, task + 1) - run_start(partitions, tasks, task)) as nat,
        |j: int| (run_start(partitions, tasks, task) + j) as usize,
    )
}

/// Every partition is read by exactly one task, and the task that reads it does so under its place
/// in the group.
pub proof fn groups_cover_every_partition(partitions: nat, tasks: nat, partition: int) -> (task:
    int)
    requires
        tasks > 0,
        partitions <= usize::MAX,
        0 <= partition < partitions,
    ensures
        0 <= task < tasks,
        group_of(partitions, tasks, task).contains(partition as usize),
        forall|other: int|
            0 <= other < tasks && #[trigger] group_of(partitions, tasks, other).contains(
                partition as usize,
            ) ==> other == task,
{
    lemma_run_start(partitions, tasks, 0);
    let task = lemma_group_before(partitions, tasks, partition, tasks as int);
    lemma_run_start(partitions, tasks, task);
    let j = partition - run_start(partitions, tasks, task);
    assert(group_of(partitions, tasks, task)[j] == partition as usize);
    assert forall|other: int|
        0 <= other < tasks && #[trigger] group_of(partitions, tasks, other).contains(
            partition as usize,
        ) implies other == task by {
        lemma_run_start(partitions, tasks, other);
        if other < task {
            lemma_starts_increase(partitions, tasks, other + 1, task);
        } else if task < other {
            lemma_starts_increase(partitions, tasks, task + 1, other);
        }
    }
    task
}

proof fn lemma_group_before(partitions: nat, tasks: nat, partition: int, end: int) -> (task: int)
    requires
        tasks > 0,
        0 <= end <= tasks,
        0 <= partition < run_start(partitions, tasks, end),
    ensures
        0 <= task < end,
        run_start(partitions, tasks, task) <= partition < run_start(partitions, tasks, task + 1),
    decreases end,
{
    if end == 0 {
        lemma_run_start(partitions, tasks, 0);
        0
    } else {
        lemma_run_start(partitions, tasks, end - 1);
        if partition < run_start(partitions, tasks, end - 1) {
            lemma_group_before(partitions, tasks, partition, end - 1)
        } else {
            end - 1
        }
    }
}

pub(crate) proof fn lemma_starts_increase(partitions: nat, tasks: nat, a: int, b: int)
    requires
        tasks > 0,
        0 <= a <= b <= tasks,
    ensures
        run_start(partitions, tasks, a) <= run_start(partitions, tasks, b),
    decreases b - a,
{
    if a < b {
        lemma_run_start(partitions, tasks, b - 1);
        lemma_starts_increase(partitions, tasks, a, b - 1);
    }
}

/// The groups of any two tasks differ in size by at most one, and the first group is the largest.
pub proof fn groups_are_balanced(partitions: nat, tasks: nat, task: int)
    requires
        0 <= task < tasks,
    ensures
        group_of(partitions, tasks, task).len() <= group_of(partitions, tasks, 0).len()
            <= group_of(partitions, tasks, task).len() + 1,
{
    lemma_run_start(partitions, tasks, task);
    lemma_run_start(partitions, tasks, 0);
}

/// Shows each task only its share of the partitions of the plan below.
#[derive(Debug, Clone, Copy, PartialEq, Eq, Structural)]
pub struct PartitionIsolatorExec {
    /// The partitions of the plan below.
    pub input_partitions: usize,
    pub n_tasks: usize,
    /// The partitions that the node shows: those of the largest share.
    pub partition_count: usize,
}

/// The partition of the plan below that is run for the `partition`-th of a task: the one at that place
/// in the group of the task. Past the group there is none.
pub open spec fn partition_run(
    input_partitions: usize,
    task_ctx: DistributedTaskContext,
    partition: usize,
) -> Option<usize> {
    let group = group_of(
        input_partitions as nat,
        task_ctx.task_count as nat,
        task_ctx.task_index as int,
    );
    if partition < group.len() {
        Some(group[partition as int])
    } else {
        None
    }
}

/// Over all the tasks and all their partitions, every partition of the plan below is run exactly once:
/// by one task, as one of its partitions.
pub proof fn every_partition_is_run_once(input_partitions: usize, task_count: usize, actual: usize) -> (
place: (usize, usize))
    requires
        task_count > 0,
        actual < input_partitions,
    ensures
        place.0 < task_count,
        partition_run(
            input_partitions,
            DistributedTaskContext { task_index: place.0, task_count },
            place.1,
        ) == Some(actual),
        forall|task_index: usize, partition: usize|
            task_index < task_count && #[trigger] partition_run(
                input_partitions,
                DistributedTaskContext { task_index, task_count },
                partition,
            ) == Some(actual) ==> (task_index, partition) == place,
{
    let (n, tasks) = (input_partitions as nat, task_count as nat);
    let task = groups_cover_every_partition(n, tasks, actual as int);
    lemma_run_start(n, tasks, task);
    lemma_in_group(n, tasks, task, actual);
    let place = (task as usize, (actual - run_start(n, tasks, task)) as usize);
    assert forall|task_index: usize, partition: usize|
        task_index < task_count && #[trigger] partition_run(
            input_partitions,
            DistributedTaskContext { task_index, task_count },
            partition,
        ) == Some(actual) implies (task_index, partition) == place by {
        let group = group_of(n, tasks, task_index as int);
        assert(group[partition as int] == actual);
        assert(group.contains(actual));
        lemma_run_start(n, tasks, task_index as int);
        lemma_in_group(n, tasks, task_index as int, actual);
    }
    place
}

/// A partition of a group lies between the start of the group and that of the next one.
proof fn lemma_in_group(partitions: nat, tasks: nat, task: int, partition: usize)
    requires
        0 <= task < tasks,
        partitions <= usize::MAX,
        group_of(partitions, tasks, task).contains(partition),
    ensures
        run_start(partitions, tasks, task) <= partition < run_start(partitions, tasks, task + 1),
        run_start(partitions, tasks, task + 1) <= partitions,
{
    lemma_run_start(partitions, tasks, task);
    let group = group_of(partitions, tasks, task);
    let j = choose|j: int| 0 <= j < group.len() && group[j] == partition;
    assert(group[j] == (run_start(partitions, tasks, task) + j) as usize);
}

/// How the partition `p` is shown among those of a task whose group begins at `start`.
pub open spec fn partition_text(group: Seq<usize>, start: int, p: int) -> Seq<char> {
    if start <= p < start + group.len() {
        "p"@ + decimal((p - start) as nat)
    } else {
        "__"@
    }
}

/// How the partitions of one task are shown.
pub open spec fn group_text(partitions: nat, tasks: nat, task: int) -> Seq<char> {
    let group = group_of(partitions, tasks, task);
    let start = run_start(partitions, tasks, task);
    "t"@ + decimal(task as nat) + ":["@ + join(
        Seq::new(partitions, |p: int| partition_text(group, start, p)),
        ","@,
    ) + "] "@
}

impl PartitionIsolatorExec {
    /// Isolates the partitions of a plan for the tasks of its stage.
    pub fn new(input_partitions: usize, n_tasks: usize) -> (isolator: Self)
        requires
            n_tasks > 0,
        ensures
            isolator.input_partitions == input_partitions,
            isolator.n_tasks == n_tasks,
            isolator.partition_count == group_of(input_partitions as nat, n_tasks as nat, 0).len(),
    {
        let groups = Self::partition_groups(input_partitions, n_tasks);
        PartitionIsolatorExec { input_partitions, n_tasks, partition_count: groups[0].len() }
    }

    /// Hands the partitions to the tasks in contiguous groups of nearly equal size.
    pub fn partition_groups(input_partitions: usize, n_tasks: usize) -> (groups: Vec<Vec<usize>>)
        requires
            n_tasks > 0,
        ensures
            groups@.len() == n_tasks,
            forall|i: int|
                0 <= i < n_tasks ==> (#[trigger] groups@[i])@ == group_of(
                    input_partitions as nat,
                    n_tasks as nat,
                    i,
                ),
    {
        let q: usize = input_partitions / n_tasks;
        let r: usize = input_partitions % n_tasks;
        let mut groups: Vec<Vec<usize>> = Vec::new();
        let mut off: usize = 0;
        let ghost n = input_partitions as nat;
        let ghost tasks = n_tasks as nat;
        proof {
            lemma_run_start(n, tasks, 0);
        }
        for i in 0..n_tasks
            invariant
                n == input_partitions,
                tasks == n_tasks,
                n_tasks > 0,
                q == n / tasks,
                r == n % tasks,
                off == run_start(n, tasks, i as int),
                groups@.len() == i,
                forall|k: int|
                    0 <= k < i ==> (#[trigger] groups@[k])@ == group_of(n, tasks, k),
        {
            proof {
                lemma_run_start(n, tasks, i as int);
            }
            let len: usize = if i < r { q + 1 } else { q };
            let mut group: Vec<usize> = Vec::new();
            for j in 0..len
                invariant
                    off + len <= usize::MAX,
                    group@.len() == j,
                    forall|k: int| 0 <= k < j ==> #[trigger] group@[k] == off + k,
            {
                group.push(off + j);
            }
            proof {
                assert(group@ =~= group_of(n, tasks, i as int));
            }
            groups.push(group);
            off = off + len;
        }
        groups
    }

    /// The partitions that one task reads.
    pub fn partition_group(input_partitions: usize, task_i: usize, n_tasks: usize) -> (group: Vec<
        usize,
    >)
        requires
            task_i < n_tasks,
        ensures
            group@ == group_of(input_partitions as nat, n_tasks as nat, task_i as int),
    {
        let mut groups = Self::partition_groups(input_partitions, n_tasks);
        groups.swap_remove(task_i)
    }

    /// The partition of the plan below that a task reads as its `partition`-th, if it has that
    /// many. It is never past the last partition of the plan below.
    pub fn actual_partition(&self, partition: usize, task_ctx: DistributedTaskContext) -> (actual:
        Option<usize>)
        requires
            task_ctx.task_index < task_ctx.task_count,
        ensures
            actual == partition_run(self.input_partitions, task_ctx, partition),
            actual matches Some(p) ==> p < self.input_partitions,
    {
        let group = Self::partition_group(
            self.input_partitions,
            task_ctx.task_index,
            task_ctx.task_count,
        );
        if partition < group.len() {
            proof {
                lemma_run_start(
                    self.input_partitions as nat,
                    task_ctx.task_count as nat,
                    task_ctx.task_index as int,
                );
            }
            Some(group[partition])
        } else {
            None
        }
    }

    /// Shows how the partitions are shared.
    pub fn fmt_as(&self, t: DisplayFormatType) -> (text: String)
        requires
            t is Verbose ==> self.n_tasks > 0,
        ensures
            text@ == "PartitionIsolatorExec: "@ + if t is Verbose {
                groups_text(self.input_partitions as nat, self.n_tasks as nat)
            } else {
                "tasks="@ + decimal(self.n_tasks as nat) + " partitions="@ + decimal(
                    self.input_partitions as nat,
                )
            },
    {
        let mut out = String::new();
        out.push_str("PartitionIsolatorExec: ");
        let ghost head = "PartitionIsolatorExec: "@;
        proof {
            assert(out@ =~= head);
        }
        if !matches!(t, DisplayFormatType::Verbose) {
            out.push_str("tasks=");
            push_usize(&mut out, self.n_tasks);
            out.push_str(" partitions=");
            push_usize(&mut out, self.input_partitions);
            proof {
                assert(out@ =~= head + ("tasks="@ + decimal(self.n_tasks as nat) + " partitions="@
                    + decimal(self.input_partitions as nat)));
            }
            return out;
        }
        push_groups(&mut out, self.input_partitions, self.n_tasks);
        out
    }
}

/// How the partitions of all the tasks are shown.
pub open spec fn groups_text(partitions: nat, tasks: nat) -> Seq<char> {
    concat(Seq::new(tasks, |i: int| group_text(partitions, tasks, i)))
}

pub(crate) fn push_groups(out: &mut String, input_partitions: usize, n_tasks: usize)
    requires
        n_tasks > 0,
    ensures
        final(out)@ == old(out)@ + groups_text(input_partitions as nat, n_tasks as nat),
{
    let ghost head = out@;
    let groups = PartitionIsolatorExec::partition_groups(input_partitions, n_tasks);
    let ghost n = input_partitions as nat;
    let ghost tasks = n_tasks as nat;
    let ghost mut shown: Seq<Seq<char>> = Seq::empty();
    let mut start: usize = 0;
    proof {
        lemma_run_start(n, tasks, 0);
        assert(out@ =~= head + concat(shown));
    }
    for i in 0..groups.len()
        invariant
            n == input_partitions,
            tasks == n_tasks,
            tasks > 0,
            groups@.len() == tasks,
            forall|k: int|
                0 <= k < tasks ==> (#[trigger] groups@[k])@ == group_of(n, tasks, k),
            start == run_start(n, tasks, i as int),
            shown =~= Seq::new(i as nat, |k: int| group_text(n, tasks, k)),
            out@ == head + concat(shown),
    {
        let ghost before = out@;
        out.push_str("t");
        push_usize(out, i);
        out.push_str(":[");
        let len: usize = groups[i].len();
        let ghost group = groups@[i as int]@;
        let ghost open = out@;
        let ghost mut parts: Seq<Seq<char>> = Seq::empty();
        proof {
            lemma_run_start(n, tasks, i as int);
            assert(group == group_of(n, tasks, i as int));
            assert(out@ =~= open + join(parts, ","@));
        }
        for p in 0..input_partitions
            invariant
                n == input_partitions,
                start + len <= n,
                len == group.len(),
                parts =~= Seq::new(p as nat, |k: int| partition_text(group, start as int, k)),
                out@ == open + join(parts, ","@),
        {
            if p > 0 {
                out.push_str(",");
            }
            let ghost mid = out@;
            if start <= p && p < start + len {
                out.push_str("p");
                push_usize(out, p - start);
            } else {
                out.push_str("__");
            }
            proof {
                let part = partition_text(group, start as int, p as int);
                assert(out@ =~= mid + part);
                lemma_join_push(parts, ","@, part);
                parts = parts.push(part);
                assert(out@ =~= open + join(parts, ","@));
            }
        }
        out.push_str("] ");
        start = start + len;
        proof {
            let part = group_text(n, tasks, i as int);
            assert(parts =~= Seq::new(
                n,
                |k: int| partition_text(group, run_start(n, tasks, i as int), k),
            ));
            assert(out@ =~= before + part);
            lemma_concat_push(shown, part);
            shown = shown.push(part);
            assert(out@ =~= head + concat(shown));
        }
    }
    proof {
        assert(shown =~= Seq::new(
            n_tasks as nat,
            |k: int| group_text(input_partitions as nat, n_tasks as nat, k),
        ));
    }
}

} // verus!
