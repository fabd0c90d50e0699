use vstd::arithmetic::div_mod::{
    lemma_fundamental_div_mod, lemma_fundamental_div_mod_converse, lemma_div_pos_is_pos,
};
use vstd::prelude::*;

verus! {

/// How many tasks a plan wants to run on.
#[derive(Debug, Clone, Copy, PartialEq, Eq, Structural)]
pub enum TaskCountAnnotation {
    /// The desired number of tasks. Other nodes of the stage may raise or lower it.
    Desired(usize),
    /// An upper bound that every node of the stage must respect.
    Maximum(usize),
}

/// The number inside an annotation.
pub open spec fn annotation_count(a: TaskCountAnnotation) -> usize {
    match a {
        TaskCountAnnotation::Desired(n) => n,
        TaskCountAnnotation::Maximum(n) => n,
    }
}

pub open spec fn min_usize(a: usize, b: usize) -> usize {
    if a <= b { a } else { b }
}

pub open spec fn max_usize(a: usize, b: usize) -> usize {
    if a <= b { b } else { a }
}

/// The annotation capped at `cap`, of the same kind as before.
pub open spec fn limit_annotation(a: TaskCountAnnotation, cap: usize) -> TaskCountAnnotation {
    match a {
        TaskCountAnnotation::Desired(n) => TaskCountAnnotation::Desired(min_usize(n, cap)),
        TaskCountAnnotation::Maximum(n) => TaskCountAnnotation::Maximum(min_usize(n, cap)),
    }
}

/// What two nodes of one stage agree on: among desires the largest, and a maximum beats
/// any desire. Among maximums the smallest.
pub open spec fn merge_annotations(
    a: TaskCountAnnotation,
    b: TaskCountAnnotation,
) -> TaskCountAnnotation {
    match (a, b) {
        (TaskCountAnnotation::Desired(x), TaskCountAnnotation::Desired(y)) =>
            TaskCountAnnotation::Desired(max_usize(x, y)),
        (TaskCountAnnotation::Desired(_), TaskCountAnnotation::Maximum(y)) =>
            TaskCountAnnotation::Maximum(y),
        (TaskCountAnnotation::Maximum(x), TaskCountAnnotation::Desired(_)) =>
            TaskCountAnnotation::Maximum(x),
        (TaskCountAnnotation::Maximum(x), TaskCountAnnotation::Maximum(y)) =>
            TaskCountAnnotation::Maximum(min_usize(x, y)),
    }
}

impl TaskCountAnnotation {
    /// The number of tasks, whatever the kind of the annotation.
    pub fn as_usize(&self) -> (count: usize)
        ensures
            count == annotation_count(*self),
    {
        match self {
            TaskCountAnnotation::Desired(desired) => *desired,
            TaskCountAnnotation::Maximum(maximum) => *maximum,
        }
    }

    /// Caps the count at `limit` and keeps the kind.
    pub fn limit(self, limit: usize) -> (limited: Self)
        ensures
            limited == limit_annotation(self, limit),
    {
        match self {
            TaskCountAnnotation::Desired(desired) => TaskCountAnnotation::Desired(
                if desired <= limit { desired } else { limit },
            ),
            TaskCountAnnotation::Maximum(maximum) => TaskCountAnnotation::Maximum(
                if maximum <= limit { maximum } else { limit },
            ),
        }
    }

    /// The annotation that two nodes of one stage agree on.
    pub fn merge(self, other: TaskCountAnnotation) -> (merged: Self)
        ensures
            merged == merge_annotations(self, other),
    {
        match (self, other) {
            (TaskCountAnnotation::Desired(a), TaskCountAnnotation::Desired(b)) =>
                TaskCountAnnotation::Desired(if a <= b { b } else { a }),
            (TaskCountAnnotation::Desired(_), TaskCountAnnotation::Maximum(b)) =>
                TaskCountAnnotation::Maximum(b),
            (TaskCountAnnotation::Maximum(a), TaskCountAnnotation::Desired(_)) =>
                TaskCountAnnotation::Maximum(a),
            (TaskCountAnnotation::Maximum(a), TaskCountAnnotation::Maximum(b)) =>
                TaskCountAnnotation::Maximum(if a <= b { a } else { b }),
        }
    }
}

impl From<TaskCountAnnotation> for usize {
    fn from(annotation: TaskCountAnnotation) -> (count: usize) {
        annotation.as_usize()
    }
}

impl vstd::std_specs::convert::FromSpecImpl<TaskCountAnnotation> for usize {
    open spec fn obeys_from_spec() -> bool {
        true
    }

    open spec fn from_spec(annotation: TaskCountAnnotation) -> usize {
        annotation_count(annotation)
    }
}

/// The order in which the nodes of a stage are merged does not matter.
pub proof fn merge_is_commutative(a: TaskCountAnnotation, b: TaskCountAnnotation)
    ensures
        merge_annotations(a, b) == merge_annotations(b, a),
{
}

/// How the nodes of a stage are grouped while they are merged does not matter.
pub proof fn merge_is_associative(
    a: TaskCountAnnotation,
    b: TaskCountAnnotation,
    c: TaskCountAnnotation,
)
    ensures
        merge_annotations(merge_annotations(a, b), c) == merge_annotations(
            a,
            merge_annotations(b, c),
        ),
{
}

/// Merging an annotation with itself changes nothing.
pub proof fn merge_is_idempotent(a: TaskCountAnnotation)
    ensures
        merge_annotations(a, a) == a,
{
}

/// A maximum is never exceeded by what it is merged into.
pub proof fn merge_respects_maximum(maximum: usize, other: TaskCountAnnotation)
    ensures
        merge_annotations(TaskCountAnnotation::Maximum(maximum), other) is Maximum,
        annotation_count(merge_annotations(TaskCountAnnotation::Maximum(maximum), other))
            <= maximum,
{
}

/// A limited annotation stays within the limit and within its own count, and limiting twice
/// is limiting by the smaller bound.
pub proof fn limit_bounds(a: TaskCountAnnotation, cap: usize, other_cap: usize)
    ensures
        annotation_count(limit_annotation(a, cap)) <= cap,
        annotation_count(limit_annotation(a, cap)) <= annotation_count(a),
        limit_annotation(limit_annotation(a, cap), other_cap) == limit_annotation(
            a,
            min_usize(cap, other_cap),
        ),
{
}

/// Limiting what two nodes agree on is the same as limiting both before they agree.
pub proof fn limit_distributes_over_merge(
    a: TaskCountAnnotation,
    b: TaskCountAnnotation,
    cap: usize,
)
    ensures
        limit_annotation(merge_annotations(a, b), cap) == merge_annotations(
            limit_annotation(a, cap),
            limit_annotation(b, cap),
        ),
{
}

/// What an estimator says of a node: the number of tasks for the stage that runs it.
#[derive(Debug, Clone, Copy, PartialEq, Eq, Structural)]
pub struct TaskEstimation {
    pub task_count: TaskCountAnnotation,
}

impl TaskEstimation {
    /// An estimation that no node of the stage may exceed.
    pub fn maximum(value: usize) -> (estimation: Self)
        ensures
            estimation.task_count == TaskCountAnnotation::Maximum(value),
    {
        TaskEstimation { task_count: TaskCountAnnotation::Maximum(value) }
    }

    /// An estimation that other nodes of the stage may override.
    pub fn desired(value: usize) -> (estimation: Self)
        ensures
            estimation.task_count == TaskCountAnnotation::Desired(value),
    {
        TaskEstimation { task_count: TaskCountAnnotation::Desired(value) }
    }
}

/// A fixed estimate: every leaf wants `desired` tasks, and inner nodes have no opinion.
pub fn fixed_task_estimation(desired: usize, child_count: usize) -> (estimation: Option<
    TaskEstimation,
>)
    ensures
        estimation == if child_count == 0 {
            Some(TaskEstimation { task_count: TaskCountAnnotation::Desired(desired) })
        } else {
            None
        },
{
    if child_count == 0 {
        Some(TaskEstimation::desired(desired))
    } else {
        None
    }
}

/// `a / b`, rounded up.
pub open spec fn ceil_div(a: nat, b: nat) -> nat {
    if a % b == 0 { a / b } else { a / b + 1 }
}

fn div_ceil(a: usize, b: usize) -> (q: usize)
    requires
        b > 0,
    ensures
        q == ceil_div(a as nat, b as nat),
{
    let q: usize = a / b;
    if a % b == 0 {
        q
    } else {
        proof {
            lemma_fundamental_div_mod(a as int, b as int);
            assert(q < a) by (nonlinear_arith)
                requires
                    a == b * q + a % b,
                    a % b > 0,
                    b >= 1,
                    q >= 0,
            ;
        }
        q + 1
    }
}

/// Whether `n` shares of `each` are enough for an amount, and no smaller number of them is.
pub open spec fn just_enough(n: nat, each: nat, amount: nat) -> bool {
    &&& amount <= n * each
    &&& n > 0 ==> (n - 1) * each < amount
}

/// Rounding up gives the least number of shares that is enough.
pub proof fn rounding_up_is_just_enough(amount: nat, each: nat)
    requires
        each > 0,
    ensures
        just_enough(ceil_div(amount, each), each, amount),
        forall|n: nat| #[trigger] just_enough(n, each, amount) ==> n == ceil_div(amount, each),
{
    let q = ceil_div(amount, each) as int;
    let d = amount as int / each as int;
    let r = amount as int % each as int;
    lemma_fundamental_div_mod(amount as int, each as int);
    assert(d >= 0) by (nonlinear_arith)
        requires
            amount == each * d + r,
            0 <= r < each,
            amount >= 0,
    ;
    assert(amount <= q * each && (q > 0 ==> (q - 1) * each < amount)) by (nonlinear_arith)
        requires
            amount == each * d + r,
            0 <= r < each,
            d >= 0,
            q == (if r == 0 {
                d
            } else {
                d + 1
            }),
    ;
    assert forall|n: nat| #[trigger] just_enough(n, each, amount) implies n == q by {
        assert(n == q) by (nonlinear_arith)
            requires
                amount <= n * each,
                n > 0 ==> (n - 1) * each < amount,
                amount <= q * each,
                q > 0 ==> (q - 1) * each < amount,
                each > 0,
                n >= 0,
                q >= 0,
        ;
    }
}

/// Whether a scan of `bytes` bytes runs on the least number of tasks that is enough: no partition reads
/// more than `bytes_per_partition`, no task has more than `target_partitions` of them, and one partition
/// or one task less would not do.
pub open spec fn is_least_estimate(
    tasks: nat,
    bytes: nat,
    bytes_per_partition: nat,
    target_partitions: nat,
) -> bool {
    exists|partitions: nat| #[trigger]
        just_enough(partitions, bytes_per_partition, bytes) && just_enough(
            tasks,
            target_partitions,
            partitions,
        )
}

/// The tasks that a scan is estimated to want can read all its bytes, each of them its share, and a
/// smaller number of tasks cannot. A scan that reads anything at all wants a task, one that reads nothing
/// wants none, and one that reads more never wants fewer.
pub proof fn scans_want_just_enough_tasks(
    tasks: nat,
    bytes: nat,
    more_tasks: nat,
    more_bytes: nat,
    bytes_per_partition: nat,
    target_partitions: nat,
)
    requires
        bytes_per_partition > 0,
        target_partitions > 0,
        is_least_estimate(tasks, bytes, bytes_per_partition, target_partitions),
        is_least_estimate(more_tasks, more_bytes, bytes_per_partition, target_partitions),
        bytes <= more_bytes,
    ensures
        bytes <= tasks * target_partitions * bytes_per_partition,
        tasks > 0 ==> (tasks - 1) * target_partitions * bytes_per_partition < bytes,
        tasks == 0 <==> bytes == 0,
        tasks <= more_tasks,
        bytes == more_bytes ==> tasks == more_tasks,
{
    let p = choose|p: nat| #[trigger]
        just_enough(p, bytes_per_partition, bytes) && just_enough(tasks, target_partitions, p);
    let q = choose|q: nat| #[trigger]
        just_enough(q, bytes_per_partition, more_bytes) && just_enough(
            more_tasks,
            target_partitions,
            q,
        );
    lemma_enough_twice(tasks, p, bytes, bytes_per_partition, target_partitions);
    lemma_more_is_more(p, q, bytes_per_partition, bytes, more_bytes);
    lemma_more_is_more(tasks, more_tasks, target_partitions, p, q);
    if bytes == more_bytes {
        lemma_more_is_more(q, p, bytes_per_partition, more_bytes, bytes);
        lemma_more_is_more(more_tasks, tasks, target_partitions, q, p);
    }
}

pub(crate) proof fn lemma_least_estimate(bytes: nat, each: nat, target: nat)
    requires
        each > 0,
        target > 0,
    ensures
        is_least_estimate(ceil_div(ceil_div(bytes, each), target), bytes, each, target),
{
    rounding_up_is_just_enough(bytes, each);
    rounding_up_is_just_enough(ceil_div(bytes, each), target);
}

proof fn lemma_more_is_more(n: nat, m: nat, each: nat, amount: nat, more: nat)
    requires
        just_enough(n, each, amount),
        just_enough(m, each, more),
        amount <= more,
    ensures
        n <= m,
{
    if n > m {
        assert(m * each <= (n - 1) * each) by (nonlinear_arith)
            requires
                m <= n - 1,
        ;
    }
}

proof fn lemma_enough_twice(tasks: nat, partitions: nat, bytes: nat, each: nat, target: nat)
    requires
        each > 0,
        target > 0,
        just_enough(partitions, each, bytes),
        just_enough(tasks, target, partitions),
    ensures
        bytes <= tasks * target * each,
        tasks > 0 ==> (tasks - 1) * target * each < bytes,
        tasks == 0 <==> bytes == 0,
{
    let room = tasks * target;
    assert(partitions * each <= room * each) by (nonlinear_arith)
        requires
            partitions <= room,
    ;
    if tasks > 0 {
        let less = (tasks - 1) * target;
        assert(less >= 0) by (nonlinear_arith)
            requires
                less == (tasks - 1) * target,
                tasks >= 1,
        ;
        assert(less * each <= (partitions - 1) * each) by (nonlinear_arith)
            requires
                less <= partitions - 1,
        ;
        assert(0 <= less * each) by (nonlinear_arith)
            requires
                0 <= less,
        ;
    } else {
        assert(room == 0) by (nonlinear_arith)
            requires
                room == tasks * target,
                tasks == 0,
        ;
        assert(room * each == 0) by (nonlinear_arith)
            requires
                room == 0,
        ;
    }
}

/// The bytes of all the files in one group.
pub open spec fn group_bytes(sizes: Seq<u64>) -> nat
    decreases sizes.len(),
{
    if sizes.len() == 0 {
        0
    } else {
        group_bytes(sizes.drop_last()) + sizes.last() as nat
    }
}

/// The bytes of all the files in all the groups.
pub open spec fn scan_bytes(groups: Seq<Vec<u64>>) -> nat
    decreases groups.len(),
{
    if groups.len() == 0 {
        0
    } else {
        scan_bytes(groups.drop_last()) + group_bytes(groups.last()@)
    }
}

/// The bytes of a scan are those of its files: nothing but a file adds to them, each file adds its own
/// size, and it does not matter in which group it is.
pub proof fn scans_read_every_file(groups: Seq<Vec<u64>>, g: int, i: int)
    requires
        0 <= g < groups.len(),
        0 <= i < groups[g]@.len(),
    ensures
        scan_bytes(Seq::empty()) == 0,
        group_bytes(Seq::empty()) == 0,
        group_bytes(groups[g]@) == group_bytes(groups[g]@.remove(i)) + groups[g]@[i],
        scan_bytes(groups) == scan_bytes(groups.remove(g)) + group_bytes(groups[g]@),
{
    lemma_group_without(groups[g]@, i);
    lemma_scan_without(groups, g);
}

proof fn lemma_group_without(sizes: Seq<u64>, i: int)
    requires
        0 <= i < sizes.len(),
    ensures
        group_bytes(sizes) == group_bytes(sizes.remove(i)) + sizes[i],
    decreases sizes.len(),
{
    if i == sizes.len() - 1 {
        assert(sizes.remove(i) =~= sizes.drop_last());
    } else {
        lemma_group_without(sizes.drop_last(), i);
        assert(sizes.remove(i).drop_last() =~= sizes.drop_last().remove(i));
    }
}

proof fn lemma_scan_without(groups: Seq<Vec<u64>>, g: int)
    requires
        0 <= g < groups.len(),
    ensures
        scan_bytes(groups) == scan_bytes(groups.remove(g)) + group_bytes(groups[g]@),
    decreases groups.len(),
{
    if g == groups.len() - 1 {
        assert(groups.remove(g) =~= groups.drop_last());
    } else {
        lemma_scan_without(groups.drop_last(), g);
        assert(groups.remove(g).drop_last() =~= groups.drop_last().remove(g));
    }
}

proof fn lemma_group_bytes_prefix(sizes: Seq<u64>, i: int)
    requires
        0 <= i <= sizes.len(),
    ensures
        group_bytes(sizes.take(i)) <= group_bytes(sizes),
    decreases sizes.len() - i,
{
    if i < sizes.len() {
        lemma_group_bytes_prefix(sizes, i + 1);
        assert(sizes.take(i + 1).drop_last() =~= sizes.take(i));
    } else {
        assert(sizes.take(i) =~= sizes);
    }
}

proof fn lemma_scan_bytes_prefix(groups: Seq<Vec<u64>>, i: int)
    requires
        0 <= i <= groups.len(),
    ensures
        scan_bytes(groups.take(i)) <= scan_bytes(groups),
    decreases groups.len() - i,
{
    if i < groups.len() {
        lemma_scan_bytes_prefix(groups, i + 1);
        assert(groups.take(i + 1).drop_last() =~= groups.take(i));
    } else {
        assert(groups.take(i) =~= groups);
    }
}

/// Estimates the tasks of a file scan from the sizes of its files: as many partitions as it
/// takes to give each at most `bytes_per_partition`, and as many tasks as it takes to give
/// each at most `target_partitions` of those.
pub fn file_scan_task_estimation(
    file_groups: &Vec<Vec<u64>>,
    bytes_per_partition: usize,
    target_partitions: usize,
) -> (estimation: TaskEstimation)
    requires
        bytes_per_partition > 0,
        target_partitions > 0,
        scan_bytes(file_groups@) <= usize::MAX,
    ensures
        estimation.task_count is Desired,
        annotation_count(estimation.task_count) == ceil_div(
            ceil_div(scan_bytes(file_groups@), bytes_per_partition as nat),
            target_partitions as nat,
        ),
        is_least_estimate(
            annotation_count(estimation.task_count) as nat,
            scan_bytes(file_groups@),
            bytes_per_partition as nat,
            target_partitions as nat,
        ),
{
    let mut total_bytes: usize = 0;
    for g in 0..file_groups.len()
        invariant
            total_bytes == scan_bytes(file_groups@.take(g as int)),
            scan_bytes(file_groups@) <= usize::MAX,
    {
        let group = &file_groups[g];
        proof {
            lemma_scan_bytes_prefix(file_groups@, g + 1);
            assert(file_groups@.take(g + 1).drop_last() =~= file_groups@.take(g as int));
        }
        let ghost before = total_bytes as nat;
        for i in 0..group.len()
            invariant
                total_bytes == before + group_bytes(group@.take(i as int)),
                before + group_bytes(group@) <= usize::MAX,
        {
            proof {
                lemma_group_bytes_prefix(group@, i + 1);
                assert(group@.take(i + 1).drop_last() =~= group@.take(i as int));
            }
            total_bytes = total_bytes + group[i] as usize;
        }
        proof {
            assert(group@.take(group@.len() as int) =~= group@);
        }
    }
    proof {
        assert(file_groups@.take(file_groups@.len() as int) =~= file_groups@);
        lemma_least_estimate(
            total_bytes as nat,
            bytes_per_partition as nat,
            target_partitions as nat,
        );
    }
    TaskEstimation::desired(div_ceil(div_ceil(total_bytes, bytes_per_partition), target_partitions))
}

/// How many of `n` items the `g`-th of `groups` groups receives when they are dealt in turn.
pub open spec fn dealt_len(n: nat, groups: nat, g: int) -> nat {
    if g < n % groups { n / groups + 1 } else { n / groups }
}

/// What the `g`-th of `groups` groups receives: every item whose position is `g` modulo
/// `groups`, in order.
pub open spec fn dealt_group<T>(items: Seq<T>, groups: nat, g: int) -> Seq<T> {
    Seq::new(dealt_len(items.len(), groups, g), |j: int| items[g + j * groups])
}

proof fn lemma_deal_one<T>(items: Seq<T>, groups: nat, i: int, g: int)
    requires
        0 <= i < items.len(),
        groups > 0,
        0 <= g < groups,
    ensures
        g == i % (groups as int) ==> dealt_group(items.take(i + 1), groups, g) =~= dealt_group(
            items.take(i),
            groups,
            g,
        ).push(items[i]),
        g != i % (groups as int) ==> dealt_group(items.take(i + 1), groups, g) =~= dealt_group(
            items.take(i),
            groups,
            g,
        ),
{
    let k = groups as int;
    let q = i / k;
    let r = i % k;
    lemma_fundamental_div_mod(i, k);
    assert(q >= 0) by {
        lemma_div_pos_is_pos(i, k);
    }
    assert(k * q == q * k) by (nonlinear_arith);
    if r + 1 < k {
        lemma_fundamental_div_mod_converse(i + 1, k, q, r + 1);
    } else {
        assert(i + 1 == (q + 1) * k + 0) by (nonlinear_arith)
            requires
                i == q * k + r,
                r + 1 == k,
        ;
        lemma_fundamental_div_mod_converse(i + 1, k, q + 1, 0);
    }
    let before = dealt_group(items.take(i), groups, g);
    let after = dealt_group(items.take(i + 1), groups, g);
    assert forall|j: int| 0 <= j < before.len() implies #[trigger] before[j] == after[j] by {
        assert(0 <= g + j * k < i) by (nonlinear_arith)
            requires
                0 <= g < k,
                0 <= j,
                j <= q,
                j == q ==> g < r,
                i == q * k + r,
                0 <= r < k,
                q >= 0,
        ;
    }
}

/// Deals the items to `target_groups` groups in turn: the first item to the first group, the
/// second to the second, and from the last group back to the first. Groups for which no item
/// is left stay empty.
pub fn rebalance_round_robin<T>(items: Vec<T>, target_groups: usize) -> (groups: Vec<Vec<T>>)
    requires
        target_groups > 0 || items@.len() == 0,
    ensures
        groups@.len() == target_groups,
        forall|g: int|
            0 <= g < target_groups ==> #[trigger] groups@[g]@ == dealt_group(
                items@,
                target_groups as nat,
                g,
            ),
{
    let mut groups: Vec<Vec<T>> = Vec::new();
    let ghost all = items@;
    let count: usize = items.len();
    for g in 0..target_groups
        invariant
            groups@.len() == g,
            forall|h: int| 0 <= h < g ==> (#[trigger] groups@[h])@ =~= Seq::<T>::empty(),
    {
        groups.push(Vec::new());
    }
    proof {
        if target_groups > 0 {
            lemma_fundamental_div_mod_converse(0, target_groups as int, 0, 0);
        }
        assert forall|g: int| 0 <= g < target_groups implies #[trigger] groups@[g]@ == dealt_group(
            all.take(0),
            target_groups as nat,
            g,
        ) by {
            assert(groups@[g]@ =~= dealt_group(all.take(0), target_groups as nat, g));
        }
    }
    let mut idx: usize = 0;
    for item in it: items
        invariant
            all == items@,
            it.seq() == all,
            idx == it.index(),
            all.len() == count,
            target_groups > 0 || all.len() == 0,
            groups@.len() == target_groups,
            forall|g: int|
                0 <= g < target_groups ==> #[trigger] groups@[g]@ == dealt_group(
                    all.take(it.index() as int),
                    target_groups as nat,
                    g,
                ),
    {
        let ghost before = groups@;
        let slot: usize = idx % target_groups;
        groups[slot].push(item);
        proof {
            assert forall|g: int|
                0 <= g < target_groups implies #[trigger] groups@[g]@ == dealt_group(
                all.take(idx + 1),
                target_groups as nat,
                g,
            ) by {
                assert(before[g]@ == dealt_group(all.take(idx as int), target_groups as nat, g));
                lemma_deal_one(all, target_groups as nat, idx as int, g);
            }
        }
        idx = idx + 1;
    }
    proof {
        assert(all.take(all.len() as int) =~= all);
    }
    groups
}

/// Every item lands in exactly one group, in the place that its position determines.
pub proof fn round_robin_places_every_item<T>(items: Seq<T>, groups: nat, i: int)
    requires
        groups > 0,
        0 <= i < items.len(),
    ensures
        0 <= i / (groups as int) < dealt_len(items.len(), groups, i % (groups as int)),
        dealt_group(items, groups, i % (groups as int))[i / (groups as int)] == items[i],
        forall|g: int, j: int|
            0 <= g < groups && 0 <= j < dealt_len(items.len(), groups, g) && #[trigger] (g + j
                * groups) == i ==> g == i % (groups as int) && j == i / (groups as int),
{
    let k = groups as int;
    let n = items.len() as int;
    lemma_fundamental_div_mod(i, k);
    lemma_fundamental_div_mod(n, k);
    let q = i / k;
    let r = i % k;
    assert(q >= 0) by {
        lemma_div_pos_is_pos(i, k);
    }
    assert(k * q == q * k) by (nonlinear_arith);
    let nq = n / k;
    let nr = n % k;
    assert(q < nq || (q == nq && r < nr)) by (nonlinear_arith)
        requires
            i == k * q + r,
            n == k * nq + nr,
            0 <= r < k,
            0 <= nr < k,
            i < n,
    ;
    assert forall|g: int, j: int|
        0 <= g < groups && 0 <= j < dealt_len(items.len(), groups, g) && #[trigger] (g + j * groups)
            == i implies g == r && j == q by {
        lemma_fundamental_div_mod_converse(i, k, j, g);
    }
}

/// The sizes of any two groups differ by at most one, and earlier groups are never smaller
/// than later ones.
pub proof fn round_robin_is_balanced(n: nat, groups: nat, g: int, h: int)
    requires
        0 <= g <= h < groups,
    ensures
        dealt_len(n, groups, h) <= dealt_len(n, groups, g) <= dealt_len(n, groups, h) + 1,
{
}

/// All the items of all the groups, in order.
pub open spec fn concat_groups<T>(groups: Seq<Vec<T>>) -> Seq<T>
    decreases groups.len(),
{
    if groups.len() == 0 {
        Seq::empty()
    } else {
        concat_groups(groups.drop_last()) + groups.last()@
    }
}

fn concat<T>(groups: Vec<Vec<T>>) -> (items: Vec<T>)
    ensures
        items@ == concat_groups(groups@),
{
    let ghost all = groups@;
    let mut items: Vec<T> = Vec::new();
    for group in it: groups
        invariant
            it.seq() == all,
            items@ == concat_groups(all.take(it.index() as int)),
    {
        proof {
            assert(all.take(it.index() + 1).drop_last() =~= all.take(it.index() as int));
        }
        let mut group = group;
        items.append(&mut group);
    }
    proof {
        assert(all.take(all.len() as int) =~= all);
    }
    items
}

/// Splits a file scan over `task_count` tasks. The groups of files are first rebalanced: a scan
/// with a declared output partitioning keeps that many groups per task and its files are
/// dealt to all of them in turn; any other scan takes `repartitioned`, or its own groups if
/// there is nothing to repartition. The groups are then dealt to the tasks in turn.
pub fn scale_up_file_scan<T>(
    file_groups: Vec<Vec<T>>,
    repartitioned: Option<Vec<Vec<T>>>,
    has_output_partitioning: bool,
    partition_count: usize,
    task_count: usize,
) -> (tasks: Vec<Vec<Vec<T>>>)
    requires
        task_count > 0,
        partition_count * task_count <= usize::MAX,
        has_output_partitioning ==> partition_count > 0 || concat_groups(file_groups@).len() == 0,
    ensures
        tasks@.len() == task_count,
        has_output_partitioning ==> forall|t: int|
            0 <= t < task_count ==> (#[trigger] tasks@[t])@.len() == partition_count,
        has_output_partitioning ==> forall|t: int, g: int|
            0 <= t < task_count && 0 <= g < partition_count ==> (#[trigger] tasks@[t]@[g])@
                == dealt_group(
                concat_groups(file_groups@),
                (partition_count * task_count) as nat,
                t + g * task_count,
            ),
        !has_output_partitioning ==> forall|t: int|
            0 <= t < task_count ==> (#[trigger] tasks@[t])@ == dealt_group(
                match repartitioned {
                    Some(groups) => groups@,
                    None => file_groups@,
                },
                task_count as nat,
                t,
            ),
{
    if has_output_partitioning {
        let files = concat(file_groups);
        proof {
            assert(partition_count > 0 ==> partition_count * task_count > 0) by (nonlinear_arith)
                requires
                    task_count > 0,
            ;
        }
        let groups = rebalance_round_robin(files, partition_count * task_count);
        let ghost dealt = groups@;
        let tasks = rebalance_round_robin(groups, task_count);
        proof {
            let n = partition_count * task_count;
            assert(n == partition_count * task_count + 0);
            lemma_fundamental_div_mod_converse(
                n,
                task_count as int,
                partition_count as int,
                0,
            );
            assert forall|t: int, g: int|
                0 <= t < task_count && 0 <= g < partition_count implies {
                &&& tasks@[t]@.len() == partition_count
                &&& (#[trigger] tasks@[t]@[g])@ == dealt_group(files@, n as nat, t + g * task_count)
            } by {
                assert(tasks@[t]@ == dealt_group(dealt, task_count as nat, t));
                assert(0 <= t + g * task_count < n) by (nonlinear_arith)
                    requires
                        n == partition_count * task_count,
                        0 <= t < task_count,
                        0 <= g < partition_count,
                ;
            }
        }
        tasks
    } else {
        let groups = match repartitioned {
            Some(groups) => groups,
            None => file_groups,
        };
        rebalance_round_robin(groups, task_count)
    }
}

/// The first estimation that anyone gave: the users' estimators in the order in which they were
/// registered, and then the default one for file scans.
pub open spec fn first_estimation(
    user_provided: Seq<Option<TaskEstimation>>,
    default_estimation: Option<TaskEstimation>,
) -> Option<TaskEstimation>
    decreases user_provided.len(),
{
    if user_provided.len() == 0 {
        default_estimation
    } else if user_provided[0] is Some {
        user_provided[0]
    } else {
        first_estimation(user_provided.drop_first(), default_estimation)
    }
}

/// Combines what the users' estimators and the default one said of a node.
pub fn combined_task_estimation(
    user_provided: &Vec<Option<TaskEstimation>>,
    default_estimation: Option<TaskEstimation>,
) -> (estimation: Option<TaskEstimation>)
    ensures
        estimation == first_estimation(user_provided@, default_estimation),
{
    proof {
        assert(user_provided@.skip(0) =~= user_provided@);
    }
    for i in 0..user_provided.len()
        invariant
            first_estimation(user_provided@, default_estimation) == first_estimation(
                user_provided@.skip(i as int),
                default_estimation,
            ),
    {
        proof {
            assert(user_provided@.skip(i as int).drop_first() =~= user_provided@.skip(i + 1));
        }
        if user_provided[i].is_some() {
            return user_provided[i];
        }
    }
    default_estimation
}

/// The first reply that settles a question put to several estimators in turn: a failure, or an
/// answer. A reply of `Ok(None)` passes the question on.
pub open spec fn first_reply<A, E>(replies: Seq<Result<Option<A>, E>>) -> Result<Option<A>, E>
    decreases replies.len(),
{
    if replies.len() == 0 {
        Ok(None)
    } else {
        match replies[0] {
            Ok(None) => first_reply(replies.drop_first()),
            reply => reply,
        }
    }
}

/// Picks the reply that counts when several estimators are asked how to scale up a leaf node
/// or how to route the tasks of a stage.
pub fn combined_reply<A, E>(replies: Vec<Result<Option<A>, E>>) -> (reply: Result<Option<A>, E>)
    ensures
        reply == first_reply(replies@),
{
    let ghost all = replies@;
    proof {
        assert(all.skip(0) =~= all);
    }
    for reply in it: replies
        invariant
            it.seq() == all,
            first_reply(all) == first_reply(all.skip(it.index() as int)),
    {
        proof {
            assert(all.skip(it.index() as int).drop_first() =~= all.skip(it.index() + 1));
        }
        match reply {
            Ok(None) => {},
            settled => {
                return settled;
            },
        }
    }
    Ok(None)
}

/// Dealing items to groups makes up none: every place of every group holds the item of one position, and
/// different places hold items of different positions.
pub proof fn round_robin_makes_up_no_item<T>(items: Seq<T>, groups: nat, g: int, j: int, h: int, k: int)
    requires
        0 <= g < groups,
        0 <= j < dealt_group(items, groups, g).len(),
        0 <= h < groups,
        0 <= k < dealt_group(items, groups, h).len(),
    ensures
        0 <= g + j * groups < items.len(),
        dealt_group(items, groups, g)[j] == items[g + j * groups],
        g + j * groups == h + k * groups ==> g == h && j == k,
{
    let n = items.len() as int;
    let (q, r) = (n / groups as int, n % groups as int);
    lemma_fundamental_div_mod(n, groups as int);
    assert(0 <= g + j * groups < n) by (nonlinear_arith)
        requires
            n == groups * q + r,
            0 <= r < groups,
            0 <= g < groups,
            0 <= j,
            g < r ==> j <= q,
            g >= r ==> j < q,
    ;
    if g + j * groups == h + k * groups {
        lemma_fundamental_div_mod_converse(g + j * groups, groups as int, j, g);
        lemma_fundamental_div_mod_converse(g + j * groups, groups as int, k, h);
    }
}

/// The estimation of an estimator counts if and only if none before it gave one. The default counts if no
/// estimator of the user gave one.
pub proof fn earlier_estimators_come_first(
    user_provided: Seq<Option<TaskEstimation>>,
    default_estimation: Option<TaskEstimation>,
    i: int,
)
    requires
        0 <= i <= user_provided.len(),
        forall|j: int| 0 <= j < i ==> #[trigger] user_provided[j] is None,
    ensures
        i < user_provided.len() && user_provided[i] is Some ==> first_estimation(
            user_provided,
            default_estimation,
        ) == user_provided[i],
        i == user_provided.len() ==> first_estimation(user_provided, default_estimation)
            == default_estimation,
    decreases user_provided.len(),
{
    if i > 0 {
        let rest = user_provided.drop_first();
        assert(user_provided[0] is None);
        assert forall|j: int| 0 <= j < i - 1 implies #[trigger] rest[j] is None by {
            assert(user_provided[j + 1] is None);
        }
        earlier_estimators_come_first(rest, default_estimation, i - 1);
    }
}

/// A reply settles a question if and only if all those before it passed the question on: a failure as
/// well as an answer.
pub proof fn earlier_replies_come_first<A, E>(replies: Seq<Result<Option<A>, E>>, i: int)
    requires
        0 <= i <= replies.len(),
        forall|j: int| 0 <= j < i ==> #[trigger] replies[j] == Ok::<Option<A>, E>(None),
    ensures
        i < replies.len() && replies[i] != Ok::<Option<A>, E>(None) ==> first_reply(replies)
            == replies[i],
        i == replies.len() ==> first_reply(replies) == Ok::<Option<A>, E>(None),
    decreases replies.len(),
{
    if i > 0 {
        let rest = replies.drop_first();
        assert(replies[0] == Ok::<Option<A>, E>(None));
        assert forall|j: int| 0 <= j < i - 1 implies #[trigger] rest[j] == Ok::<Option<A>, E>(
            None,
        ) by {
            assert(replies[j + 1] == Ok::<Option<A>, E>(None));
        }
        earlier_replies_come_first(rest, i - 1);
    }
}

} // verus!
