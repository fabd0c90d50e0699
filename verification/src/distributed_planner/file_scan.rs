use crate::distributed_planner::task_estimator::{
    annotation_count, ceil_div, concat_groups, dealt_group, dealt_len,
    file_scan_task_estimation, is_least_estimate, round_robin_places_every_item,
    scale_up_file_scan, scan_bytes, TaskEstimation,
};
use datafusion::datasource::listing::{FileRange, PartitionedFile};
use datafusion::datasource::physical_plan::{FileGroup, FileGroupPartitioner};
use vstd::prelude::*;

verus! {

/// A file that is scanned, or a part of one.
#[derive(Debug, Clone, Copy, PartialEq, Eq)]
pub struct ScannedFile {
    /// Tells the file apart from the others of the scan.
    pub file: u64,
    /// The bytes of the whole file.
    pub size: u64,
    /// The part that is read, where it is not the whole file: from the byte at the first position to the
    /// one before the second.
    pub range: Option<(i64, i64)>,
}

impl ScannedFile {
    /// The bytes that are read.
    pub open spec fn bytes(self) -> u64 {
        match self.range {
            Some((start, end)) => (end - start) as u64,
            None => self.size,
        }
    }

    /// Whether the part that is read begins before it ends.
    pub open spec fn wf(self) -> bool {
        self.range matches Some((start, end)) ==> 0 <= start <= end
    }

    /// The file that `file` tells apart, of which `range` is read.
    pub fn new(file: u64, size: u64, range: Option<(i64, i64)>) -> (scanned: ScannedFile)
        ensures
            scanned == (ScannedFile { file, size, range }),
    {
        ScannedFile { file, size, range }
    }

    /// The bytes that are read.
    pub fn effective_size(&self) -> (bytes: u64)
        requires
            self.wf(),
        ensures
            bytes == self.bytes(),
    {
        match self.range {
            Some((start, end)) => (end - start) as u64,
            None => self.size,
        }
    }
}

/// The groups of files of a scan.
pub open spec fn groups_view(groups: Seq<Vec<ScannedFile>>) -> Seq<Seq<ScannedFile>> {
    Seq::new(groups.len(), |i: int| groups[i]@)
}

/// The groups of files of a scan, if there are any.
pub open spec fn optional_groups_view(groups: Option<Vec<Vec<ScannedFile>>>) -> Option<
    Seq<Seq<ScannedFile>>,
> {
    match groups {
        Some(groups) => Some(groups_view(groups@)),
        None => None,
    }
}

/// The bytes that are read of the files of one group.
pub open spec fn bytes_read(files: Seq<ScannedFile>) -> nat
    decreases files.len(),
{
    if files.len() == 0 {
        0
    } else {
        bytes_read(files.drop_last()) + files.last().bytes() as nat
    }
}

/// The bytes that are read of the files of all groups.
pub open spec fn all_bytes_read(groups: Seq<Seq<ScannedFile>>) -> nat
    decreases groups.len(),
{
    if groups.len() == 0 {
        0
    } else {
        all_bytes_read(groups.drop_last()) + bytes_read(groups.last())
    }
}

/// Whether the parts of all files begin before they end.
pub open spec fn all_wf(groups: Seq<Seq<ScannedFile>>) -> bool {
    forall|g: int, i: int|
        0 <= g < groups.len() && 0 <= i < groups[g].len() ==> (#[trigger] groups[g][i]).wf()
}

/// What `FileGroupPartitioner::repartition_file_groups` makes of the groups of files of a scan, for a
/// partitioner with the given number of partitions, least number of bytes, and duty to keep the order.
pub uninterp spec fn repartitioned_groups(groups: Seq<Seq<ScannedFile>>, target_partitions: usize, min_size: usize, keep_order: bool) -> Option<Seq<Seq<ScannedFile>>>;

/// Calls `FileGroupPartitioner::repartition_file_groups`: the groups that come out depend on the files,
/// their sizes and ranges, and on how the partitioner is set up. Where there are no groups, there is
/// nothing to repartition.
#[verifier::external_body]
fn repartition_file_groups(groups: &Vec<Vec<ScannedFile>>, target_partitions: usize, min_size: usize, keep_order: bool) -> (result: Option<Vec<Vec<ScannedFile>>>)
    requires
        target_partitions > 0 || groups@.len() == 0,
        all_wf(groups_view(groups@)),
        all_bytes_read(groups_view(groups@)) <= i64::MAX,
    ensures
        optional_groups_view(result) == repartitioned_groups(groups_view(groups@), target_partitions, min_size, keep_order),
        groups@.len() == 0 ==> result is None,
{
    let given: Vec<FileGroup> = groups.iter().map(|group| group.iter().map(|f| PartitionedFile {
        range: f.range.map(|(start, end)| FileRange { start, end }),
        ..PartitionedFile::new(f.file.to_string(), f.size)
    }).collect()).collect();
    Some(FileGroupPartitioner::new().with_target_partitions(target_partitions)
        .with_repartition_file_min_size(min_size).with_preserve_order_within_groups(keep_order)
        .repartition_file_groups(&given)?.iter().map(|group| group.iter().map(|f| ScannedFile::new(
            f.path().as_ref().parse().unwrap(), f.object_meta.size, f.range.as_ref().map(|r| (r.start, r.end)),
        )).collect()).collect())
}

/// Estimates the tasks of file scans and spreads their files over the tasks.
#[derive(Debug, Clone, Copy, PartialEq, Eq, Structural)]
pub struct FileScanConfigTaskEstimator;

/// The groups of files that each task of a scan reads. A scan with a declared output partitioning keeps
/// that many groups for each task, and its files are dealt to all of them in turn. The files of any
/// other scan are repartitioned, and the groups are dealt to the tasks in turn.
pub open spec fn is_spread(
    groups: Seq<Seq<ScannedFile>>,
    has_output_partitioning: bool,
    keep_order: bool,
    partition_count: usize,
    task_count: usize,
    tasks: Seq<Vec<Vec<ScannedFile>>>,
) -> bool {
    let all = (partition_count * task_count) as nat;
    &&& tasks.len() == task_count
    &&& if has_output_partitioning {
        forall|t: int|
            0 <= t < task_count ==> groups_view((#[trigger] tasks[t])@) == Seq::new(
                partition_count as nat,
                |g: int| dealt_group(files_of(groups), all, t + g * task_count),
            )
    } else {
        let rebalanced = match repartitioned_groups(groups, all as usize, 0, keep_order) {
            Some(made) => made,
            None => groups,
        };
        forall|t: int|
            0 <= t < task_count ==> groups_view((#[trigger] tasks[t])@) == dealt_group(
                rebalanced,
                task_count as nat,
                t,
            )
    }
}

/// All the files of all the groups, in order.
pub open spec fn files_of(groups: Seq<Seq<ScannedFile>>) -> Seq<ScannedFile>
    decreases groups.len(),
{
    if groups.len() == 0 {
        Seq::empty()
    } else {
        files_of(groups.drop_last()) + groups.last()
    }
}

proof fn lemma_files_of(groups: Seq<Vec<ScannedFile>>)
    ensures
        files_of(groups_view(groups)) == concat_groups(groups),
    decreases groups.len(),
{
    if groups.len() > 0 {
        assert(groups_view(groups).drop_last() =~= groups_view(groups.drop_last()));
        lemma_files_of(groups.drop_last());
    }
}

proof fn lemma_dealt_views(groups: Seq<Vec<ScannedFile>>, tasks: nat, t: int)
    requires
        0 <= t < tasks,
    ensures
        groups_view(dealt_group(groups, tasks, t)) == dealt_group(groups_view(groups), tasks, t),
{
    let n = groups.len();
    let dealt = groups_view(dealt_group(groups, tasks, t));
    let expected = dealt_group(groups_view(groups), tasks, t);
    assert forall|j: int| 0 <= j < dealt.len() implies #[trigger] dealt[j] == expected[j] by {
        let q = n as int / tasks as int;
        let r = n as int % tasks as int;
        assert(n == q * tasks + r && 0 <= r < tasks) by (nonlinear_arith)
            requires
                q == n as int / tasks as int,
                r == n as int % tasks as int,
                tasks > 0,
        ;
        assert(0 <= t + j * tasks < n) by (nonlinear_arith)
            requires
                n == q * tasks + r,
                0 <= r < tasks,
                0 <= t < tasks,
                0 <= j,
                t < r ==> j <= q,
                t >= r ==> j < q,
        ;
    }
    assert(dealt =~= expected);
}

proof fn lemma_group_sizes(files: Seq<ScannedFile>, sizes: Seq<u64>)
    requires
        sizes == Seq::new(files.len(), |i: int| files[i].bytes()),
    ensures
        crate::distributed_planner::task_estimator::group_bytes(sizes) == bytes_read(files),
    decreases files.len(),
{
    if files.len() > 0 {
        assert(sizes.drop_last() =~= Seq::new(
            files.drop_last().len(),
            |i: int| files.drop_last()[i].bytes(),
        ));
        lemma_group_sizes(files.drop_last(), sizes.drop_last());
    }
}

proof fn lemma_sizes(groups: Seq<Seq<ScannedFile>>, sizes: Seq<Vec<u64>>)
    requires
        sizes.len() == groups.len(),
        forall|g: int|
            0 <= g < groups.len() ==> (#[trigger] sizes[g])@ == Seq::new(
                groups[g].len(),
                |i: int| groups[g][i].bytes(),
            ),
    ensures
        scan_bytes(sizes) == all_bytes_read(groups),
    decreases groups.len(),
{
    if groups.len() > 0 {
        let n = groups.len() - 1;
        let (front, fronts) = (groups.drop_last(), sizes.drop_last());
        assert forall|g: int| 0 <= g < front.len() implies (#[trigger] fronts[g])@ == Seq::new(
            front[g].len(),
            |i: int| front[g][i].bytes(),
        ) by {
            assert(fronts[g] == sizes[g]);
            assert(front[g] == groups[g]);
        }
        lemma_sizes(front, fronts);
        assert(sizes[n]@ == Seq::new(groups[n].len(), |i: int| groups[n][i].bytes()));
        lemma_group_sizes(groups[n], sizes[n]@);
    }
}

impl FileScanConfigTaskEstimator {
    /// Estimates the tasks of a scan from the bytes that it reads: as many partitions as it takes to
    /// give each at most `bytes_per_partition`, and as many tasks as it takes to give each at most
    /// `target_partitions` of those.
    pub fn task_estimation(
        &self,
        file_groups: &Vec<Vec<ScannedFile>>,
        bytes_per_partition: usize,
        target_partitions: usize,
    ) -> (estimation: TaskEstimation)
        requires
            bytes_per_partition > 0,
            target_partitions > 0,
            all_wf(groups_view(file_groups@)),
            all_bytes_read(groups_view(file_groups@)) <= usize::MAX,
        ensures
            estimation.task_count is Desired,
            annotation_count(estimation.task_count) == ceil_div(
                ceil_div(all_bytes_read(groups_view(file_groups@)), bytes_per_partition as nat),
                target_partitions as nat,
            ),
            is_least_estimate(
                annotation_count(estimation.task_count) as nat,
                all_bytes_read(groups_view(file_groups@)),
                bytes_per_partition as nat,
                target_partitions as nat,
            ),
    {
        let ghost views = groups_view(file_groups@);
        let mut sizes: Vec<Vec<u64>> = Vec::new();
        for g in 0..file_groups.len()
            invariant
                views == groups_view(file_groups@),
                all_wf(views),
                sizes@.len() == g,
                forall|h: int|
                    0 <= h < g ==> (#[trigger] sizes@[h])@ == Seq::new(
                        views[h].len(),
                        |i: int| views[h][i].bytes(),
                    ),
        {
            let group = &file_groups[g];
            let mut group_sizes: Vec<u64> = Vec::new();
            for i in 0..group.len()
                invariant
                    views[g as int] == group@,
                    0 <= g < views.len(),
                    all_wf(views),
                    group_sizes@ =~= Seq::new(i as nat, |k: int| group@[k].bytes()),
            {
                proof {
                    assert(views[g as int][i as int].wf());
                }
                group_sizes.push(group[i].effective_size());
            }
            proof {
                assert(group_sizes@ =~= Seq::new(
                    views[g as int].len(),
                    |i: int| views[g as int][i].bytes(),
                ));
            }
            sizes.push(group_sizes);
        }
        proof {
            lemma_sizes(views, sizes@);
        }
        file_scan_task_estimation(&sizes, bytes_per_partition, target_partitions)
    }

    /// Spreads the files of a scan over `task_count` tasks. `keep_order` tells whether the files of
    /// a group must stay in order.
    pub fn scale_up_leaf_node(
        &self,
        file_groups: Vec<Vec<ScannedFile>>,
        has_output_partitioning: bool,
        keep_order: bool,
        partition_count: usize,
        task_count: usize,
    ) -> (tasks: Vec<Vec<Vec<ScannedFile>>>)
        requires
            task_count > 0,
            partition_count * task_count <= usize::MAX,
            if has_output_partitioning {
                partition_count > 0 || files_of(groups_view(file_groups@)).len() == 0
            } else {
                &&& partition_count > 0 || file_groups@.len() == 0
                &&& all_wf(groups_view(file_groups@))
                &&& all_bytes_read(groups_view(file_groups@)) <= i64::MAX
            },
        ensures
            is_spread(
                groups_view(file_groups@),
                has_output_partitioning,
                keep_order,
                partition_count,
                task_count,
                tasks@,
            ),
    {
        let ghost views = groups_view(file_groups@);
        let ghost given = file_groups@;
        proof {
            lemma_files_of(given);
            assert(partition_count > 0 ==> partition_count * task_count > 0) by (nonlinear_arith)
                requires
                    task_count > 0,
            ;
        }
        if has_output_partitioning {
            let tasks = scale_up_file_scan(file_groups, None, true, partition_count, task_count);
            proof {
                let all = (partition_count * task_count) as nat;
                assert forall|t: int| 0 <= t < task_count implies groups_view(
                    (#[trigger] tasks@[t])@,
                ) == Seq::new(
                    partition_count as nat,
                    |g: int| dealt_group(files_of(views), all, t + g * task_count),
                ) by {
                    assert(groups_view(tasks@[t]@) =~= Seq::new(
                        partition_count as nat,
                        |g: int| dealt_group(files_of(views), all, t + g * task_count),
                    ));
                }
            }
            return tasks;
        }
        let repartitioned = repartition_file_groups(
            &file_groups,
            partition_count * task_count,
            0,
            keep_order,
        );
        let ghost made = if repartitioned is Some {
            repartitioned->0@
        } else {
            given
        };
        let tasks = scale_up_file_scan(
            file_groups,
            repartitioned,
            false,
            partition_count,
            task_count,
        );
        proof {
            assert forall|t: int| 0 <= t < task_count implies groups_view((#[trigger] tasks@[t])@)
                == dealt_group(groups_view(made), task_count as nat, t) by {
                lemma_dealt_views(made, task_count as nat, t);
            }
        }
        tasks
    }
}

/// Tells whether the parts of all files begin before they end and the bytes to read can be counted.
pub fn is_countable(file_groups: &Vec<Vec<ScannedFile>>) -> (yes: bool)
    ensures
        yes == (all_wf(groups_view(file_groups@)) && all_bytes_read(groups_view(file_groups@))
            <= i64::MAX),
{
    let ghost views = groups_view(file_groups@);
    let mut total: u64 = 0;
    for g in 0..file_groups.len()
        invariant
            views == groups_view(file_groups@),
            forall|h: int, i: int|
                0 <= h < g && 0 <= i < views[h].len() ==> (#[trigger] views[h][i]).wf(),
            total == all_bytes_read(views.take(g as int)),
            total <= i64::MAX,
    {
        let group = &file_groups[g];
        let ghost before = total as nat;
        proof {
            assert(views[g as int] == group@);
            assert(views.take(g + 1).drop_last() =~= views.take(g as int));
            assert(views.take(g + 1).last() == group@);
            lemma_bytes_grow(views, g + 1);
        }
        for i in 0..group.len()
            invariant
                views[g as int] == group@,
                0 <= g < views.len(),
                views == groups_view(file_groups@),
                before == all_bytes_read(views.take(g as int)),
                all_bytes_read(views) >= before + bytes_read(group@),
                forall|k: int| 0 <= k < i ==> (#[trigger] group@[k]).wf(),
                total == before + bytes_read(group@.take(i as int)),
                total <= i64::MAX,
        {
            let file = group[i];
            if let Some((start, end)) = file.range {
                if start < 0 || end < start {
                    proof {
                        assert(!views[g as int][i as int].wf());
                    }
                    return false;
                }
            }
            proof {
                assert(group@.take(i + 1).drop_last() =~= group@.take(i as int));
                assert(group@.take(i + 1).last() == file);
                lemma_file_bytes_grow(group@, i + 1);
            }
            let size: u64 = file.effective_size();
            if size > i64::MAX as u64 - total {
                return false;
            }
            total = total + size;
        }
        proof {
            assert(group@.take(group@.len() as int) =~= group@);
        }
    }
    proof {
        assert(views.take(views.len() as int) =~= views);
    }
    true
}

proof fn lemma_bytes_grow(groups: Seq<Seq<ScannedFile>>, g: int)
    requires
        0 <= g <= groups.len(),
    ensures
        all_bytes_read(groups.take(g)) <= all_bytes_read(groups),
    decreases groups.len() - g,
{
    if g < groups.len() {
        lemma_bytes_grow(groups, g + 1);
        assert(groups.take(g + 1).drop_last() =~= groups.take(g));
    } else {
        assert(groups.take(g) =~= groups);
    }
}

proof fn lemma_file_bytes_grow(files: Seq<ScannedFile>, i: int)
    requires
        0 <= i <= files.len(),
    ensures
        bytes_read(files.take(i)) <= bytes_read(files),
    decreases files.len() - i,
{
    if i < files.len() {
        lemma_file_bytes_grow(files, i + 1);
        assert(files.take(i + 1).drop_last() =~= files.take(i));
    } else {
        assert(files.take(i) =~= files);
    }
}

/// A whole file is read in its size, and a part of one in the bytes from where it begins to where it
/// ends: a part and the part after it are read in the bytes of both.
pub proof fn parts_add_up(file: ScannedFile, start: i64, middle: i64, end: i64)
    requires
        0 <= start <= middle <= end,
    ensures
        (ScannedFile { range: None, ..file }).bytes() == file.size,
        (ScannedFile { range: Some((0, end)), ..file }).bytes() == end,
        (ScannedFile { range: Some((start, middle)), ..file }).bytes() + (ScannedFile {
            range: Some((middle, end)),
            ..file
        }).bytes() == (ScannedFile { range: Some((start, end)), ..file }).bytes(),
{
}

/// The bytes that a scan reads are those of its files: each file adds its own, whatever group it is in.
pub proof fn scans_read_all_files(groups: Seq<Seq<ScannedFile>>, g: int, i: int)
    requires
        0 <= g < groups.len(),
        0 <= i < groups[g].len(),
    ensures
        all_bytes_read(Seq::empty()) == 0,
        bytes_read(Seq::empty()) == 0,
        bytes_read(groups[g]) == bytes_read(groups[g].remove(i)) + groups[g][i].bytes(),
        all_bytes_read(groups) == all_bytes_read(groups.remove(g)) + bytes_read(groups[g]),
{
    lemma_bytes_without(groups[g], i);
    lemma_all_bytes_without(groups, g);
}

proof fn lemma_bytes_without(files: Seq<ScannedFile>, i: int)
    requires
        0 <= i < files.len(),
    ensures
        bytes_read(files) == bytes_read(files.remove(i)) + files[i].bytes(),
    decreases files.len(),
{
    if i == files.len() - 1 {
        assert(files.remove(i) =~= files.drop_last());
    } else {
        lemma_bytes_without(files.drop_last(), i);
        assert(files.remove(i).drop_last() =~= files.drop_last().remove(i));
    }
}

proof fn lemma_all_bytes_without(groups: Seq<Seq<ScannedFile>>, g: int)
    requires
        0 <= g < groups.len(),
    ensures
        all_bytes_read(groups) == all_bytes_read(groups.remove(g)) + bytes_read(groups[g]),
    decreases groups.len(),
{
    if g == groups.len() - 1 {
        assert(groups.remove(g) =~= groups.drop_last());
    } else {
        lemma_all_bytes_without(groups.drop_last(), g);
        assert(groups.remove(g).drop_last() =~= groups.drop_last().remove(g));
    }
}

/// The number of files in some groups.
pub open spec fn file_count(groups: Seq<Seq<ScannedFile>>) -> nat
    decreases groups.len(),
{
    if groups.len() == 0 {
        0
    } else {
        file_count(groups.drop_last()) + groups.last().len()
    }
}

/// All the files of all the groups are there, in the order of the groups: a file stands after all those
/// of the groups before and those before it in its own.
pub proof fn all_files_stand_in_order(groups: Seq<Seq<ScannedFile>>, g: int, i: int)
    requires
        0 <= g < groups.len(),
        0 <= i < groups[g].len(),
    ensures
        files_of(groups).len() == file_count(groups),
        file_count(groups.take(g)) + i < files_of(groups).len(),
        files_of(groups)[file_count(groups.take(g)) + i] == groups[g][i],
    decreases groups.len(),
{
    let front = groups.drop_last();
    lemma_file_count(front);
    if g == groups.len() - 1 {
        assert(groups.take(g) =~= front);
    } else {
        all_files_stand_in_order(front, g, i);
        assert(front.take(g) =~= groups.take(g));
        assert(front[g] == groups[g]);
    }
}

proof fn lemma_file_count(groups: Seq<Seq<ScannedFile>>)
    ensures
        files_of(groups).len() == file_count(groups),
    decreases groups.len(),
{
    if groups.len() > 0 {
        lemma_file_count(groups.drop_last());
    }
}

/// The place among all files of the `j`-th file of the `g`-th group of a task.
pub open spec fn position(
    t: int,
    g: int,
    j: int,
    partition_count: usize,
    task_count: usize,
) -> int {
    t + g * task_count + j * (partition_count * task_count)
}

/// Whether the `j`-th file of a group is the one at the given place among all files.
pub open spec fn holds_file(
    group: Seq<ScannedFile>,
    j: int,
    files: Seq<ScannedFile>,
    place: int,
) -> bool {
    0 <= place < files.len() && group[j] == files[place]
}

proof fn lemma_dealt_position(n: nat, groups: nat, g: int, j: int)
    requires
        0 <= g < groups,
        0 <= j < dealt_len(n, groups, g),
    ensures
        0 <= g + j * groups < n,
{
    let (q, r) = (n / groups, n % groups);
    vstd::arithmetic::div_mod::lemma_fundamental_div_mod(n as int, groups as int);
    assert(0 <= g + j * groups < n) by (nonlinear_arith)
        requires
            n == groups * q + r,
            0 <= r < groups,
            0 <= g < groups,
            0 <= j,
            g < r ==> j <= q,
            g >= r ==> j < q,
    ;
}

/// Every file of a scan with a declared output partitioning is read by exactly one of its tasks: it
/// stands in one group of one task, in one place, and every place holds a file of the scan.
pub proof fn every_file_is_read_once(
    groups: Seq<Seq<ScannedFile>>,
    keep_order: bool,
    partition_count: usize,
    task_count: usize,
    tasks: Seq<Vec<Vec<ScannedFile>>>,
    i: int,
) -> (place: (int, int, int))
    requires
        is_spread(groups, true, keep_order, partition_count, task_count, tasks),
        task_count > 0,
        partition_count > 0,
        0 <= i < files_of(groups).len(),
    ensures
        0 <= place.0 < tasks.len(),
        0 <= place.1 < tasks[place.0]@.len(),
        0 <= place.2 < tasks[place.0]@[place.1]@.len(),
        tasks[place.0]@[place.1]@[place.2] == files_of(groups)[i],
        tasks.len() == task_count,
        forall|t: int| 0 <= t < tasks.len() ==> (#[trigger] tasks[t])@.len() == partition_count,
        position(place.0, place.1, place.2, partition_count, task_count) == i,
        forall|t: int, g: int, j: int|
            0 <= t < tasks.len() && 0 <= g < tasks[t]@.len() && 0 <= j < tasks[t]@[g]@.len()
                ==> #[trigger] holds_file(
                tasks[t]@[g]@,
                j,
                files_of(groups),
                position(t, g, j, partition_count, task_count),
            ),
{
    let all = (partition_count * task_count) as nat;
    let n = all as int;
    let files = files_of(groups);
    assert(all > 0) by (nonlinear_arith)
        requires
            all == partition_count * task_count,
            partition_count > 0,
            task_count > 0,
    ;
    round_robin_places_every_item(files, all, i);
    let slot = i % n;
    let j = i / n;
    let k = task_count as int;
    let (t, g) = (slot % k, slot / k);
    vstd::arithmetic::div_mod::lemma_fundamental_div_mod(slot, k);
    assert(0 <= g < partition_count) by (nonlinear_arith)
        requires
            slot == k * g + t,
            0 <= t < k,
            0 <= slot < n,
            n == partition_count * k,
    ;
    assert(g * k == k * g) by (nonlinear_arith);
    vstd::arithmetic::div_mod::lemma_fundamental_div_mod(i, n);
    assert(j * n == n * j) by (nonlinear_arith);
    assert(position(t, g, j, partition_count, task_count) == t + g * k + j * n);
    assert forall|u: int| 0 <= u < tasks.len() implies (#[trigger] tasks[u])@.len()
        == partition_count by {
        assert(groups_view(tasks[u]@).len() == partition_count);
    }
    assert forall|u: int, h: int| 0 <= u < tasks.len() && 0 <= h < partition_count implies (
    #[trigger] tasks[u]@[h])@ == dealt_group(files, all, u + h * task_count) by {
        assert(groups_view(tasks[u]@)[h] == tasks[u]@[h]@);
    }
    assert(tasks[t]@[g]@ == dealt_group(files, all, slot));
    assert forall|u: int, h: int, m: int|
        0 <= u < tasks.len() && 0 <= h < tasks[u]@.len() && 0 <= m < tasks[u]@[h]@.len() implies
        #[trigger] holds_file(
        tasks[u]@[h]@,
        m,
        files,
        position(u, h, m, partition_count, task_count),
    ) by {
        let s = u + h * k;
        assert(0 <= s < n) by (nonlinear_arith)
            requires
                s == u + h * k,
                0 <= u < k,
                0 <= h < partition_count,
                n == partition_count * k,
        ;
        assert(tasks[u]@[h]@ == dealt_group(files, all, s));
        lemma_dealt_position(files.len(), all, s, m);
        assert(m * all == m * n);
    }
    (t, g, j)
}

} // verus!
