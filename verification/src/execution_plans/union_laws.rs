use crate::distributed_planner::annotation_laws::lemma_task_of_slot;
use crate::execution_plans::children_isolator_union::{
    all_slots, lemma_run_start, lemma_slot_in_range, lemma_slots_len, lemma_slots_prefix, locate,
    most_partitions, observed_after, observed_poll, rows_handed_on, rows_of, run_partitions,
    run_start, task_runs, total_count, trim_tasks, trimming_is_fair, ObservedStream, Slot,
    StreamPoll,
};
use crate::execution_plans::partition_isolator::lemma_starts_increase;
use crate::stage::DistributedTaskContext;
use vstd::prelude::*;

verus! {

proof fn lemma_slots_distinct(counts: Seq<usize>, a: int, b: int)
    requires
        counts.len() <= usize::MAX,
        0 <= a < b < all_slots(counts).len(),
    ensures
        all_slots(counts)[a] != all_slots(counts)[b],
    decreases counts.len(),
{
    let front = counts.drop_last();
    let m = all_slots(front).len();
    if b < m {
        lemma_slots_distinct(front, a, b);
    } else if a < m {
        lemma_slot_in_range(front, a);
    }
}

/// Whether a task runs a piece of a child at some place.
pub open spec fn runs_piece(runs: Seq<Seq<Slot>>, t: int, a: int, piece: Slot) -> bool {
    0 <= t < runs.len() && 0 <= a < runs[t].len() && runs[t][a] == piece
}

/// Whether some task runs a piece of a child.
pub open spec fn is_run(runs: Seq<Seq<Slot>>, piece: Slot) -> bool {
    exists|t: int, a: int| #[trigger] runs_piece(runs, t, a, piece)
}

/// A child of a union is cut into a number of pieces, as many as it wants or fewer and at least one if it
/// wants any. Each of the pieces is run by one task and by no other, and nothing else of the child is run:
/// the pieces together are the whole child.
pub proof fn children_are_run_whole(counts: Seq<usize>, budget: usize, child: int) -> (pieces: usize)
    requires
        counts.len() <= usize::MAX,
        0 < budget <= total_count(counts),
        0 <= child < counts.len(),
    ensures
        pieces <= counts[child],
        counts[child] >= 1 ==> pieces >= 1,
        task_runs(counts, budget as nat).len() == budget,
        forall|k: usize|
            k < pieces ==> is_run(
                task_runs(counts, budget as nat),
                #[trigger] piece_of(child, k, pieces),
            ),
        forall|t: int, a: int|
            0 <= t < budget && 0 <= a < task_runs(counts, budget as nat)[t].len() && (
            #[trigger] task_runs(counts, budget as nat)[t][a]).0 == child ==> task_runs(
                counts,
                budget as nat,
            )[t][a] == piece_of(
                child,
                task_runs(counts, budget as nat)[t][a].1.task_index,
                pieces,
            ) && task_runs(counts, budget as nat)[t][a].1.task_index < pieces,
        forall|t: int, a: int, u: int, b: int, piece: Slot|
            #[trigger] runs_piece(task_runs(counts, budget as nat), t, a, piece)
                && #[trigger] runs_piece(task_runs(counts, budget as nat), u, b, piece) ==> t == u
                && a == b,
{
    let surplus = (total_count(counts) - budget) as nat;
    let trimmed = trim_tasks(counts, surplus);
    let slots = all_slots(trimmed);
    let runs = task_runs(counts, budget as nat);
    let n = slots.len();
    trimming_is_fair(counts, surplus);
    lemma_slots_len(trimmed);
    lemma_slots_prefix(trimmed, child);
    lemma_run_start(n, budget as nat, 0);
    let pieces = trimmed[child];
    assert forall|k: usize| k < pieces implies is_run(
        runs,
        #[trigger] piece_of(child, k, pieces),
    ) by {
        let slot = total_count(trimmed.take(child)) + k;
        assert(slots[total_count(trimmed.take(child)) + k as int] == piece_of(child, k, pieces));
        let t = lemma_task_of_slot(n, budget as nat, slot, budget as int);
        lemma_run_start(n, budget as nat, t);
        assert(runs_piece(
            runs,
            t,
            slot - run_start(n, budget as nat, t),
            piece_of(child, k, pieces),
        ));
    }
    assert forall|t: int, a: int|
        0 <= t < budget && 0 <= a < runs[t].len() && (#[trigger] runs[t][a]).0 == child implies
        runs[t][a] == piece_of(child, runs[t][a].1.task_index, pieces) && runs[t][a].1.task_index
        < pieces by {
        lemma_run_start(n, budget as nat, t);
        lemma_slot_in_range(trimmed, run_start(n, budget as nat, t) + a);
    }
    assert forall|t: int, a: int, u: int, b: int, piece: Slot|
        #[trigger] runs_piece(runs, t, a, piece) && #[trigger] runs_piece(
            runs,
            u,
            b,
            piece,
        ) implies t == u && a == b by {
        lemma_run_start(n, budget as nat, t);
        lemma_run_start(n, budget as nat, u);
        let x = run_start(n, budget as nat, t) + a;
        let y = run_start(n, budget as nat, u) + b;
        assert(slots[x] == piece && slots[y] == piece);
        if x < y {
            lemma_slots_distinct(trimmed, x, y);
        } else if y < x {
            lemma_slots_distinct(trimmed, y, x);
        }
        if t < u {
            lemma_starts_increase(n, budget as nat, t + 1, u);
        } else if u < t {
            lemma_starts_increase(n, budget as nat, u + 1, t);
        }
    }
    pieces
}

/// One of the pieces of a child.
pub open spec fn piece_of(child: int, k: usize, pieces: usize) -> Slot {
    (child as usize, DistributedTaskContext { task_index: k, task_count: pieces })
}

/// A union whose children run apart has as many partitions as the task that runs most of them: no task
/// has more, and one has as many.
pub proof fn unions_have_the_partitions_of_the_largest_task(
    runs: Seq<Seq<Slot>>,
    child_partitions: Seq<usize>,
    t: int,
) -> (largest: int)
    requires
        0 <= t < runs.len(),
    ensures
        run_partitions(runs[t], child_partitions) <= most_partitions(runs, child_partitions),
        0 <= largest < runs.len(),
        run_partitions(runs[largest], child_partitions) == most_partitions(runs, child_partitions),
    decreases runs.len(),
{
    let front = runs.drop_last();
    let n = runs.len() - 1;
    if front.len() == 0 {
        assert(most_partitions(front, child_partitions) == 0);
        n
    } else {
        let below = unions_have_the_partitions_of_the_largest_task(
            front,
            child_partitions,
            if t < n {
                t
            } else {
                0
            },
        );
        assert(front[below] == runs[below]);
        if t < n {
            assert(front[t] == runs[t]);
        }
        if run_partitions(runs.last(), child_partitions) > most_partitions(
            front,
            child_partitions,
        ) {
            n
        } else {
            below
        }
    }
}

/// A task of a union serves the partitions of its children and no others: past the last of them there is
/// nothing, and there is something before.
pub proof fn nothing_is_located_past_the_children(
    run: Seq<Slot>,
    child_partitions: Seq<usize>,
    partition: usize,
)
    requires
        forall|a: int| 0 <= a < run.len() ==> #[trigger] run[a].0 < child_partitions.len(),
    ensures
        match locate(run, child_partitions, partition) {
            Ok(None) => partition >= run_partitions(run, child_partitions),
            Ok(Some(located)) => partition < run_partitions(run, child_partitions)
                && located.child_idx < child_partitions.len() && located.partition
                < child_partitions[located.child_idx as int] && run.contains(
                (located.child_idx, located.task_ctx),
            ),
            Err(_) => false,
        },
    decreases run.len(),
{
    if run.len() > 0 {
        let rest = run.drop_first();
        let own = child_partitions[run[0].0 as int];
        assert(run[0].0 < child_partitions.len());
        assert forall|a: int| 0 <= a < rest.len() implies #[trigger] rest[a].0
            < child_partitions.len() by {
            assert(rest[a] == run[a + 1]);
        }
        lemma_first_run(run, child_partitions);
        if partition >= own {
            nothing_is_located_past_the_children(
                rest,
                child_partitions,
                (partition - own) as usize,
            );
            if let Ok(Some(located)) = locate(rest, child_partitions, (partition - own) as usize) {
                let piece = (located.child_idx, located.task_ctx);
                let at = choose|i: int| 0 <= i < rest.len() && rest[i] == piece;
                assert(run[at + 1] == piece);
            }
        } else {
            assert(run[0] == (run[0].0, run[0].1));
        }
    }
}

proof fn lemma_first_run(run: Seq<Slot>, child_partitions: Seq<usize>)
    requires
        run.len() > 0,
    ensures
        run_partitions(run, child_partitions) == child_partitions[run[0].0 as int]
            + run_partitions(run.drop_first(), child_partitions),
    decreases run.len(),
{
    if run.len() == 1 {
        assert(run.drop_last() =~= Seq::empty());
        assert(run.drop_first() =~= Seq::empty());
        assert(run_partitions(run.drop_last(), child_partitions) == 0);
    } else {
        lemma_first_run(run.drop_last(), child_partitions);
        assert(run.drop_last().drop_first() =~= run.drop_first().drop_last());
        assert(run.drop_first().last() == run.last());
    }
}

/// The rows of all the batches that a stream gives.
pub open spec fn rows_given(polls: Seq<StreamPoll>) -> nat
    decreases polls.len(),
{
    if polls.len() == 0 {
        0
    } else {
        rows_given(polls.drop_last()) + match polls.last() {
            StreamPoll::Batch(rows) => rows as nat,
            _ => 0,
        }
    }
}

proof fn lemma_rows_given_first(polls: Seq<StreamPoll>)
    requires
        polls.len() > 0,
    ensures
        rows_given(polls) == rows_given(polls.drop_first()) + match polls[0] {
            StreamPoll::Batch(rows) => rows as nat,
            _ => 0,
        },
    decreases polls.len(),
{
    if polls.len() == 1 {
        assert(polls.drop_last() =~= Seq::empty());
        assert(polls.drop_first() =~= Seq::empty());
        assert(rows_given(polls.drop_last()) == 0);
    } else {
        lemma_rows_given_first(polls.drop_last());
        assert(polls.drop_last().drop_first() =~= polls.drop_first().drop_last());
        assert(polls.drop_first().last() == polls.last());
    }
}

/// An observed stream hands on every row that the inner stream gives, up to the number that is wanted:
/// without a limit all of them, and with one all those that it still lets pass.
pub proof fn observed_streams_hand_on_what_is_wanted(
    stream: ObservedStream,
    polls: Seq<StreamPoll>,
)
    requires
        stream.fetch matches Some(fetch) ==> stream.produced <= fetch,
    ensures
        rows_handed_on(stream, polls) == match stream.fetch {
            Some(fetch) => if rows_given(polls) <= fetch - stream.produced {
                rows_given(polls)
            } else {
                (fetch - stream.produced) as nat
            },
            None => rows_given(polls),
        },
    decreases polls.len(),
{
    if polls.len() > 0 {
        lemma_rows_given_first(polls);
        observed_streams_hand_on_what_is_wanted(
            observed_after(stream, polls[0]),
            polls.drop_first(),
        );
    }
}

/// What an observed stream hands on is what the inner stream gave, except that it ends once enough rows
/// have passed and that the last batch is cut: a failure is not lost and a pause not taken for an end.
pub proof fn observed_streams_pass_on_failures(stream: ObservedStream, poll: StreamPoll)
    ensures
        ({
            let full = stream.fetch matches Some(fetch) && stream.produced >= fetch;
            let handed_on = observed_poll(stream, poll);
            &&& full ==> handed_on is Finished
            &&& !full && !(poll is Batch) ==> handed_on == poll
            &&& !full && poll is Batch ==> handed_on is Batch && rows_of(handed_on) <= rows_of(poll)
        }),
{
}

} // verus!
