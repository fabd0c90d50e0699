use crate::display::graphviz::{
    crossing_at, crossing_text, edge_text, graph_name, inter_task_text, style_text, task_text,
    DrawnView, EdgeStyle, TaskPlace,
};
use crate::display::shown_plan::{ShownRole, ShownView};
use crate::display::stage_graph::{
    all_reads_text, all_stages, all_tasks_text, drawn_stages, graph_text, input_stages,
    inputs_among, max_num, pair_text, pairs_text, reads_text, stage_reads_text, stage_tasks_text,
    stages_among, GRAPH_TOP,
};
use crate::text::{holds, occurs_at};
use vstd::prelude::*;

verus! {

/// Whether a node stands anywhere in a plan.
pub open spec fn stands_in(plan: ShownView, node: ShownView) -> bool
    decreases plan,
{
    plan == node || exists|i: int|
        0 <= i < plan.children.len() && stands_in(#[trigger] plan.children[i], node)
}

/// Whether a plan reads from another stage at the given node, with no stage in between.
pub open spec fn reads_at(plan: ShownView, node: ShownView) -> bool
    decreases plan,
{
    exists|i: int|
        0 <= i < plan.children.len() && if (#[trigger] plan.children[i]).role is Boundary {
            plan.children[i] == node
        } else {
            reads_at(plan.children[i], node)
        }
}

/// Whether what is drawn of a stage is what the node that reads from it knows: its number, its tasks and
/// its plan, which stands below that node where it is at hand.
pub open spec fn is_read_by(stage: DrawnView, node: ShownView) -> bool {
    &&& node.role matches ShownRole::Boundary(known)
    &&& stage.num == known.num
    &&& stage.n_tasks == known.n_tasks
    &&& node.children.len() == 0 ==> stage.plan is None
    &&& node.children.len() > 0 ==> stage.plan == Some(node.children[0])
}

/// Every stage of a plan is drawn, wherever in the plan it is read.
pub proof fn every_stage_is_drawn(plan: ShownView, node: ShownView) -> (place: int)
    requires
        stands_in(plan, node),
        node.role is Boundary,
    ensures
        0 <= place < all_stages(plan).len(),
        is_read_by(all_stages(plan)[place], node),
    decreases plan,
{
    if plan == node {
        0
    } else {
        let i = choose|i: int|
            0 <= i < plan.children.len() && stands_in(#[trigger] plan.children[i], node);
        let inner = every_stage_is_drawn(plan.children[i], node);
        let among = lemma_stage_among(plan.children, i, inner);
        let own: int = if plan.role is Boundary { 1 } else { 0 };
        assert(all_stages(plan)[own + among] == stages_among(plan.children)[among]);
        own + among
    }
}

proof fn lemma_stage_among(plans: Seq<ShownView>, i: int, inner: int) -> (place: int)
    requires
        0 <= i < plans.len(),
        0 <= inner < all_stages(plans[i]).len(),
    ensures
        0 <= place < stages_among(plans).len(),
        stages_among(plans)[place] == all_stages(plans[i])[inner],
    decreases plans.len(),
{
    let before = stages_among(plans.drop_last());
    if i == plans.len() - 1 {
        before.len() + inner
    } else {
        lemma_stage_among(plans.drop_last(), i, inner)
    }
}

/// Nothing is drawn but the stages that some node of the plan reads from.
pub proof fn only_stages_of_the_plan_are_drawn(plan: ShownView, place: int) -> (node: ShownView)
    requires
        0 <= place < all_stages(plan).len(),
    ensures
        stands_in(plan, node),
        is_read_by(all_stages(plan)[place], node),
    decreases plan, 0int,
{
    let own: int = if plan.role is Boundary { 1 } else { 0 };
    if place < own {
        plan
    } else {
        let (i, node) = lemma_node_among(plan.children, place - own);
        assert(stands_in(plan.children[i], node));
        node
    }
}

proof fn lemma_node_among(plans: Seq<ShownView>, place: int) -> (found: (int, ShownView))
    requires
        0 <= place < stages_among(plans).len(),
    ensures
        0 <= found.0 < plans.len(),
        stands_in(plans[found.0], found.1),
        is_read_by(stages_among(plans)[place], found.1),
    decreases plans, 1int,
{
    let before = stages_among(plans.drop_last());
    if place < before.len() {
        lemma_node_among(plans.drop_last(), place)
    } else {
        (plans.len() - 1, only_stages_of_the_plan_are_drawn(plans.last(), place - before.len()))
    }
}

/// Every stage that a plan reads from with no stage in between is found.
pub proof fn every_input_is_found(plan: ShownView, node: ShownView) -> (place: int)
    requires
        reads_at(plan, node),
    ensures
        0 <= place < input_stages(plan).len(),
        is_read_by(input_stages(plan)[place], node),
    decreases plan, 0int,
{
    let i = choose|i: int|
        0 <= i < plan.children.len() && if (#[trigger] plan.children[i]).role is Boundary {
            plan.children[i] == node
        } else {
            reads_at(plan.children[i], node)
        };
    lemma_input_among(plan.children, i, node)
}

proof fn lemma_input_among(plans: Seq<ShownView>, i: int, node: ShownView) -> (place: int)
    requires
        0 <= i < plans.len(),
        if plans[i].role is Boundary {
            plans[i] == node
        } else {
            reads_at(plans[i], node)
        },
    ensures
        0 <= place < inputs_among(plans).len(),
        is_read_by(inputs_among(plans)[place], node),
    decreases plans, 1int,
{
    let before = inputs_among(plans.drop_last());
    if i < plans.len() - 1 {
        lemma_input_among(plans.drop_last(), i, node)
    } else if plans[i].role is Boundary {
        before.len() as int
    } else {
        before.len() + every_input_is_found(plans[i], node)
    }
}

/// Nothing is found but the stages that the plan reads from with no stage in between.
pub proof fn only_inputs_are_found(plan: ShownView, place: int) -> (node: ShownView)
    requires
        0 <= place < input_stages(plan).len(),
    ensures
        reads_at(plan, node),
        is_read_by(input_stages(plan)[place], node),
    decreases plan, 0int,
{
    let (i, node) = lemma_reading_node(plan.children, place);
    assert(plan.children[i].role is Boundary || reads_at(plan.children[i], node));
    node
}

proof fn lemma_reading_node(plans: Seq<ShownView>, place: int) -> (found: (int, ShownView))
    requires
        0 <= place < inputs_among(plans).len(),
    ensures
        0 <= found.0 < plans.len(),
        if plans[found.0].role is Boundary {
            plans[found.0] == found.1
        } else {
            reads_at(plans[found.0], found.1)
        },
        is_read_by(inputs_among(plans)[place], found.1),
    decreases plans, 1int,
{
    let before = inputs_among(plans.drop_last());
    if place < before.len() {
        lemma_reading_node(plans.drop_last(), place)
    } else if plans.last().role is Boundary {
        (plans.len() - 1, plans.last())
    } else {
        (plans.len() - 1, only_inputs_are_found(plans.last(), place - before.len()))
    }
}

/// The plan itself is drawn as a stage of one task, under a number that no other stage has, while there is
/// such a number.
pub proof fn the_plan_is_drawn_as_a_stage(plan: ShownView, place: int)
    requires
        0 <= place < all_stages(plan).len(),
        forall|i: int|
            0 <= i < all_stages(plan).len() ==> (#[trigger] all_stages(plan)[i]).num < usize::MAX,
    ensures
        drawn_stages(plan).len() == all_stages(plan).len() + 1,
        drawn_stages(plan)[0].n_tasks == 1,
        drawn_stages(plan)[0].plan == Some(plan),
        drawn_stages(plan)[0].num > all_stages(plan)[place].num,
        drawn_stages(plan)[place + 1] == all_stages(plan)[place],
{
    lemma_max_num(all_stages(plan), place);
}

proof fn lemma_max_num(stages: Seq<DrawnView>, place: int)
    requires
        0 <= place < stages.len(),
        forall|i: int| 0 <= i < stages.len() ==> (#[trigger] stages[i]).num < usize::MAX,
    ensures
        stages[place].num <= max_num(stages) < usize::MAX,
    decreases stages.len(),
{
    let before = stages.drop_last();
    assert forall|i: int| 0 <= i < before.len() implies (#[trigger] before[i]).num < usize::MAX by {
        assert(stages[i].num < usize::MAX);
    }
    assert(stages[stages.len() - 1].num < usize::MAX);
    assert(before.len() == 0 ==> max_num(before) == 0);
    if before.len() > 0 {
        lemma_max_num(before, if place < before.len() { place } else { 0 });
    }
}

proof fn lemma_holds_left(a: Seq<char>, b: Seq<char>, part: Seq<char>)
    requires
        holds(a, part),
    ensures
        holds(a + b, part),
{
    let place = choose|place: int| occurs_at(a, part, place);
    assert((a + b).subrange(place, place + part.len()) =~= a.subrange(
        place,
        place + part.len(),
    ));
    assert(occurs_at(a + b, part, place));
}

proof fn lemma_holds_right(a: Seq<char>, b: Seq<char>, part: Seq<char>)
    requires
        holds(b, part),
    ensures
        holds(a + b, part),
{
    let place = choose|place: int| occurs_at(b, part, place);
    assert((a + b).subrange(a.len() + place, a.len() + place + part.len()) =~= b.subrange(
        place,
        place + part.len(),
    ));
    assert(occurs_at(a + b, part, a.len() + place));
}

proof fn lemma_holds_itself(text: Seq<char>)
    ensures
        holds(text, text),
{
    assert(text.subrange(0, text.len() as int) =~= text);
    assert(occurs_at(text, text, 0));
}

/// Every task of every stage is drawn.
pub proof fn every_task_is_drawn(plan: ShownView, s: int, task: usize)
    requires
        0 <= s < drawn_stages(plan).len(),
        task < drawn_stages(plan)[s].n_tasks,
    ensures
        holds(
            graph_text(plan, true),
            task_text(
                drawn_stages(plan)[s].num,
                drawn_stages(plan)[s].n_tasks,
                drawn_stages(plan)[s].plan->0,
                task,
            ),
        ),
{
    let stages = drawn_stages(plan);
    let part = task_text(stages[s].num, stages[s].n_tasks, stages[s].plan->0, task);
    lemma_all_tasks_drawn(stages, s, task);
    lemma_holds_left(all_tasks_text(stages), all_reads_text(stages), part);
    lemma_holds_in_graph(plan, part);
}

proof fn lemma_holds_in_graph(plan: ShownView, part: Seq<char>)
    requires
        holds(all_tasks_text(drawn_stages(plan)) + all_reads_text(drawn_stages(plan)), part),
    ensures
        holds(graph_text(plan, true), part),
{
    let inner = all_tasks_text(drawn_stages(plan)) + all_reads_text(drawn_stages(plan));
    lemma_holds_right(GRAPH_TOP@, inner, part);
    lemma_holds_left(GRAPH_TOP@ + inner, "}\n"@, part);
}

proof fn lemma_all_tasks_drawn(stages: Seq<DrawnView>, s: int, task: usize)
    requires
        0 <= s < stages.len(),
        task < stages[s].n_tasks,
    ensures
        holds(
            all_tasks_text(stages),
            task_text(stages[s].num, stages[s].n_tasks, stages[s].plan->0, task),
        ),
    decreases stages.len(),
{
    let part = task_text(stages[s].num, stages[s].n_tasks, stages[s].plan->0, task);
    let before = all_tasks_text(stages.drop_last());
    let last = stage_tasks_text(stages.last(), stages.last().n_tasks as nat);
    if s == stages.len() - 1 {
        lemma_stage_tasks_drawn(stages[s], stages[s].n_tasks as nat, task);
        lemma_holds_right(before, last, part);
    } else {
        lemma_all_tasks_drawn(stages.drop_last(), s, task);
        lemma_holds_left(before, last, part);
    }
}

proof fn lemma_stage_tasks_drawn(stage: DrawnView, n: nat, task: usize)
    requires
        task < n <= usize::MAX,
    ensures
        holds(
            stage_tasks_text(stage, n),
            task_text(stage.num, stage.n_tasks, stage.plan->0, task),
        ),
    decreases n,
{
    let part = task_text(stage.num, stage.n_tasks, stage.plan->0, task);
    let before = stage_tasks_text(stage, (n - 1) as nat);
    let last = task_text(stage.num, stage.n_tasks, stage.plan->0, (n - 1) as usize);
    if task == n - 1 {
        lemma_holds_itself(part);
        lemma_holds_right(before, last, part);
    } else {
        lemma_stage_tasks_drawn(stage, (n - 1) as nat, task);
        lemma_holds_left(before, last, part);
    }
    lemma_holds_left(before + last, "\n"@, part);
}

/// The edges between two tasks of two stages.
pub open spec fn edges_between(
    stage: DrawnView,
    task: usize,
    input: DrawnView,
    input_task: usize,
) -> Seq<char> {
    pair_text(
        input.num,
        input_task,
        stage.num,
        task,
        inter_task_text(
            stage.num,
            stage.plan->0,
            task,
            input.num,
            input.n_tasks,
            input.plan->0,
            input_task,
        ),
    )
}

/// Between a stage and one that it reads from, the edges are drawn for every task of the one and every
/// task of the other.
pub proof fn every_pair_of_tasks_is_connected(
    plan: ShownView,
    s: int,
    i: int,
    task: usize,
    input_task: usize,
)
    requires
        0 <= s < drawn_stages(plan).len(),
        drawn_stages(plan)[s].plan is Some,
        task < drawn_stages(plan)[s].n_tasks,
        0 <= i < input_stages(drawn_stages(plan)[s].plan->0).len(),
        input_task < input_stages(drawn_stages(plan)[s].plan->0)[i].n_tasks,
    ensures
        holds(
            graph_text(plan, true),
            edges_between(
                drawn_stages(plan)[s],
                task,
                input_stages(drawn_stages(plan)[s].plan->0)[i],
                input_task,
            ),
        ),
{
    let stages = drawn_stages(plan);
    let inputs = input_stages(stages[s].plan->0);
    let part = edges_between(stages[s], task, inputs[i], input_task);
    lemma_stage_reads_drawn(stages[s], inputs, i, task, input_task);
    lemma_all_reads_drawn(stages, s, part);
    lemma_holds_right(all_tasks_text(stages), all_reads_text(stages), part);
    lemma_holds_in_graph(plan, part);
}

proof fn lemma_all_reads_drawn(stages: Seq<DrawnView>, s: int, part: Seq<char>)
    requires
        0 <= s < stages.len(),
        stages[s].plan is Some,
        holds(stage_reads_text(stages[s], input_stages(stages[s].plan->0)), part),
    ensures
        holds(all_reads_text(stages), part),
    decreases stages.len(),
{
    let before = all_reads_text(stages.drop_last());
    let last = match stages.last().plan {
        Some(plan) => stage_reads_text(stages.last(), input_stages(plan)),
        None => Seq::empty(),
    };
    if s == stages.len() - 1 {
        lemma_holds_right(before, last, part);
    } else {
        lemma_all_reads_drawn(stages.drop_last(), s, part);
        lemma_holds_left(before, last, part);
    }
}

proof fn lemma_stage_reads_drawn(
    stage: DrawnView,
    inputs: Seq<DrawnView>,
    i: int,
    task: usize,
    input_task: usize,
)
    requires
        0 <= i < inputs.len(),
        task < stage.n_tasks,
        input_task < inputs[i].n_tasks,
    ensures
        holds(
            stage_reads_text(stage, inputs),
            edges_between(stage, task, inputs[i], input_task),
        ),
    decreases inputs.len(),
{
    let part = edges_between(stage, task, inputs[i], input_task);
    let before = stage_reads_text(stage, inputs.drop_last());
    let last = reads_text(stage, inputs.last(), stage.n_tasks as nat);
    if i == inputs.len() - 1 {
        lemma_reads_drawn(stage, inputs[i], stage.n_tasks as nat, task, input_task);
        lemma_holds_right(before, last, part);
    } else {
        lemma_stage_reads_drawn(stage, inputs.drop_last(), i, task, input_task);
        lemma_holds_left(before, last, part);
    }
}

proof fn lemma_reads_drawn(
    stage: DrawnView,
    input: DrawnView,
    n: nat,
    task: usize,
    input_task: usize,
)
    requires
        task < n <= usize::MAX,
        input_task < input.n_tasks,
    ensures
        holds(reads_text(stage, input, n), edges_between(stage, task, input, input_task)),
    decreases n,
{
    let part = edges_between(stage, task, input, input_task);
    let before = reads_text(stage, input, (n - 1) as nat);
    let last = pairs_text(stage, (n - 1) as usize, input, input.n_tasks as nat);
    if task == n - 1 {
        lemma_pairs_drawn(stage, task, input, input.n_tasks as nat, input_task);
        lemma_holds_right(before, last, part);
    } else {
        lemma_reads_drawn(stage, input, (n - 1) as nat, task, input_task);
        lemma_holds_left(before, last, part);
    }
}

proof fn lemma_pairs_drawn(
    stage: DrawnView,
    task: usize,
    input: DrawnView,
    n: nat,
    input_task: usize,
)
    requires
        input_task < n <= usize::MAX,
    ensures
        holds(pairs_text(stage, task, input, n), edges_between(stage, task, input, input_task)),
    decreases n,
{
    let part = edges_between(stage, task, input, input_task);
    let before = pairs_text(stage, task, input, (n - 1) as nat);
    let last = edges_between(stage, task, input, (n - 1) as usize);
    if input_task == n - 1 {
        lemma_holds_itself(part);
        lemma_holds_right(before, last, part);
    } else {
        lemma_pairs_drawn(stage, task, input, (n - 1) as nat, input_task);
        lemma_holds_left(before, last, part);
    }
}

/// A coalesce reads all the partitions of every task of the stage below: the edge of the `p`-th partition
/// of a task leads from the `p`-th port of that task to the port behind those of the tasks before it.
pub proof fn coalesces_read_every_partition(
    plan: ShownView,
    index: nat,
    reader: TaskPlace,
    source_name: Seq<char>,
    source: TaskPlace,
    source_tasks: usize,
    style: EdgeStyle,
    p: nat,
)
    requires
        source.task < source_tasks,
        plan.role matches ShownRole::Boundary(stage) && stage.num == source.num
            && stage.kind is Coalesce,
        p < plan.partitions as nat / source_tasks as nat,
    ensures
        holds(
            crossing_at(plan, index, reader, source_name, source, source_tasks, style),
            edge_text(
                graph_name(source_name, source.num, source.task, 1),
                p,
                graph_name(plan.name, reader.num, reader.task, index),
                (p + source.task * (plan.partitions as nat / source_tasks as nat)) as nat,
                style_text(style, p),
                p,
            ),
        ),
{
    let each = plan.partitions as nat / source_tasks as nat;
    lemma_crossing_drawn(
        graph_name(source_name, source.num, source.task, 1),
        0,
        graph_name(plan.name, reader.num, reader.task, index),
        source.task * each,
        style,
        each,
        p,
    );
}

proof fn lemma_crossing_drawn(
    from: Seq<char>,
    from_first: int,
    to: Seq<char>,
    to_first: int,
    style: EdgeStyle,
    n: nat,
    p: nat,
)
    requires
        p < n,
    ensures
        holds(
            crossing_text(from, from_first, to, to_first, style, n),
            edge_text(
                from,
                (p + from_first) as nat,
                to,
                (p + to_first) as nat,
                style_text(style, p),
                p,
            ),
        ),
    decreases n,
{
    let last = (n - 1) as nat;
    let before = crossing_text(from, from_first, to, to_first, style, last);
    let part = edge_text(
        from,
        (p + from_first) as nat,
        to,
        (p + to_first) as nat,
        style_text(style, p),
        p,
    );
    let edge = edge_text(
        from,
        (last + from_first) as nat,
        to,
        (last + to_first) as nat,
        style_text(style, last),
        last,
    );
    if p == last {
        lemma_holds_itself(part);
        lemma_holds_right(before, edge, part);
    } else {
        lemma_crossing_drawn(from, from_first, to, to_first, style, last, p);
        lemma_holds_left(before, edge, part);
    }
}

} // verus!
