use crate::display::graphviz::{
    crossing_fits, crossings_fit, display_inter_task_edges, display_plan, display_single_task,
    drawn_views, inter_task_text, lemma_block, plan_text, task_text, tasks_can_be_connected,
    DrawnStage, DrawnView, GraphError, TaskPlace,
};
use crate::display::shown_plan::{
    lemma_shown_children, shown_views, visits, walk, walk_plan, ShownPlan, ShownRole, ShownStage,
    ShownView, WalkLimit,
};
use crate::protobuf::distributed_codec::NetworkKind;
use crate::text::{decimal, push_usize};
use vstd::prelude::*;

verus! {

/// How a drawing begins.
pub const GRAPH_TOP: &'static str = "digraph G {
  rankdir=BT
  edge[colorscheme=spectral6, penwidth=2.0]
  splines=false

";

/// The stage that a network boundary reads from.
pub open spec fn drawn_at(boundary: ShownView, stage: ShownStage) -> DrawnView {
    DrawnView {
        num: stage.num,
        n_tasks: stage.n_tasks,
        plan: if boundary.children.len() > 0 {
            Some(boundary.children[0])
        } else {
            None
        },
    }
}

/// The stages that a plan reads from.
pub open spec fn input_stages(plan: ShownView) -> Seq<DrawnView>
    decreases plan,
{
    inputs_among(plan.children)
}

/// The stages that some nodes read from, or the nodes below them.
pub open spec fn inputs_among(plans: Seq<ShownView>) -> Seq<DrawnView>
    decreases plans,
{
    if plans.len() == 0 {
        Seq::empty()
    } else {
        inputs_among(plans.drop_last()) + match plans.last().role {
            ShownRole::Boundary(stage) => seq![drawn_at(plans.last(), stage)],
            _ => input_stages(plans.last()),
        }
    }
}

/// All the stages below a node, and that which it reads from itself.
pub open spec fn all_stages(plan: ShownView) -> Seq<DrawnView>
    decreases plan,
{
    (match plan.role {
        ShownRole::Boundary(stage) => seq![drawn_at(plan, stage)],
        _ => Seq::empty(),
    }) + stages_among(plan.children)
}

/// All the stages at some nodes and below them.
pub open spec fn stages_among(plans: Seq<ShownView>) -> Seq<DrawnView>
    decreases plans,
{
    if plans.len() == 0 {
        Seq::empty()
    } else {
        stages_among(plans.drop_last()) + all_stages(plans.last())
    }
}

fn draw_stage<'a>(boundary: &'a ShownPlan, stage: ShownStage) -> (drawn: DrawnStage<'a>)
    ensures
        drawn@ == drawn_at(boundary@, stage),
{
    proof {
        lemma_shown_children(*boundary);
    }
    DrawnStage {
        num: stage.num,
        n_tasks: stage.n_tasks,
        plan: if boundary.children.len() > 0 {
            Some(&boundary.children[0])
        } else {
            None
        },
    }
}

fn add_input_stages<'a>(plan: &'a ShownPlan, found: &mut Vec<DrawnStage<'a>>)
    ensures
        drawn_views(final(found)@) == drawn_views(old(found)@) + input_stages(plan@),
    decreases *plan,
{
    let ghost start = drawn_views(found@);
    let ghost views = shown_views(plan.children@);
    proof {
        lemma_shown_children(*plan);
        assert(views.take(0) =~= Seq::empty());
        assert(start + inputs_among(views.take(0)) =~= start);
    }
    for i in 0..plan.children.len()
        invariant
            views == shown_views(plan.children@),
            drawn_views(found@) == start + inputs_among(views.take(i as int)),
    {
        let child = &plan.children[i];
        let ghost before = drawn_views(found@);
        proof {
            assert(views.take(i + 1).drop_last() =~= views.take(i as int));
            assert(views.take(i + 1).last() == child@);
            lemma_shown_children(*child);
        }
        match child.role {
            ShownRole::Boundary(stage) => {
                found.push(draw_stage(child, stage));
                proof {
                    assert(drawn_views(found@) =~= before + seq![drawn_at(child@, stage)]);
                }
            },
            _ => {
                add_input_stages(child, found);
            },
        }
        proof {
            assert(drawn_views(found@) =~= start + inputs_among(views.take(i + 1)));
        }
    }
    proof {
        assert(views.take(views.len() as int) =~= views);
    }
}

/// The stages that a plan reads from.
pub fn find_input_stages<'a>(plan: &'a ShownPlan) -> (found: Vec<DrawnStage<'a>>)
    ensures
        drawn_views(found@) == input_stages(plan@),
{
    let mut found: Vec<DrawnStage<'a>> = Vec::new();
    add_input_stages(plan, &mut found);
    proof {
        assert(drawn_views(found@) =~= input_stages(plan@));
    }
    found
}

fn add_all_stages<'a>(plan: &'a ShownPlan, found: &mut Vec<DrawnStage<'a>>)
    ensures
        drawn_views(final(found)@) == drawn_views(old(found)@) + all_stages(plan@),
    decreases *plan,
{
    let ghost first = drawn_views(found@);
    proof {
        lemma_shown_children(*plan);
    }
    if let ShownRole::Boundary(stage) = plan.role {
        found.push(draw_stage(plan, stage));
        proof {
            assert(drawn_views(found@) =~= first + seq![drawn_at(plan@, stage)]);
        }
    }
    let ghost start = drawn_views(found@);
    let ghost views = shown_views(plan.children@);
    proof {
        assert(views.take(0) =~= Seq::empty());
        assert(start + stages_among(views.take(0)) =~= start);
    }
    for i in 0..plan.children.len()
        invariant
            views == shown_views(plan.children@),
            drawn_views(found@) == start + stages_among(views.take(i as int)),
    {
        proof {
            assert(views.take(i + 1).drop_last() =~= views.take(i as int));
            assert(views.take(i + 1).last() == plan.children@[i as int]@);
        }
        add_all_stages(&plan.children[i], found);
        proof {
            assert(drawn_views(found@) =~= start + stages_among(views.take(i + 1)));
        }
    }
    proof {
        assert(views.take(views.len() as int) =~= views);
        assert(drawn_views(found@) =~= first + all_stages(plan@));
    }
}

/// All the stages of a plan, each before those that it reads from.
pub fn find_all_stages<'a>(plan: &'a ShownPlan) -> (found: Vec<DrawnStage<'a>>)
    ensures
        drawn_views(found@) == all_stages(plan@),
{
    let mut found: Vec<DrawnStage<'a>> = Vec::new();
    add_all_stages(plan, &mut found);
    proof {
        assert(drawn_views(found@) =~= all_stages(plan@));
    }
    found
}

/// The largest number of a stage, or zero if there is none.
pub open spec fn max_num(stages: Seq<DrawnView>) -> usize
    decreases stages.len(),
{
    if stages.len() == 0 {
        0
    } else {
        let before = max_num(stages.drop_last());
        if stages.last().num > before {
            stages.last().num
        } else {
            before
        }
    }
}

fn find_max_num(stages: &Vec<DrawnStage<'_>>) -> (max: usize)
    ensures
        max == max_num(drawn_views(stages@)),
{
    let ghost views = drawn_views(stages@);
    let mut max: usize = 0;
    for i in 0..stages.len()
        invariant
            views == drawn_views(stages@),
            max == max_num(views.take(i as int)),
    {
        proof {
            assert(views.take(i + 1).drop_last() =~= views.take(i as int));
            assert(views.take(i + 1).last() == stages@[i as int]@);
        }
        if stages[i].num > max {
            max = stages[i].num;
        }
    }
    proof {
        assert(views.take(views.len() as int) =~= views);
    }
    max
}

/// The stages of a plan, with the plan itself as one stage of a single task before them all.
pub open spec fn drawn_stages(plan: ShownView) -> Seq<DrawnView> {
    let stages = all_stages(plan);
    seq![
        DrawnView { num: (max_num(stages) + 1) as usize, n_tasks: 1, plan: Some(plan) },
    ] + stages
}

/// The first `n` tasks of a stage.
pub open spec fn stage_tasks_text(stage: DrawnView, n: nat) -> Seq<char>
    decreases n,
{
    if n == 0 {
        Seq::empty()
    } else {
        stage_tasks_text(stage, (n - 1) as nat) + task_text(
            stage.num,
            stage.n_tasks,
            stage.plan->0,
            (n - 1) as usize,
        ) + "\n"@
    }
}

/// The tasks of some stages.
pub open spec fn all_tasks_text(stages: Seq<DrawnView>) -> Seq<char>
    decreases stages.len(),
{
    if stages.len() == 0 {
        Seq::empty()
    } else {
        all_tasks_text(stages.drop_last()) + stage_tasks_text(
            stages.last(),
            stages.last().n_tasks as nat,
        )
    }
}

/// How the edges between two tasks are introduced and ended.
pub open spec fn pair_text(
    input_num: usize,
    input_task: usize,
    num: usize,
    task: usize,
    edges: Seq<char>,
) -> Seq<char> {
    "// edges from child stage "@ + decimal(input_num as nat) + " task "@ + decimal(
        input_task as nat,
    ) + " to stage "@ + decimal(num as nat) + " task "@ + decimal(task as nat) + "\n "@ + edges
        + "\n"@
}

pub(crate) fn push_pair(
    out: &mut String,
    input_num: usize,
    input_task: usize,
    num: usize,
    task: usize,
    edges: &str,
)
    ensures
        final(out)@ == old(out)@ + pair_text(input_num, input_task, num, task, edges@),
{
    let ghost start = out@;
    out.push_str("// edges from child stage ");
    push_usize(out, input_num);
    out.push_str(" task ");
    push_usize(out, input_task);
    out.push_str(" to stage ");
    push_usize(out, num);
    out.push_str(" task ");
    push_usize(out, task);
    out.push_str("\n ");
    out.push_str(edges);
    out.push_str("\n");
    proof {
        assert(out@ =~= start + pair_text(input_num, input_task, num, task, edges@));
    }
}

/// The edges into a task from the first `n` tasks of a stage that it reads from.
pub open spec fn pairs_text(stage: DrawnView, task: usize, input: DrawnView, n: nat) -> Seq<char>
    decreases n,
{
    if n == 0 {
        Seq::empty()
    } else {
        let input_task = (n - 1) as usize;
        pairs_text(stage, task, input, (n - 1) as nat) + pair_text(
            input.num,
            input_task,
            stage.num,
            task,
            inter_task_text(
                stage.num,
                stage.plan->0,
                task,
                input.num,
                input.n_tasks,
                input.plan->0,
                input_task,
            ),
        )
    }
}

/// The edges into the first `n` tasks of a stage from the tasks of a stage that it reads from.
pub open spec fn reads_text(stage: DrawnView, input: DrawnView, n: nat) -> Seq<char>
    decreases n,
{
    if n == 0 {
        Seq::empty()
    } else {
        reads_text(stage, input, (n - 1) as nat) + pairs_text(
            stage,
            (n - 1) as usize,
            input,
            input.n_tasks as nat,
        )
    }
}

/// The edges into the tasks of a stage from those of some stages that it reads from.
pub open spec fn stage_reads_text(stage: DrawnView, inputs: Seq<DrawnView>) -> Seq<char>
    decreases inputs.len(),
{
    if inputs.len() == 0 {
        Seq::empty()
    } else {
        stage_reads_text(stage, inputs.drop_last()) + reads_text(
            stage,
            inputs.last(),
            stage.n_tasks as nat,
        )
    }
}

/// The edges between the tasks of some stages and of those that they read from.
pub open spec fn all_reads_text(stages: Seq<DrawnView>) -> Seq<char>
    decreases stages.len(),
{
    if stages.len() == 0 {
        Seq::empty()
    } else {
        all_reads_text(stages.drop_last()) + match stages.last().plan {
            Some(plan) => stage_reads_text(stages.last(), input_stages(plan)),
            None => Seq::empty(),
        }
    }
}

/// How a plan is drawn. One that runs in stages is drawn as the tasks of all its stages and the edges
/// between them.
pub open spec fn graph_text(plan: ShownView, distributed: bool) -> Seq<char> {
    GRAPH_TOP@ + (if distributed {
        let stages = drawn_stages(plan);
        all_tasks_text(stages) + all_reads_text(stages)
    } else {
        "node[shape=none]\n"@ + plan_text(plan, 0, 1, 0) + "\n"@
    }) + "}\n"@
}

/// Whether the plan of a stage is at hand, or none is needed because it has no tasks.
pub open spec fn at_hand(stage: DrawnView) -> bool {
    stage.n_tasks > 0 ==> stage.plan is Some
}

/// Whether the plan of every stage that has tasks is at hand.
pub open spec fn plans_at_hand(stages: Seq<DrawnView>) -> bool {
    forall|i: int|
        0 <= i < stages.len() ==> at_hand(#[trigger] stages[i])
}

/// Whether the partitions of the tasks of a stage, and those that they read, can be numbered.
pub open spec fn stage_fits(stage: DrawnView) -> bool {
    stage.plan matches Some(plan) ==> stage.n_tasks * plan.partitions <= usize::MAX
        && crossings_fit(plan, stage.n_tasks)
}

/// Whether the stages of a plan and their partitions can be numbered.
pub open spec fn drawable(plan: ShownView, distributed: bool) -> bool {
    distributed ==> max_num(all_stages(plan)) < usize::MAX && forall|i: int|
        0 <= i < drawn_stages(plan).len() ==> stage_fits(#[trigger] drawn_stages(plan)[i])
}

pub(crate) fn does_stage_fit(stage: &DrawnStage<'_>) -> (yes: bool)
    ensures
        yes == stage_fits(stage@),
{
    let plan = match stage.plan {
        Some(plan) => plan,
        None => {
            return true;
        },
    };
    proof {
        lemma_shown_children(*plan);
    }
    if stage.n_tasks.checked_mul(plan.partitions).is_none() {
        return false;
    }
    let list = walk_plan(plan, WalkLimit::ShufflesAndCoalesces);
    let ghost all = visits(list@);
    proof {
        reveal(crossings_fit);
    }
    for k in 0..list.len()
        invariant
            all == visits(list@),
            all == walk(plan@, WalkLimit::ShufflesAndCoalesces),
            forall|j: int|
                0 <= j < k ==> crossing_fits((#[trigger] all[j]).plan, stage.n_tasks),
            stage@.plan == Some(plan@),
    {
        let node = list[k].plan;
        proof {
            lemma_shown_children(*node);
            assert(all[k as int].plan == node@);
        }
        let fits = match node.role {
            ShownRole::Boundary(below) => match below.kind {
                NetworkKind::Shuffle => stage.n_tasks.checked_mul(node.partitions).is_some(),
                _ => true,
            },
            _ => true,
        };
        if !fits {
            proof {
                reveal(crossings_fit);
                assert(!crossing_fits(
                    walk(plan@, WalkLimit::ShufflesAndCoalesces)[k as int].plan,
                    stage.n_tasks,
                ));
            }
            return false;
        }
    }
    true
}

fn add_head<'a>(plan: &'a ShownPlan, stages: Vec<DrawnStage<'a>>) -> (all: Vec<DrawnStage<'a>>)
    requires
        drawn_views(stages@) == all_stages(plan@),
        max_num(all_stages(plan@)) < usize::MAX,
    ensures
        drawn_views(all@) == drawn_stages(plan@),
{
    let num: usize = find_max_num(&stages) + 1;
    let mut all: Vec<DrawnStage<'a>> = Vec::new();
    all.push(DrawnStage { num, n_tasks: 1, plan: Some(plan) });
    for i in 0..stages.len()
        invariant
            all@ =~= seq![DrawnStage { num, n_tasks: 1, plan: Some(plan) }] + stages@.take(
                i as int,
            ),
    {
        all.push(stages[i]);
    }
    proof {
        assert(drawn_views(all@) =~= drawn_stages(plan@));
    }
    all
}

/// Tells whether the stages of a plan and their partitions can be numbered.
pub fn is_drawable(plan: &ShownPlan, distributed: bool) -> (yes: bool)
    ensures
        yes == drawable(plan@, distributed),
{
    if !distributed {
        return true;
    }
    let stages = find_all_stages(plan);
    if find_max_num(&stages) == usize::MAX {
        return false;
    }
    let all = add_head(plan, stages);
    let ghost views = drawn_views(all@);
    for i in 0..all.len()
        invariant
            views == drawn_views(all@),
            views == drawn_stages(plan@),
            distributed,
            forall|j: int| 0 <= j < i ==> stage_fits(#[trigger] views[j]),
    {
        proof {
            assert(views[i as int] == all@[i as int]@);
        }
        if !does_stage_fit(&all[i]) {
            proof {
                assert(!stage_fits(drawn_stages(plan@)[i as int]));
            }
            return false;
        }
    }
    true
}

pub(crate) fn push_tasks(out: &mut String, stage: &DrawnStage<'_>) -> (result: Result<(), GraphError>)
    requires
        stage_fits(stage@),
    ensures
        stage.n_tasks > 0 && stage@.plan is None ==> (result matches Err(e) && e
            == GraphError::PlanNotPresent),
        stage.n_tasks == 0 || stage@.plan is Some ==> result is Ok && final(out)@ == old(out)@
            + stage_tasks_text(stage@, stage.n_tasks as nat),
{
    let ghost start = out@;
    proof {
        assert(start + stage_tasks_text(stage@, 0) =~= start);
    }
    for i in 0..stage.n_tasks
        invariant
            stage_fits(stage@),
            i > 0 ==> stage@.plan is Some,
            out@ == start + stage_tasks_text(stage@, i as nat),
    {
        let ghost before = stage_tasks_text(stage@, i as nat);
        proof {
            if let Some(plan) = stage@.plan {
                lemma_block(i as int, stage.n_tasks as int, plan.partitions as int);
            }
        }
        match display_single_task(stage, i) {
            Ok(text) => {
                out.push_str(text.as_str());
                out.push_str("\n");
                proof {
                    assert(out@ =~= start + (before + text@ + "\n"@));
                }
            },
            Err(e) => {
                return Err(e);
            },
        }
    }
    Ok(())
}

fn push_pairs(out: &mut String, stage: &DrawnStage<'_>, task_i: usize, input: &DrawnStage<'_>)
    requires
        task_i < stage.n_tasks,
        stage_fits(stage@),
        stage@.plan is Some,
        input.n_tasks > 0 ==> input@.plan is Some,
    ensures
        final(out)@ == old(out)@ + pairs_text(stage@, task_i, input@, input.n_tasks as nat),
{
    let ghost start = out@;
    proof {
        assert(start + pairs_text(stage@, task_i, input@, 0) =~= start);
    }
    for k in 0..input.n_tasks
        invariant
            task_i < stage.n_tasks,
            stage_fits(stage@),
            stage@.plan is Some,
            input.n_tasks > 0 ==> input@.plan is Some,
            out@ == start + pairs_text(stage@, task_i, input@, k as nat),
    {
        let ghost before = pairs_text(stage@, task_i, input@, k as nat);
        proof {
            tasks_can_be_connected(
                stage@.plan->0,
                stage.n_tasks,
                task_i,
                TaskPlace { num: input.num, task: k },
                input.n_tasks,
            );
        }
        if let Ok(edges) = display_inter_task_edges(stage, task_i, input, k) {
            push_pair(out, input.num, k, stage.num, task_i, edges.as_str());
            proof {
                assert(out@ =~= start + (before + pair_text(
                    input.num,
                    k,
                    stage.num,
                    task_i,
                    edges@,
                )));
            }
        }
    }
}

fn push_reads(out: &mut String, stage: &DrawnStage<'_>, plan: &ShownPlan)
    requires
        stage@.plan == Some(plan@),
        stage_fits(stage@),
        plans_at_hand(input_stages(plan@)),
    ensures
        final(out)@ == old(out)@ + stage_reads_text(stage@, input_stages(plan@)),
{
    let inputs = find_input_stages(plan);
    let ghost views = drawn_views(inputs@);
    let ghost start = out@;
    proof {
        assert(views.take(0) =~= Seq::empty());
        assert(start + stage_reads_text(stage@, views.take(0)) =~= start);
    }
    for j in 0..inputs.len()
        invariant
            stage@.plan == Some(plan@),
            stage_fits(stage@),
            views == drawn_views(inputs@),
            plans_at_hand(views),
            out@ == start + stage_reads_text(stage@, views.take(j as int)),
    {
        let input = &inputs[j];
        let ghost mid = out@;
        proof {
            assert(views[j as int] == input@);
            assert(views.take(j + 1).drop_last() =~= views.take(j as int));
            assert(views.take(j + 1).last() == input@);
            assert(mid + reads_text(stage@, input@, 0) =~= mid);
        }
        for i in 0..stage.n_tasks
            invariant
                stage@.plan is Some,
                stage_fits(stage@),
                input.n_tasks > 0 ==> input@.plan is Some,
                out@ == mid + reads_text(stage@, input@, i as nat),
        {
            let ghost before = reads_text(stage@, input@, i as nat);
            push_pairs(out, stage, i, input);
            proof {
                assert(out@ =~= mid + (before + pairs_text(
                    stage@,
                    i,
                    input@,
                    input.n_tasks as nat,
                )));
            }
        }
        proof {
            assert(out@ =~= start + stage_reads_text(stage@, views.take(j + 1)));
        }
    }
    proof {
        assert(views.take(views.len() as int) =~= views);
    }
}

proof fn lemma_inputs_at_hand(plan: ShownView)
    requires
        plans_at_hand(stages_among(plan.children)),
    ensures
        plans_at_hand(input_stages(plan)),
    decreases plan, 0int,
{
    lemma_inputs_among_at_hand(plan.children);
}

proof fn lemma_inputs_among_at_hand(plans: Seq<ShownView>)
    requires
        plans_at_hand(stages_among(plans)),
    ensures
        plans_at_hand(inputs_among(plans)),
    decreases plans, 1int,
{
    if plans.len() > 0 {
        let before = stages_among(plans.drop_last());
        let last = plans.last();
        let own = all_stages(last);
        let all = stages_among(plans);
        assert forall|i: int| 0 <= i < before.len() implies at_hand(#[trigger] before[i]) by {
            assert(all[i] == before[i]);
        }
        assert forall|i: int| 0 <= i < own.len() implies at_hand(#[trigger] own[i]) by {
            assert(all[before.len() + i] == own[i]);
        }
        lemma_inputs_among_at_hand(plans.drop_last());
        match last.role {
            ShownRole::Boundary(stage) => {
                assert(own[0] == drawn_at(last, stage));
            },
            _ => {
                assert(own =~= stages_among(last.children));
                lemma_inputs_at_hand(last);
            },
        }
    }
}

proof fn lemma_stages_at_hand(plan: ShownView, i: int)
    requires
        plans_at_hand(all_stages(plan)),
        0 <= i < all_stages(plan).len(),
        all_stages(plan)[i].plan is Some,
    ensures
        plans_at_hand(stages_among((all_stages(plan)[i].plan->0).children)),
    decreases plan, 0int,
{
    let all = all_stages(plan);
    let below = stages_among(plan.children);
    let own = all.len() - below.len();
    assert forall|k: int| 0 <= k < below.len() implies at_hand(#[trigger] below[k]) by {
        assert(all[own + k] == below[k]);
    }
    if i < own {
        let inner = plan.children[0];
        let stages = stages_among(inner.children);
        lemma_child_at_hand(plan.children, 0);
        let first = all_stages(inner);
        assert forall|k: int| 0 <= k < stages.len() implies at_hand(#[trigger] stages[k]) by {
            assert(first[first.len() - stages.len() + k] == stages[k]);
        }
    } else {
        assert(all[i] == below[i - own]);
        lemma_stages_among_at_hand(plan.children, i - own);
    }
}

proof fn lemma_child_at_hand(plans: Seq<ShownView>, c: int)
    requires
        plans_at_hand(stages_among(plans)),
        0 <= c < plans.len(),
    ensures
        plans_at_hand(all_stages(plans[c])),
    decreases plans.len(),
{
    let before = stages_among(plans.drop_last());
    let own = all_stages(plans.last());
    let all = stages_among(plans);
    if c == plans.len() - 1 {
        assert forall|k: int| 0 <= k < own.len() implies at_hand(#[trigger] own[k]) by {
            assert(all[before.len() + k] == own[k]);
        }
    } else {
        assert forall|k: int| 0 <= k < before.len() implies at_hand(#[trigger] before[k]) by {
            assert(all[k] == before[k]);
        }
        lemma_child_at_hand(plans.drop_last(), c);
    }
}

proof fn lemma_stages_among_at_hand(plans: Seq<ShownView>, i: int)
    requires
        plans_at_hand(stages_among(plans)),
        0 <= i < stages_among(plans).len(),
        stages_among(plans)[i].plan is Some,
    ensures
        plans_at_hand(stages_among((stages_among(plans)[i].plan->0).children)),
    decreases plans, 1int,
{
    let before = stages_among(plans.drop_last());
    let all = stages_among(plans);
    if i < before.len() {
        assert forall|k: int| 0 <= k < before.len() implies at_hand(#[trigger] before[k]) by {
            assert(all[k] == before[k]);
        }
        lemma_stages_among_at_hand(plans.drop_last(), i);
    } else {
        lemma_child_at_hand(plans, plans.len() - 1);
        assert(all[i] == all_stages(plans.last())[i - before.len()]);
        lemma_stages_at_hand(plans.last(), i - before.len());
    }
}

proof fn lemma_reads_at_hand(plan: ShownView, i: int)
    requires
        plans_at_hand(drawn_stages(plan)),
        0 <= i < drawn_stages(plan).len(),
        drawn_stages(plan)[i].plan is Some,
    ensures
        plans_at_hand(input_stages(drawn_stages(plan)[i].plan->0)),
{
    let stages = all_stages(plan);
    assert forall|k: int| 0 <= k < stages.len() implies at_hand(#[trigger] stages[k]) by {
        assert(drawn_stages(plan)[k + 1] == stages[k]);
    }
    if i == 0 {
        let below = stages_among(plan.children);
        assert forall|k: int| 0 <= k < below.len() implies at_hand(#[trigger] below[k]) by {
            assert(stages[stages.len() - below.len() + k] == below[k]);
        }
        lemma_inputs_at_hand(plan);
    } else {
        assert(drawn_stages(plan)[i] == stages[i - 1]);
        lemma_stages_at_hand(plan, i - 1);
        lemma_inputs_at_hand(stages[i - 1].plan->0);
    }
}

/// Draws a plan in the language of Graphviz. `distributed` tells whether the plan runs in stages.
pub fn display_plan_graphviz(plan: &ShownPlan, distributed: bool) -> (result: Result<
    String,
    GraphError,
>)
    requires
        drawable(plan@, distributed),
    ensures
        distributed && !plans_at_hand(drawn_stages(plan@)) ==> (result matches Err(e) && e
            == GraphError::PlanNotPresent),
        !distributed || plans_at_hand(drawn_stages(plan@)) ==> (result matches Ok(text) && text@
            == graph_text(plan@, distributed)),
{
    let mut text = String::new();
    text.push_str(GRAPH_TOP);
    let ghost top = GRAPH_TOP@;
    proof {
        assert(text@ =~= top);
    }
    if !distributed {
        text.push_str("node[shape=none]\n");
        let drawn = display_plan(plan, 0, 1, 0);
        text.push_str(drawn.as_str());
        text.push_str("\n");
        text.push_str("}\n");
        proof {
            assert(text@ =~= graph_text(plan@, distributed));
        }
        return Ok(text);
    }
    let stages = add_head(plan, find_all_stages(plan));
    let ghost views = drawn_views(stages@);
    proof {
        assert(views.take(0) =~= Seq::empty());
        assert(text@ =~= top + all_tasks_text(views.take(0)));
    }
    for i in 0..stages.len()
        invariant
            drawable(plan@, distributed),
            distributed,
            views == drawn_views(stages@),
            views == drawn_stages(plan@),
            forall|k: int|
                0 <= k < i ==> at_hand(#[trigger] views[k]),
            text@ == top + all_tasks_text(views.take(i as int)),
    {
        let stage = &stages[i];
        let ghost before = text@;
        proof {
            assert(views[i as int] == stage@);
            assert(stage_fits(drawn_stages(plan@)[i as int]));
            assert(views.take(i + 1).drop_last() =~= views.take(i as int));
            assert(views.take(i + 1).last() == stage@);
        }
        if let Err(e) = push_tasks(&mut text, stage) {
            proof {
                assert(views[i as int].n_tasks > 0 && views[i as int].plan is None);
            }
            return Err(e);
        }
        proof {
            assert(text@ =~= top + all_tasks_text(views.take(i + 1)));
        }
    }
    let ghost tasks = text@;
    proof {
        assert(views.take(views.len() as int) =~= views);
        assert(plans_at_hand(views));
        assert(tasks + all_reads_text(views.take(0)) =~= tasks);
    }
    for i in 0..stages.len()
        invariant
            drawable(plan@, distributed),
            distributed,
            views == drawn_views(stages@),
            views == drawn_stages(plan@),
            plans_at_hand(views),
            text@ == tasks + all_reads_text(views.take(i as int)),
    {
        let stage = &stages[i];
        proof {
            assert(views[i as int] == stage@);
            assert(stage_fits(drawn_stages(plan@)[i as int]));
            assert(views.take(i + 1).drop_last() =~= views.take(i as int));
            assert(views.take(i + 1).last() == stage@);
            if stage@.plan is Some {
                lemma_reads_at_hand(plan@, i as int);
            }
        }
        match stage.plan {
            Some(inner) => {
                push_reads(&mut text, stage, inner);
            },
            None => {},
        }
        proof {
            assert(text@ =~= tasks + all_reads_text(views.take(i + 1)));
        }
    }
    text.push_str("}\n");
    proof {
        assert(views.take(views.len() as int) =~= views);
        assert(text@ =~= graph_text(plan@, distributed));
    }
    Ok(text)
}

} // verus!
