use crate::display::shown_plan::{
    lemma_shown_children, shown_views, ShownPlan, ShownRole, ShownStage, ShownView,
};
use crate::text::{
    concat, decimal, join_lines, lemma_concat_push, lines_joined, push_usize, spaces,
};
use vstd::prelude::*;

verus! {

/// Whether the partitions of the tasks of a stage can be numbered. `plan` is the plan of the stage.
pub open spec fn countable(n_tasks: usize, plan: ShownView) -> bool {
    n_tasks > 0 ==> plan.partitions > 0 && (!plan.hash ==> n_tasks * plan.partitions <= usize::MAX)
}

/// How the partitions of a task are shown, where the first of them has the number `off`.
pub open spec fn numbered_text(i: nat, off: nat, partitions: nat) -> Seq<char> {
    "t"@ + decimal(i) + ":["@ + (if partitions == 1 {
        "p"@ + decimal(off)
    } else {
        "p"@ + decimal(off) + "..p"@ + decimal((off + partitions - 1) as nat)
    }) + "] "@
}

/// How the partitions of one task are shown. Where the rows are spread by a hash, each task has them
/// all.
pub open spec fn task_text(i: int, partitions: nat, hash: bool) -> Seq<char> {
    numbered_text(i as nat, if hash { 0 } else { (i * partitions) as nat }, partitions)
}

fn push_numbered(text: &mut String, i: usize, off: usize, partitions: usize)
    requires
        partitions > 0,
        off + partitions <= usize::MAX,
    ensures
        final(text)@ == old(text)@ + numbered_text(i as nat, off as nat, partitions as nat),
{
    let ghost before = text@;
    text.push_str("t");
    push_usize(text, i);
    text.push_str(":[");
    text.push_str("p");
    push_usize(text, off);
    if partitions != 1 {
        let end: usize = off + (partitions - 1);
        text.push_str("..p");
        push_usize(text, end);
    }
    text.push_str("] ");
    proof {
        assert(text@ =~= before + numbered_text(i as nat, off as nat, partitions as nat));
    }
}

/// How the tasks of a stage are shown.
pub open spec fn tasks_text(n_tasks: nat, plan: ShownView) -> Seq<char> {
    "Tasks: "@ + concat(
        Seq::new(n_tasks, |i: int| task_text(i, plan.partitions as nat, plan.hash)),
    )
}

/// Shows the tasks of a stage.
pub fn format_tasks_for_stage(n_tasks: usize, head: &ShownPlan) -> (text: String)
    requires
        countable(n_tasks, head@),
    ensures
        text@ == tasks_text(n_tasks as nat, head@),
{
    let mut text = String::new();
    text.push_str("Tasks: ");
    let ghost first = "Tasks: "@;
    let ghost mut parts: Seq<Seq<char>> = Seq::empty();
    let partitions: usize = head.partitions;
    let mut off: usize = 0;
    proof {
        lemma_shown_children(*head);
        assert(0 * partitions == 0) by (nonlinear_arith);
        assert(text@ =~= first + concat(parts));
    }
    for i in 0..n_tasks
        invariant
            countable(n_tasks, head@),
            head@.partitions == partitions,
            head@.hash == head.hash,
            off == (if head.hash { 0 } else { i * partitions }),
            parts =~= Seq::new(i as nat, |k: int| task_text(k, partitions as nat, head.hash)),
            text@ == first + concat(parts),
    {
        proof {
            lemma_next_off(i as int, n_tasks as int, partitions as int);
        }
        let ghost before = text@;
        push_numbered(&mut text, i, off, partitions);
        proof {
            let part = task_text(i as int, partitions as nat, head.hash);
            lemma_concat_push(parts, part);
            parts = parts.push(part);
            assert(text@ =~= first + concat(parts));
        }
        if !head.hash {
            off = off + partitions;
        }
    }
    proof {
        assert(parts =~= Seq::new(
            n_tasks as nat,
            |i: int| task_text(i, head@.partitions as nat, head@.hash),
        ));
    }
    text
}

proof fn lemma_next_off(i: int, n: int, partitions: int)
    requires
        0 <= i < n,
        partitions >= 0,
    ensures
        i * partitions + partitions == (i + 1) * partitions,
        (i + 1) * partitions <= n * partitions,
        0 <= i * partitions,
{
    assert(i * partitions + partitions == (i + 1) * partitions) by (nonlinear_arith);
    assert((i + 1) * partitions <= n * partitions) by (nonlinear_arith)
        requires
            i + 1 <= n,
            partitions >= 0,
    ;
    assert(0 <= i * partitions) by (nonlinear_arith)
        requires
            0 <= i,
            partitions >= 0,
    ;
}

/// How the metrics of a node are shown.
pub open spec fn metrics_text(plan: ShownView, show_metrics: bool) -> Seq<char> {
    if !show_metrics {
        Seq::empty()
    } else {
        match plan.metrics {
            Some(metrics) => if metrics.len() == 0 {
                ", metrics=[]"@
            } else {
                ", metrics=["@ + metrics + "]"@
            },
            None => ", metrics=[]"@,
        }
    }
}

/// How the nodes of a stage are shown: each on a line of its own, further in than the node above it.
pub open spec fn inner_text(plan: ShownView, indent: nat, show_metrics: bool) -> Seq<char>
    decreases plan,
{
    spaces(indent) + " "@ + plan.line + metrics_text(plan, show_metrics) + "\n"@
        + if plan.role is Boundary {
        Seq::empty()
    } else {
        all_inner_text(plan.children, indent + 2, show_metrics)
    }
}

/// How several plans of a stage are shown.
pub open spec fn all_inner_text(plans: Seq<ShownView>, indent: nat, show_metrics: bool) -> Seq<char>
    decreases plans,
{
    if plans.len() == 0 {
        Seq::empty()
    } else {
        all_inner_text(plans.drop_last(), indent, show_metrics) + inner_text(
            plans.last(),
            indent,
            show_metrics,
        )
    }
}

fn two_further(prefix: &str, Ghost(indent): Ghost<nat>) -> (longer: String)
    requires
        prefix@ == spaces(indent),
    ensures
        longer@ == spaces(indent + 2),
{
    let mut longer = String::new();
    longer.push_str(prefix);
    longer.push(' ');
    longer.push(' ');
    proof {
        assert(longer@ =~= spaces(indent + 2));
    }
    longer
}

fn display_inner_ascii(
    plan: &ShownPlan,
    prefix: &str,
    show_metrics: bool,
    out: &mut String,
    Ghost(indent): Ghost<nat>,
)
    requires
        prefix@ == spaces(indent),
    ensures
        final(out)@ == old(out)@ + inner_text(plan@, indent, show_metrics),
    decreases *plan,
{
    let ghost start = out@;
    proof {
        lemma_shown_children(*plan);
    }
    out.push_str(prefix);
    out.push_str(" ");
    out.push_str(plan.line.as_str());
    if show_metrics {
        match &plan.metrics {
            Some(metrics) => {
                let len: usize = metrics.as_str().unicode_len();
                if len == 0 {
                    out.push_str(", metrics=[]");
                } else {
                    out.push_str(", metrics=[");
                    out.push_str(metrics.as_str());
                    out.push_str("]");
                }
            },
            None => {
                out.push_str(", metrics=[]");
            },
        }
    }
    out.push_str("\n");
    let ghost own = spaces(indent) + " "@ + plan@.line + metrics_text(plan@, show_metrics) + "\n"@;
    proof {
        assert(out@ =~= start + own);
    }
    if let ShownRole::Boundary(_) = plan.role {
        proof {
            assert(out@ =~= start + inner_text(plan@, indent, show_metrics));
        }
        return ;
    }
    let further = two_further(prefix, Ghost(indent));
    let ghost views = shown_views(plan.children@);
    proof {
        assert(views.take(0) =~= Seq::empty());
        assert(out@ =~= start + own + all_inner_text(views.take(0), indent + 2, show_metrics));
    }
    for i in 0..plan.children.len()
        invariant
            views == shown_views(plan.children@),
            further@ == spaces(indent + 2),
            out@ == start + own + all_inner_text(views.take(i as int), indent + 2, show_metrics),
    {
        proof {
            assert(views.take(i + 1).drop_last() =~= views.take(i as int));
            assert(views.take(i + 1).last() == plan.children@[i as int]@);
        }
        let ghost before = out@;
        display_inner_ascii(
            &plan.children[i],
            further.as_str(),
            show_metrics,
            out,
            Ghost(indent + 2),
        );
        proof {
            assert(out@ =~= start + own + all_inner_text(
                views.take(i + 1),
                indent + 2,
                show_metrics,
            ));
        }
    }
    proof {
        assert(views.take(views.len() as int) =~= views);
        assert(out@ =~= start + inner_text(plan@, indent, show_metrics));
    }
}

/// How the box of a stage is shown below its first line.
pub open spec fn box_text(plan: ShownView, depth: nat, show_metrics: bool) -> Seq<char> {
    let margin = spaces(2 * depth);
    margin + "│"@ + lines_joined(inner_text(plan, 0, show_metrics), "\n"@ + margin + "│"@) + "\n"@
        + margin + "└──────────────────────────────────────────────────"@ + "\n"@
}

/// The first line of the box of a stage.
pub open spec fn stage_header(stage: ShownStage, plan: ShownView, depth: nat) -> Seq<char> {
    spaces(2 * depth) + "┌───── Stage "@ + decimal(stage.num as nat) + " ── "@ + tasks_text(
        stage.n_tasks as nat,
        plan,
    ) + "\n"@
}

/// How the stages that a plan reads from are shown, each after the one that reads from it.
pub open spec fn inputs_text(plan: ShownView, depth: nat, show_metrics: bool) -> Seq<char>
    decreases plan, 0int,
{
    all_inputs_text(plan.children, depth, show_metrics)
}

/// How the stages that are at some nodes or below them are shown.
pub open spec fn all_inputs_text(plans: Seq<ShownView>, depth: nat, show_metrics: bool) -> Seq<char>
    decreases plans, 2int,
{
    if plans.len() == 0 {
        Seq::empty()
    } else {
        all_inputs_text(plans.drop_last(), depth, show_metrics) + input_text(
            plans.last(),
            depth,
            show_metrics,
        )
    }
}

/// How the stage at a node, or the stages below it, are shown.
pub open spec fn input_text(plan: ShownView, depth: nat, show_metrics: bool) -> Seq<char>
    decreases plan, 1int,
{
    match plan.role {
        ShownRole::Boundary(stage) => if plan.children.len() == 0 {
            "StageExec: encoded input plan"@
        } else {
            stage_header(stage, plan.children[0], depth) + box_text(
                plan.children[0],
                depth,
                show_metrics,
            ) + inputs_text(plan.children[0], depth + 1, show_metrics)
        },
        _ => inputs_text(plan, depth, show_metrics),
    }
}

/// Whether the partitions of the tasks of all the stages below a plan can be numbered.
pub open spec fn inputs_countable(plan: ShownView) -> bool
    decreases plan, 0int,
{
    forall|i: int|
        0 <= i < plan.children.len() ==> input_countable(#[trigger] plan.children[i])
}

/// Whether that can be done for the stage at a node and those below it.
pub open spec fn input_countable(plan: ShownView) -> bool
    decreases plan, 1int,
{
    match plan.role {
        ShownRole::Boundary(stage) => plan.children.len() > 0 ==> countable(
            stage.n_tasks,
            plan.children[0],
        ) && inputs_countable(plan.children[0]),
        _ => inputs_countable(plan),
    }
}

fn display_box(
    plan: &ShownPlan,
    margin: &str,
    show_metrics: bool,
    out: &mut String,
    Ghost(depth): Ghost<nat>,
)
    requires
        margin@ == spaces(2 * depth),
    ensures
        final(out)@ == old(out)@ + box_text(plan@, depth, show_metrics),
{
    let ghost start = out@;
    let mut inner = String::new();
    let no_prefix = String::new();
    proof {
        assert(no_prefix@ =~= spaces(0));
        assert(inner@ =~= Seq::empty());
    }
    display_inner_ascii(plan, no_prefix.as_str(), show_metrics, &mut inner, Ghost(0));
    proof {
        assert(inner@ =~= inner_text(plan@, 0, show_metrics));
    }
    let mut separator = String::new();
    separator.push_str("\n");
    separator.push_str(margin);
    separator.push_str("│");
    proof {
        assert(separator@ =~= "\n"@ + margin@ + "│"@);
    }
    out.push_str(margin);
    out.push_str("│");
    let joined = join_lines(inner.as_str(), separator.as_str());
    out.push_str(joined.as_str());
    out.push_str("\n");
    out.push_str(margin);
    out.push_str("└──────────────────────────────────────────────────");
    out.push_str("\n");
    proof {
        assert(out@ =~= start + box_text(plan@, depth, show_metrics));
    }
}

fn display_inputs(
    plan: &ShownPlan,
    margin: &str,
    show_metrics: bool,
    out: &mut String,
    Ghost(depth): Ghost<nat>,
)
    requires
        margin@ == spaces(2 * depth),
        inputs_countable(plan@),
    ensures
        final(out)@ == old(out)@ + inputs_text(plan@, depth, show_metrics),
    decreases *plan, 0int,
{
    let ghost start = out@;
    let ghost views = shown_views(plan.children@);
    proof {
        lemma_shown_children(*plan);
        assert(views.take(0) =~= Seq::empty());
        assert(out@ =~= start + all_inputs_text(views.take(0), depth, show_metrics));
    }
    for i in 0..plan.children.len()
        invariant
            views == shown_views(plan.children@),
            plan@.children == views,
            margin@ == spaces(2 * depth),
            inputs_countable(plan@),
            out@ == start + all_inputs_text(views.take(i as int), depth, show_metrics),
    {
        proof {
            assert(views.take(i + 1).drop_last() =~= views.take(i as int));
            assert(views.take(i + 1).last() == plan.children@[i as int]@);
            assert(input_countable(plan@.children[i as int]));
        }
        let ghost before = out@;
        display_input(&plan.children[i], margin, show_metrics, out, Ghost(depth));
        proof {
            assert(out@ =~= start + all_inputs_text(views.take(i + 1), depth, show_metrics));
        }
    }
    proof {
        assert(views.take(views.len() as int) =~= views);
    }
}

fn display_input(
    plan: &ShownPlan,
    margin: &str,
    show_metrics: bool,
    out: &mut String,
    Ghost(depth): Ghost<nat>,
)
    requires
        margin@ == spaces(2 * depth),
        input_countable(plan@),
    ensures
        final(out)@ == old(out)@ + input_text(plan@, depth, show_metrics),
    decreases *plan, 1int,
{
    let ghost start = out@;
    proof {
        lemma_shown_children(*plan);
    }
    match plan.role {
        ShownRole::Boundary(stage) => {
            if plan.children.len() == 0 {
                out.push_str("StageExec: encoded input plan");
                return ;
            }
            let below = &plan.children[0];
            proof {
                assert(plan@.children[0] == below@);
                assert(decreases_to!(*plan => plan.children@[0]));
            }
            out.push_str(margin);
            out.push_str("┌───── Stage ");
            push_usize(out, stage.num);
            out.push_str(" ── ");
            let tasks = format_tasks_for_stage(stage.n_tasks, below);
            out.push_str(tasks.as_str());
            out.push_str("\n");
            proof {
                assert(out@ =~= start + stage_header(stage, below@, depth));
            }
            display_box(below, margin, show_metrics, out, Ghost(depth));
            let further = two_further(margin, Ghost(2 * depth));
            proof {
                assert(2 * (depth + 1) == 2 * depth + 2);
            }
            display_inputs(below, further.as_str(), show_metrics, out, Ghost(depth + 1));
            proof {
                assert(out@ =~= start + input_text(plan@, depth, show_metrics));
            }
        },
        _ => {
            display_inputs(plan, margin, show_metrics, out, Ghost(depth));
        },
    }
}

/// A plan that is to be shown.
#[derive(Debug)]
pub enum AsciiRoot {
    /// One that runs in stages: the plan of the first stage, and the metrics of the node above it in one
    /// line.
    Distributed { plan: ShownPlan, metrics: String },
    /// Any other, as the query engine shows it.
    Other { text: String },
}

/// How a plan that runs in stages is shown.
pub open spec fn distributed_text(
    plan: ShownView,
    metrics: Seq<char>,
    show_metrics: bool,
) -> Seq<char> {
    "┌───── DistributedExec ── "@ + tasks_text(1, plan) + (if show_metrics {
        metrics
    } else {
        Seq::empty()
    }) + "\n"@ + box_text(plan, 0, show_metrics) + inputs_text(plan, 1, show_metrics)
}

/// Shows a plan. One that runs in stages is shown as a box for each stage, each after the one that reads
/// from it.
pub fn display_plan_ascii(root: &AsciiRoot, show_metrics: bool) -> (text: String)
    requires
        root matches AsciiRoot::Distributed { plan, .. } ==> countable(1, plan@)
            && inputs_countable(plan@),
    ensures
        text@ == match *root {
            AsciiRoot::Distributed { plan, metrics } => distributed_text(
                plan@,
                metrics@,
                show_metrics,
            ),
            AsciiRoot::Other { text } => text@,
        },
{
    match root {
        AsciiRoot::Distributed { plan, metrics } => {
            let mut out = String::new();
            let no_margin = String::new();
            proof {
                assert(no_margin@ =~= spaces(0));
            }
            out.push_str("┌───── DistributedExec ── ");
            let tasks = format_tasks_for_stage(1, plan);
            out.push_str(tasks.as_str());
            if show_metrics {
                out.push_str(metrics.as_str());
            }
            out.push_str("\n");
            display_box(plan, no_margin.as_str(), show_metrics, &mut out, Ghost(0));
            let further = two_further(no_margin.as_str(), Ghost(0));
            display_inputs(plan, further.as_str(), show_metrics, &mut out, Ghost(1));
            proof {
                assert(out@ =~= distributed_text(plan@, metrics@, show_metrics));
            }
            out
        },
        AsciiRoot::Other { text } => text.clone(),
    }
}

/// Tells whether the partitions of the tasks of a stage can be numbered.
pub fn is_countable(n_tasks: usize, plan: &ShownPlan) -> (yes: bool)
    ensures
        yes == countable(n_tasks, plan@),
{
    proof {
        lemma_shown_children(*plan);
    }
    n_tasks == 0 || (plan.partitions > 0 && (plan.hash || n_tasks.checked_mul(
        plan.partitions,
    ).is_some()))
}

/// Tells whether the partitions of the tasks of all the stages below a plan can be numbered.
pub fn are_inputs_countable(plan: &ShownPlan) -> (yes: bool)
    ensures
        yes == inputs_countable(plan@),
    decreases *plan, 0int,
{
    proof {
        lemma_shown_children(*plan);
    }
    for i in 0..plan.children.len()
        invariant
            plan@.children == shown_views(plan.children@),
            forall|j: int| 0 <= j < i ==> input_countable(#[trigger] plan@.children[j]),
    {
        let below = &plan.children[i];
        proof {
            assert(plan@.children[i as int] == below@);
            lemma_shown_children(*below);
        }
        let ok = match below.role {
            ShownRole::Boundary(stage) => {
                if below.children.len() == 0 {
                    true
                } else {
                    proof {
                        assert(below@.children[0] == below.children@[0]@);
                        assert(decreases_to!(*plan => plan.children@[i as int]));
                        assert(decreases_to!(*below => below.children@[0]));
                    }
                    is_countable(stage.n_tasks, &below.children[0]) && are_inputs_countable(
                        &below.children[0],
                    )
                }
            },
            _ => are_inputs_countable(below),
        };
        if !ok {
            proof {
                assert(!input_countable(plan@.children[i as int]));
            }
            return false;
        }
    }
    true
}

} // verus!
