use crate::display::graphviz::{
    crossing_at, display_plan, edges_fit, input_partitions, lemma_block, plan_text,
    push_crossing_at, tasks_can_be_connected, DrawnStage, DrawnView, EdgeStyle, TaskPlace,
};
use crate::display::shown_plan::{
    lemma_shown_children, shown_views, visits, walk, walk_plan, ShownPlan, ShownRole,
    ShownView, Visit, WalkLimit,
};
use crate::display::stage_graph::{
    does_stage_fit, pair_text, push_pair, push_tasks, stage_fits, stage_tasks_text, GRAPH_TOP,
};
use crate::execution_plans::partition_isolator::{groups_text, push_groups};
use crate::execution_plans::stage::{input_num, input_tasks, InputStage, StageExec};
use crate::protobuf::distributed_codec::NetworkKind;
use crate::text::{
    concat, decimal, join, join_lines, lemma_concat_push, lemma_join_push, lines_joined, push_usize,
    spaces, DisplayFormatType,
};
use vstd::prelude::*;

verus! {

/// How the partitions of a task are listed, where the first of them has the number `off`.
pub open spec fn listed_text(off: int, partitions: nat) -> Seq<char> {
    join(Seq::new(partitions, |p: int| "p"@ + decimal((off + p) as nat)), ","@)
}

/// How the partitions of one task are listed. Where the rows are spread by a hash, each task has them
/// all.
pub open spec fn task_list_text(i: int, partitions: nat, hash: bool) -> Seq<char> {
    "t"@ + decimal(i as nat) + ":["@ + listed_text(
        if hash {
            0
        } else {
            i * partitions
        },
        partitions,
    ) + "] "@
}

/// How the tasks of a stage are listed.
pub open spec fn task_lists_text(n_tasks: nat, plan: ShownView) -> Seq<char> {
    "Tasks: "@ + concat(
        Seq::new(n_tasks, |i: int| task_list_text(i, plan.partitions as nat, plan.hash)),
    )
}

/// Whether the partitions of the tasks of a stage can be numbered.
pub open spec fn listable(n_tasks: nat, plan: ShownView) -> bool {
    !plan.hash ==> n_tasks * plan.partitions <= usize::MAX
}

fn push_listed(out: &mut String, off: usize, partitions: usize)
    requires
        off + partitions <= usize::MAX,
    ensures
        final(out)@ == old(out)@ + listed_text(off as int, partitions as nat),
{
    let ghost start = out@;
    let ghost mut parts: Seq<Seq<char>> = Seq::empty();
    proof {
        assert(start + join(parts, ","@) =~= start);
    }
    for p in 0..partitions
        invariant
            off + partitions <= usize::MAX,
            parts =~= Seq::new(p as nat, |k: int| "p"@ + decimal((off + k) as nat)),
            out@ == start + join(parts, ","@),
    {
        if p > 0 {
            out.push_str(",");
        }
        let ghost mid = out@;
        out.push_str("p");
        push_usize(out, off + p);
        proof {
            let part = "p"@ + decimal((off + p) as nat);
            assert(out@ =~= mid + part);
            lemma_join_push(parts, ","@, part);
            parts = parts.push(part);
            assert(out@ =~= start + join(parts, ","@));
        }
    }
    proof {
        assert(parts =~= Seq::new(partitions as nat, |p: int| "p"@ + decimal((off + p) as nat)));
    }
}

fn push_task_list(out: &mut String, i: usize, off: usize, partitions: usize)
    requires
        off + partitions <= usize::MAX,
    ensures
        final(out)@ == old(out)@ + ("t"@ + decimal(i as nat) + ":["@ + listed_text(
            off as int,
            partitions as nat,
        ) + "] "@),
{
    let ghost start = out@;
    out.push_str("t");
    push_usize(out, i);
    out.push_str(":[");
    push_listed(out, off, partitions);
    out.push_str("] ");
    proof {
        assert(out@ =~= start + ("t"@ + decimal(i as nat) + ":["@ + listed_text(
            off as int,
            partitions as nat,
        ) + "] "@));
    }
}

/// Lists the tasks of a stage with their partitions.
pub fn format_tasks_for_stage(n_tasks: usize, head: &ShownPlan) -> (text: String)
    requires
        listable(n_tasks as nat, head@),
    ensures
        text@ == task_lists_text(n_tasks as nat, head@),
{
    let mut text = String::new();
    text.push_str("Tasks: ");
    let ghost first = "Tasks: "@;
    let ghost mut parts: Seq<Seq<char>> = Seq::empty();
    let partitions: usize = head.partitions;
    let mut off: usize = 0;
    proof {
        lemma_shown_children(*head);
        assert(0 * partitions == 0) by (nonlinear_arith);
        assert(text@ =~= first + concat(parts));
    }
    for i in 0..n_tasks
        invariant
            listable(n_tasks as nat, head@),
            head@.partitions == partitions,
            head@.hash == head.hash,
            off == (if head.hash { 0 } else { i * partitions }),
            parts =~= Seq::new(i as nat, |k: int| task_list_text(k, partitions as nat, head.hash)),
            text@ == first + concat(parts),
    {
        proof {
            lemma_block(i as int, n_tasks as int, partitions as int);
        }
        let ghost before = text@;
        push_task_list(&mut text, i, off, partitions);
        proof {
            let part = task_list_text(i as int, partitions as nat, head.hash);
            assert(text@ == before + part);
            lemma_concat_push(parts, part);
            parts = parts.push(part);
            assert(text@ =~= first + concat(parts));
        }
        if !head.hash {
            off = off + partitions;
        }
    }
    proof {
        assert(parts =~= Seq::new(
            n_tasks as nat,
            |i: int| task_list_text(i, head@.partitions as nat, head@.hash),
        ));
    }
    text
}

/// Lists the tasks of a stage with the partitions that an isolator shows them.
pub fn format_tasks_for_partition_isolator(isolator: &ShownPlan, n_tasks: usize) -> (text: String)
    requires
        n_tasks > 0,
    ensures
        text@ == "Tasks: "@ + groups_text(input_partitions(isolator@) as nat, n_tasks as nat),
{
    let mut text = String::new();
    text.push_str("Tasks: ");
    let n: usize = crate::display::graphviz::count_input_partitions(isolator);
    push_groups(&mut text, n, n_tasks);
    proof {
        assert(text@ =~= "Tasks: "@ + groups_text(
            input_partitions(isolator@) as nat,
            n_tasks as nat,
        ));
    }
    text
}

/// The number of tasks of the first stage with the given number, if there is one.
pub open spec fn input_task_count<P>(inputs: Seq<InputStage<P>>, num: usize) -> Option<nat>
    decreases inputs.len(),
{
    if inputs.len() == 0 {
        None
    } else if input_num(inputs[0]) == num {
        Some(input_tasks(inputs[0]).len())
    } else {
        input_task_count(inputs.drop_first(), num)
    }
}

proof fn lemma_first_input<P>(inputs: Seq<InputStage<P>>, num: usize, i: int)
    requires
        0 <= i < inputs.len(),
        input_num(inputs[i]) == num,
        forall|j: int| 0 <= j < i ==> input_num(#[trigger] inputs[j]) != num,
    ensures
        input_task_count(inputs, num) == Some(input_tasks(inputs[i]).len()),
    decreases i,
{
    if i > 0 {
        assert(input_num(inputs[0]) != num);
        let rest = inputs.drop_first();
        assert forall|j: int| 0 <= j < i - 1 implies input_num(#[trigger] rest[j]) != num by {
            assert(rest[j] == inputs[j + 1]);
        }
        lemma_first_input(rest, num, i - 1);
    }
}

proof fn lemma_no_input<P>(inputs: Seq<InputStage<P>>, num: usize)
    requires
        forall|j: int| 0 <= j < inputs.len() ==> input_num(#[trigger] inputs[j]) != num,
    ensures
        input_task_count(inputs, num) is None,
    decreases inputs.len(),
{
    if inputs.len() > 0 {
        assert(input_num(inputs[0]) != num);
        let rest = inputs.drop_first();
        assert forall|j: int| 0 <= j < rest.len() implies input_num(#[trigger] rest[j]) != num by {
            assert(rest[j] == inputs[j + 1]);
        }
        lemma_no_input(rest, num);
    }
}

/// Whether a node reads from a stage that the stage it is in does not read from.
pub open spec fn reads_astray<P>(role: ShownRole, stage: StageExec<P>) -> bool {
    role matches ShownRole::Boundary(below) && !(below.kind is Broadcast) && input_task_count(
        stage.inputs@,
        below.num,
    ) is None
}

/// What is said of a node behind its own line.
pub open spec fn remark<P>(plan: ShownView, stage: StageExec<P>) -> Seq<char> {
    match plan.role {
        ShownRole::Boundary(below) => match below.kind {
            NetworkKind::Broadcast => Seq::empty(),
            _ => match input_task_count(stage.inputs@, below.num) {
                Some(tasks) => " read_from=Stage "@ + decimal(below.num as nat)
                    + ", output_partitions="@ + decimal(plan.partitions as nat)
                    + (if below.kind is Shuffle {
                    ", n_tasks="@ + decimal(stage.tasks@.len())
                } else {
                    Seq::empty()
                }) + ", input_tasks="@ + decimal(tasks),
                None => "Wrong partition number "@ + decimal(below.num as nat),
            },
        },
        ShownRole::Isolator => " Tasks: "@ + groups_text(
            input_partitions(plan) as nat,
            stage.tasks@.len(),
        ),
        _ => Seq::empty(),
    }
}

/// How the nodes of a stage are shown: each on a line of its own, further in than the node above it.
pub open spec fn formatted<P>(plan: ShownView, stage: StageExec<P>, indent: nat) -> Seq<char>
    decreases plan,
{
    spaces(indent) + " "@ + plan.line + remark(plan, stage) + "\n"@ + if reads_astray(
        plan.role,
        stage,
    ) {
        Seq::empty()
    } else {
        all_formatted(plan.children, stage, indent + 2)
    }
}

/// How several plans of a stage are shown.
pub open spec fn all_formatted<P>(plans: Seq<ShownView>, stage: StageExec<P>, indent: nat) -> Seq<
    char,
>
    decreases plans,
{
    if plans.len() == 0 {
        Seq::empty()
    } else {
        all_formatted(plans.drop_last(), stage, indent) + formatted(plans.last(), stage, indent)
    }
}

/// Whether a stage has tasks for the isolators in its plan to share partitions among.
pub open spec fn shareable<P>(plan: ShownView, stage: StageExec<P>) -> bool
    decreases plan,
{
    &&& plan.role is Isolator ==> stage.tasks@.len() > 0
    &&& reads_astray(plan.role, stage) || forall|i: int|
        0 <= i < plan.children.len() ==> shareable(#[trigger] plan.children[i], stage)
}

impl<P> StageExec<P> {
    fn find_input_task_count(&self, num: usize) -> (count: Option<usize>)
        ensures
            match count {
                Some(n) => input_task_count(self.inputs@, num) == Some(n as nat),
                None => input_task_count(self.inputs@, num) is None,
            },
    {
        match self.input_stage(num) {
            Ok(input) => {
                proof {
                    let i = choose|i: int|
                        0 <= i < self.inputs@.len() && *input == #[trigger] self.inputs@[i]
                            && input_num(*input) == num && forall|j: int|
                            0 <= j < i ==> input_num(#[trigger] self.inputs@[j]) != num;
                    lemma_first_input(self.inputs@, num, i);
                }
                Some(input.tasks().len())
            },
            Err(_) => {
                proof {
                    lemma_no_input(self.inputs@, num);
                }
                None
            },
        }
    }

    fn push_remark(&self, plan: &ShownPlan, out: &mut String) -> (astray: bool)
        requires
            plan.role is Isolator ==> self.tasks@.len() > 0,
        ensures
            final(out)@ == old(out)@ + remark(plan@, *self),
            astray == reads_astray(plan.role, *self),
    {
        let ghost start = out@;
        proof {
            lemma_shown_children(*plan);
            assert(start + Seq::<char>::empty() =~= start);
        }
        match plan.role {
            ShownRole::Boundary(below) => {
                let shuffle = match below.kind {
                    NetworkKind::Broadcast => {
                        return false;
                    },
                    NetworkKind::Shuffle => true,
                    NetworkKind::Coalesce => false,
                };
                match self.find_input_task_count(below.num) {
                    Some(tasks) => {
                        out.push_str(" read_from=Stage ");
                        push_usize(out, below.num);
                        out.push_str(", output_partitions=");
                        push_usize(out, plan.partitions);
                        if shuffle {
                            out.push_str(", n_tasks=");
                            push_usize(out, self.tasks.len());
                        }
                        out.push_str(", input_tasks=");
                        push_usize(out, tasks);
                        proof {
                            assert(out@ =~= start + remark(plan@, *self));
                        }
                        false
                    },
                    None => {
                        out.push_str("Wrong partition number ");
                        push_usize(out, below.num);
                        proof {
                            assert(out@ =~= start + remark(plan@, *self));
                        }
                        true
                    },
                }
            },
            ShownRole::Isolator => {
                let tasks = format_tasks_for_partition_isolator(plan, self.tasks.len());
                out.push_str(" ");
                out.push_str(tasks.as_str());
                proof {
                    reveal_strlit(" ");
                    reveal_strlit("Tasks: ");
                    reveal_strlit(" Tasks: ");
                    assert(" "@ + "Tasks: "@ =~= " Tasks: "@);
                    assert(out@ =~= start + remark(plan@, *self));
                }
                false
            },
            _ => false,
        }
    }

    fn format(
        &self,
        plan: &ShownPlan,
        prefix: &str,
        out: &mut String,
        Ghost(indent): Ghost<nat>,
    )
        requires
            prefix@ == spaces(indent),
            shareable(plan@, *self),
        ensures
            final(out)@ == old(out)@ + formatted(plan@, *self, indent),
        decreases *plan,
    {
        let ghost start = out@;
        proof {
            lemma_shown_children(*plan);
        }
        out.push_str(prefix);
        out.push_str(" ");
        out.push_str(plan.line.as_str());
        let astray = self.push_remark(plan, out);
        out.push_str("\n");
        let ghost own = spaces(indent) + " "@ + plan@.line + remark(plan@, *self) + "\n"@;
        proof {
            assert(out@ =~= start + own);
        }
        if astray {
            proof {
                assert(out@ =~= start + formatted(plan@, *self, indent));
            }
            return ;
        }
        let mut further = String::new();
        further.push_str(prefix);
        further.push(' ');
        further.push(' ');
        let ghost views = shown_views(plan.children@);
        proof {
            assert(further@ =~= spaces(indent + 2));
            assert(views.take(0) =~= Seq::empty());
            assert(out@ =~= start + own + all_formatted(views.take(0), *self, indent + 2));
        }
        for i in 0..plan.children.len()
            invariant
                views == shown_views(plan.children@),
                plan@.children == views,
                further@ == spaces(indent + 2),
                shareable(plan@, *self),
                !reads_astray(plan@.role, *self),
                out@ == start + own + all_formatted(views.take(i as int), *self, indent + 2),
        {
            proof {
                assert(views.take(i + 1).drop_last() =~= views.take(i as int));
                assert(views.take(i + 1).last() == plan.children@[i as int]@);
                assert(shareable(plan@.children[i as int], *self));
            }
            self.format(&plan.children[i], further.as_str(), out, Ghost(indent + 2));
            proof {
                assert(out@ =~= start + own + all_formatted(views.take(i + 1), *self, indent + 2));
            }
        }
        proof {
            assert(views.take(views.len() as int) =~= views);
            assert(out@ =~= start + formatted(plan@, *self, indent));
        }
    }

    /// Tells whether the stage has tasks for the isolators in its plan to share partitions among.
    fn is_shareable(&self, plan: &ShownPlan) -> (yes: bool)
        ensures
            yes == shareable(plan@, *self),
        decreases *plan,
    {
        proof {
            lemma_shown_children(*plan);
        }
        if let ShownRole::Isolator = plan.role {
            if self.tasks.len() == 0 {
                return false;
            }
        }
        if let ShownRole::Boundary(below) = plan.role {
            let network = match below.kind {
                NetworkKind::Broadcast => false,
                _ => true,
            };
            if network && self.find_input_task_count(below.num).is_none() {
                return true;
            }
        }
        for i in 0..plan.children.len()
            invariant
                plan@.children == shown_views(plan.children@),
                !reads_astray(plan@.role, *self),
                forall|j: int| 0 <= j < i ==> shareable(#[trigger] plan@.children[j], *self),
        {
            proof {
                assert(plan@.children[i as int] == plan.children@[i as int]@);
            }
            if !self.is_shareable(&plan.children[i]) {
                proof {
                    assert(!shareable(plan@.children[i as int], *self));
                }
                return false;
            }
        }
        true
    }
}

/// How a stage is shown in full: a box around its nodes.
pub open spec fn stage_box(stage: StageExec<ShownPlan>) -> Seq<char> {
    let margin = spaces(2 * (stage.depth as nat));
    "┌───── "@ + stage.name@ + " "@ + task_lists_text(stage.tasks@.len(), stage.plan@) + "\n"@
        + margin + "│"@ + lines_joined(
        formatted(stage.plan@, stage, 0),
        "\n"@ + margin + "│"@,
    ) + "\n"@ + margin + "└──────────────────────────────────────────────────"@
}

/// How a stage is shown.
pub open spec fn stage_text(stage: StageExec<ShownPlan>, t: DisplayFormatType) -> Seq<char> {
    match t {
        DisplayFormatType::Default => stage.name@,
        DisplayFormatType::Verbose => stage_box(stage),
        DisplayFormatType::TreeRender => task_lists_text(stage.tasks@.len(), stage.plan@),
    }
}

/// Whether a stage can be shown: its partitions can be numbered and shared.
pub open spec fn showable(stage: StageExec<ShownPlan>, t: DisplayFormatType) -> bool {
    &&& t !is Default ==> listable(stage.tasks@.len(), stage.plan@)
    &&& t is Verbose ==> shareable(stage.plan@, stage)
}

fn margin_of(depth: usize) -> (margin: String)
    ensures
        margin@ == spaces(2 * (depth as nat)),
{
    let mut margin = String::new();
    proof {
        assert(margin@ =~= spaces(0));
    }
    for i in 0..depth
        invariant
            margin@ == spaces(2 * (i as nat)),
    {
        margin.push(' ');
        margin.push(' ');
        proof {
            assert(margin@ =~= spaces(2 * (i as nat + 1)));
        }
    }
    margin
}

impl StageExec<ShownPlan> {
    /// Tells whether the stage can be shown.
    pub fn is_showable(&self, t: DisplayFormatType) -> (yes: bool)
        ensures
            yes == showable(*self, t),
    {
        proof {
            lemma_shown_children(self.plan);
        }
        match t {
            DisplayFormatType::Default => true,
            DisplayFormatType::Verbose => (self.plan.hash || self.tasks.len().checked_mul(
                self.plan.partitions,
            ).is_some()) && self.is_shareable(&self.plan),
            DisplayFormatType::TreeRender => self.plan.hash || self.tasks.len().checked_mul(
                self.plan.partitions,
            ).is_some(),
        }
    }

    /// Shows the stage.
    pub fn fmt_as(&self, t: DisplayFormatType) -> (text: String)
        requires
            showable(*self, t),
        ensures
            text@ == stage_text(*self, t),
    {
        match t {
            DisplayFormatType::Default => self.name.clone(),
            DisplayFormatType::Verbose => {
                let margin = margin_of(self.depth);
                let mut text = String::new();
                text.push_str("┌───── ");
                text.push_str(self.name.as_str());
                text.push_str(" ");
                let tasks = format_tasks_for_stage(self.tasks.len(), &self.plan);
                text.push_str(tasks.as_str());
                text.push_str("\n");
                let mut inner = String::new();
                let no_prefix = String::new();
                proof {
                    assert(no_prefix@ =~= spaces(0));
                }
                self.format(&self.plan, no_prefix.as_str(), &mut inner, Ghost(0));
                let mut separator = String::new();
                separator.push_str("\n");
                separator.push_str(margin.as_str());
                separator.push_str("│");
                let joined = join_lines(inner.as_str(), separator.as_str());
                proof {
                    assert(inner@ =~= formatted(self.plan@, *self, 0));
                    assert(separator@ =~= "\n"@ + margin@ + "│"@);
                }
                text.push_str(margin.as_str());
                text.push_str("│");
                text.push_str(joined.as_str());
                text.push_str("\n");
                text.push_str(margin.as_str());
                text.push_str("└──────────────────────────────────────────────────");
                proof {
                    assert(text@ =~= stage_box(*self));
                }
                text
            },
            DisplayFormatType::TreeRender => format_tasks_for_stage(self.tasks.len(), &self.plan),
        }
    }
}

/// A stage, as it is drawn.
pub open spec fn drawn_stage(stage: StageExec<ShownPlan>) -> DrawnView {
    DrawnView {
        num: stage.num,
        n_tasks: stage.tasks@.len() as usize,
        plan: Some(stage.plan@),
    }
}

fn draw<'a>(stage: &'a StageExec<ShownPlan>) -> (drawn: DrawnStage<'a>)
    ensures
        drawn@ == drawn_stage(*stage),
        drawn.n_tasks == stage.tasks@.len(),
{
    DrawnStage { num: stage.num, n_tasks: stage.tasks.len(), plan: Some(&stage.plan) }
}

/// Whether there is an isolator among the first `n` nodes.
pub open spec fn isolator_among(list: Seq<Visit>, n: nat) -> bool {
    exists|k: int| 0 <= k < n && k < list.len() && (#[trigger] list[k]).plan.role is Isolator
}

/// How the edges into a node are drawn: behind an isolator only those of the partitions of the task are
/// seen.
pub open spec fn reading_style(behind_isolator: bool, plan: ShownView, task: usize) -> EdgeStyle {
    if behind_isolator {
        EdgeStyle::Within {
            first: (task * plan.partitions) as usize,
            end: ((task + 1) * plan.partitions) as usize,
        }
    } else {
        EdgeStyle::Spaced
    }
}

/// The edges into the first `n` nodes of a task from a task of another stage. `plan` is the plan of the
/// stage that reads.
pub open spec fn reading_text(
    list: Seq<Visit>,
    n: nat,
    plan: ShownView,
    reader: TaskPlace,
    source_name: Seq<char>,
    source: TaskPlace,
    source_tasks: usize,
) -> Seq<char>
    decreases n,
{
    if n == 0 {
        Seq::empty()
    } else {
        reading_text(list, (n - 1) as nat, plan, reader, source_name, source, source_tasks)
            + crossing_at(
            list[n - 1].plan,
            n,
            reader,
            source_name,
            source,
            source_tasks,
            reading_style(isolator_among(list, n), plan, reader.task),
        )
    }
}

/// The edges into a task of a stage from a task of a stage that it reads from.
#[verifier::opaque]
pub open spec fn stage_edges_text(
    stage: StageExec<ShownPlan>,
    task: usize,
    input: StageExec<ShownPlan>,
    input_task: usize,
) -> Seq<char> {
    let list = walk(stage.plan@, WalkLimit::ShufflesAndCoalesces);
    reading_text(
        list,
        list.len(),
        stage.plan@,
        TaskPlace { num: stage.num, task },
        input.plan@.name,
        TaskPlace { num: input.num, task: input_task },
        input.tasks@.len() as usize,
    )
}

/// Draws the edges between two tasks.
pub fn display_inter_task_edges(
    stage: &StageExec<ShownPlan>,
    task_i: usize,
    input_stage: &StageExec<ShownPlan>,
    input_task_i: usize,
) -> (text: String)
    requires
        task_i * stage.plan.partitions + stage.plan.partitions <= usize::MAX,
        edges_fit(
            stage.plan@,
            task_i,
            (TaskPlace { num: input_stage.num, task: input_task_i }),
            input_stage.tasks@.len() as usize,
        ),
    ensures
        text@ == stage_edges_text(*stage, task_i, *input_stage, input_task_i),
{
    let plan = &stage.plan;
    let input_tasks: usize = input_stage.tasks.len();
    proof {
        lemma_shown_children(*plan);
        lemma_shown_children(input_stage.plan);
        lemma_block(task_i as int, task_i + 1, plan.partitions as int);
    }
    let first: usize = task_i * plan.partitions;
    let end: usize = first + plan.partitions;
    let list = walk_plan(plan, WalkLimit::ShufflesAndCoalesces);
    let ghost all = visits(list@);
    let reader = TaskPlace { num: stage.num, task: task_i };
    let source = TaskPlace { num: input_stage.num, task: input_task_i };
    let ghost name = input_stage.plan@.name;
    let mut found_isolator = false;
    let mut text = String::new();
    proof {
        assert(text@ =~= reading_text(all, 0, plan@, reader, name, source, input_tasks));
    }
    for k in 0..list.len()
        invariant
            all == visits(list@),
            all == walk(plan@, WalkLimit::ShufflesAndCoalesces),
            edges_fit(plan@, task_i, source, input_tasks),
            plan@.partitions == plan.partitions,
            first == task_i * plan.partitions,
            end == (task_i + 1) * plan.partitions,
            reader.task == task_i,
            name == input_stage.plan.name@,
            found_isolator == isolator_among(all, k as nat),
            text@ == reading_text(all, k as nat, plan@, reader, name, source, input_tasks),
    {
        let node = list[k].plan;
        proof {
            lemma_shown_children(*node);
            assert(all[k as int].plan == node@);
            reveal(edges_fit);
            assert(isolator_among(all, k as nat) ==> isolator_among(all, (k + 1) as nat));
        }
        if let ShownRole::Isolator = node.role {
            found_isolator = true;
        }
        let index: usize = k + 1;
        let style = if found_isolator {
            EdgeStyle::Within { first, end }
        } else {
            EdgeStyle::Spaced
        };
        push_crossing_at(
            &mut text,
            node,
            index,
            reader,
            input_stage.plan.name.as_str(),
            source,
            input_tasks,
            style,
        );
    }
    proof {
        reveal(stage_edges_text);
    }
    text
}

/// Whether the partitions of the tasks of a stage and of those below it can be numbered.
pub open spec fn tree_fits(stage: StageExec<ShownPlan>) -> bool
    decreases stage,
{
    &&& stage_fits(drawn_stage(stage))
    &&& forall|i: int|
        0 <= i < stage.inputs@.len() ==> match #[trigger] stage.inputs@[i] {
            InputStage::Decoded(input) => tree_fits(*input),
            InputStage::Encoded { .. } => true,
        }
}

/// Tells whether the partitions of the tasks of a stage and of those below it can be numbered.
pub fn does_tree_fit(stage: &StageExec<ShownPlan>) -> (yes: bool)
    ensures
        yes == tree_fits(*stage),
    decreases *stage,
{
    if !does_stage_fit(&draw(stage)) {
        return false;
    }
    for i in 0..stage.inputs.len()
        invariant
            stage_fits(drawn_stage(*stage)),
            forall|j: int|
                0 <= j < i ==> match #[trigger] stage.inputs@[j] {
                    InputStage::Decoded(input) => tree_fits(*input),
                    InputStage::Encoded { .. } => true,
                },
    {
        if let InputStage::Decoded(input) = &stage.inputs[i] {
            proof {
                assert(decreases_to!(stage.inputs@[i as int] => **input));
            }
            if !does_tree_fit(input) {
                proof {
                    assert(stage.inputs@[i as int] is Decoded);
                }
                return false;
            }
        }
    }
    true
}

/// The tasks of a stage and of those below it, each before those that it reads from.
pub open spec fn tree_tasks_text(stage: StageExec<ShownPlan>) -> Seq<char>
    decreases stage,
{
    stage_tasks_text(drawn_stage(stage), stage.tasks@.len()) + inputs_tasks_text(stage.inputs@)
}

/// The tasks of some stages and of those below them.
pub open spec fn inputs_tasks_text(inputs: Seq<InputStage<ShownPlan>>) -> Seq<char>
    decreases inputs,
{
    if inputs.len() == 0 {
        Seq::empty()
    } else {
        inputs_tasks_text(inputs.drop_last()) + match inputs.last() {
            InputStage::Decoded(input) => tree_tasks_text(*input),
            InputStage::Encoded { .. } => Seq::empty(),
        }
    }
}

fn push_tree_tasks(out: &mut String, stage: &StageExec<ShownPlan>)
    requires
        tree_fits(*stage),
    ensures
        final(out)@ == old(out)@ + tree_tasks_text(*stage),
    decreases *stage,
{
    let ghost start = out@;
    let _drawn = push_tasks(out, &draw(stage));
    let ghost own = stage_tasks_text(drawn_stage(*stage), stage.tasks@.len());
    let ghost all = stage.inputs@;
    proof {
        assert(all.take(0) =~= Seq::empty());
        assert(out@ =~= start + own + inputs_tasks_text(all.take(0)));
    }
    for i in 0..stage.inputs.len()
        invariant
            all == stage.inputs@,
            tree_fits(*stage),
            out@ == start + own + inputs_tasks_text(all.take(i as int)),
    {
        proof {
            assert(all.take(i + 1).drop_last() =~= all.take(i as int));
            assert(all.take(i + 1).last() == stage.inputs@[i as int]);
        }
        if let InputStage::Decoded(input) = &stage.inputs[i] {
            proof {
                assert(decreases_to!(stage.inputs@[i as int] => **input));
            }
            push_tree_tasks(out, input);
        }
        proof {
            assert(out@ =~= start + own + inputs_tasks_text(all.take(i + 1)));
        }
    }
    proof {
        assert(all.take(all.len() as int) =~= all);
        assert(out@ =~= start + tree_tasks_text(*stage));
    }
}

/// The edges into a task from the first `n` tasks of a stage that it reads from.
pub open spec fn pair_edges_text(
    stage: StageExec<ShownPlan>,
    task: usize,
    input: StageExec<ShownPlan>,
    n: nat,
) -> Seq<char>
    decreases n,
{
    if n == 0 {
        Seq::empty()
    } else {
        let input_task = (n - 1) as usize;
        pair_edges_text(stage, task, input, (n - 1) as nat) + pair_text(
            input.num,
            input_task,
            stage.num,
            task,
            stage_edges_text(stage, task, input, input_task),
        )
    }
}

/// The edges into the first `n` tasks of a stage from the tasks of a stage that it reads from.
pub open spec fn task_edges_text(
    stage: StageExec<ShownPlan>,
    input: StageExec<ShownPlan>,
    n: nat,
) -> Seq<char>
    decreases n,
{
    if n == 0 {
        Seq::empty()
    } else {
        task_edges_text(stage, input, (n - 1) as nat) + pair_edges_text(
            stage,
            (n - 1) as usize,
            input,
            input.tasks@.len(),
        )
    }
}

/// The edges into the tasks of a stage from those of some stages that it reads from.
pub open spec fn input_edges_text(
    stage: StageExec<ShownPlan>,
    inputs: Seq<InputStage<ShownPlan>>,
) -> Seq<char>
    decreases inputs.len(),
{
    if inputs.len() == 0 {
        Seq::empty()
    } else {
        input_edges_text(stage, inputs.drop_last()) + match inputs.last() {
            InputStage::Decoded(input) => task_edges_text(stage, *input, stage.tasks@.len()),
            InputStage::Encoded { .. } => Seq::empty(),
        }
    }
}

/// The edges between the tasks of a stage, of those below it, and of those that they read from.
pub open spec fn tree_edges_text(stage: StageExec<ShownPlan>) -> Seq<char>
    decreases stage,
{
    input_edges_text(stage, stage.inputs@) + inputs_edges_text(stage.inputs@)
}

/// The edges between the tasks of some stages and of those below them.
pub open spec fn inputs_edges_text(inputs: Seq<InputStage<ShownPlan>>) -> Seq<char>
    decreases inputs,
{
    if inputs.len() == 0 {
        Seq::empty()
    } else {
        inputs_edges_text(inputs.drop_last()) + match inputs.last() {
            InputStage::Decoded(input) => tree_edges_text(*input),
            InputStage::Encoded { .. } => Seq::empty(),
        }
    }
}

fn push_pair_edges(
    out: &mut String,
    stage: &StageExec<ShownPlan>,
    task_i: usize,
    input: &StageExec<ShownPlan>,
)
    requires
        task_i < stage.tasks@.len(),
        stage_fits(drawn_stage(*stage)),
    ensures
        final(out)@ == old(out)@ + pair_edges_text(*stage, task_i, *input, input.tasks@.len()),
{
    let ghost start = out@;
    let n: usize = input.tasks.len();
    let ghost n_tasks: usize = stage.tasks.len();
    proof {
        assert(start + pair_edges_text(*stage, task_i, *input, 0) =~= start);
    }
    for k in 0..n
        invariant
            n == input.tasks@.len(),
            n_tasks == stage.tasks@.len(),
            task_i < n_tasks,
            stage_fits(drawn_stage(*stage)),
            out@ == start + pair_edges_text(*stage, task_i, *input, k as nat),
    {
        let ghost before = pair_edges_text(*stage, task_i, *input, k as nat);
        proof {
            lemma_shown_children(stage.plan);
            lemma_block(task_i as int, n_tasks as int, stage.plan.partitions as int);
            tasks_can_be_connected(
                stage.plan@,
                n_tasks,
                task_i,
                TaskPlace { num: input.num, task: k },
                n,
            );
        }
        let edges = display_inter_task_edges(stage, task_i, input, k);
        push_pair(out, input.num, k, stage.num, task_i, edges.as_str());
        proof {
            assert(out@ =~= start + (before + pair_text(
                input.num,
                k,
                stage.num,
                task_i,
                edges@,
            )));
        }
    }
}

fn push_input_edges(out: &mut String, stage: &StageExec<ShownPlan>)
    requires
        stage_fits(drawn_stage(*stage)),
    ensures
        final(out)@ == old(out)@ + input_edges_text(*stage, stage.inputs@),
{
    let ghost start = out@;
    let ghost all = stage.inputs@;
    let n: usize = stage.tasks.len();
    proof {
        assert(all.take(0) =~= Seq::empty());
        assert(start + input_edges_text(*stage, all.take(0)) =~= start);
    }
    for j in 0..stage.inputs.len()
        invariant
            all == stage.inputs@,
            n == stage.tasks@.len(),
            stage_fits(drawn_stage(*stage)),
            out@ == start + input_edges_text(*stage, all.take(j as int)),
    {
        let ghost mid = out@;
        proof {
            assert(all.take(j + 1).drop_last() =~= all.take(j as int));
            assert(all.take(j + 1).last() == stage.inputs@[j as int]);
        }
        if let InputStage::Decoded(input) = &stage.inputs[j] {
            proof {
                assert(mid + task_edges_text(*stage, **input, 0) =~= mid);
            }
            for i in 0..n
                invariant
                    n == stage.tasks@.len(),
                    stage_fits(drawn_stage(*stage)),
                    out@ == mid + task_edges_text(*stage, **input, i as nat),
            {
                let ghost before = task_edges_text(*stage, **input, i as nat);
                push_pair_edges(out, stage, i, input);
                proof {
                    assert(out@ =~= mid + (before + pair_edges_text(
                        *stage,
                        i,
                        **input,
                        input.tasks@.len(),
                    )));
                }
            }
        }
        proof {
            assert(out@ =~= start + input_edges_text(*stage, all.take(j + 1)));
        }
    }
    proof {
        assert(all.take(all.len() as int) =~= all);
    }
}

fn push_tree_edges(out: &mut String, stage: &StageExec<ShownPlan>)
    requires
        tree_fits(*stage),
    ensures
        final(out)@ == old(out)@ + tree_edges_text(*stage),
    decreases *stage,
{
    let ghost start = out@;
    push_input_edges(out, stage);
    let ghost own = input_edges_text(*stage, stage.inputs@);
    let ghost all = stage.inputs@;
    proof {
        assert(all.take(0) =~= Seq::empty());
        assert(out@ =~= start + own + inputs_edges_text(all.take(0)));
    }
    for i in 0..stage.inputs.len()
        invariant
            all == stage.inputs@,
            tree_fits(*stage),
            out@ == start + own + inputs_edges_text(all.take(i as int)),
    {
        proof {
            assert(all.take(i + 1).drop_last() =~= all.take(i as int));
            assert(all.take(i + 1).last() == stage.inputs@[i as int]);
        }
        if let InputStage::Decoded(input) = &stage.inputs[i] {
            proof {
                assert(decreases_to!(stage.inputs@[i as int] => **input));
            }
            push_tree_edges(out, input);
        }
        proof {
            assert(out@ =~= start + own + inputs_edges_text(all.take(i + 1)));
        }
    }
    proof {
        assert(all.take(all.len() as int) =~= all);
        assert(out@ =~= start + tree_edges_text(*stage));
    }
}

/// A plan that is drawn.
#[derive(Debug)]
pub enum GraphRoot {
    /// A tree of stages.
    Stages(StageExec<ShownPlan>),
    /// Any other plan.
    Single(ShownPlan),
}

/// How a plan is drawn.
pub open spec fn root_text(root: GraphRoot) -> Seq<char> {
    GRAPH_TOP@ + (match root {
        GraphRoot::Stages(stage) => tree_tasks_text(stage) + tree_edges_text(stage),
        GraphRoot::Single(plan) => "node[shape=none]\n"@ + plan_text(plan@, 0, 1, 0) + "\n"@,
    }) + "}\n"@
}

/// Draws a plan in the language of Graphviz.
pub fn display_plan_graphviz(root: &GraphRoot) -> (text: String)
    requires
        root matches GraphRoot::Stages(stage) ==> tree_fits(*stage),
    ensures
        text@ == root_text(*root),
{
    let mut text = String::new();
    text.push_str(GRAPH_TOP);
    match root {
        GraphRoot::Stages(stage) => {
            push_tree_tasks(&mut text, stage);
            push_tree_edges(&mut text, stage);
        },
        GraphRoot::Single(plan) => {
            text.push_str("node[shape=none]\n");
            let drawn = display_plan(plan, 0, 1, 0);
            text.push_str(drawn.as_str());
            text.push_str("\n");
        },
    }
    text.push_str("}\n");
    proof {
        assert(text@ =~= root_text(*root));
    }
    text
}

} // verus!
