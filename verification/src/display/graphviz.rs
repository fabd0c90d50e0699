use crate::display::shown_plan::{
    lemma_shown_children, visits, walk, walk_plan, ShownPlan, ShownRole, ShownView, Visit, WalkLimit,
};
use crate::execution_plans::partition_isolator::{group_of, PartitionIsolatorExec};
use crate::protobuf::distributed_codec::NetworkKind;
use crate::text::{concat, decimal, join, lemma_join_push, push_usize};
use vstd::prelude::*;

verus! {

/// The number of colors of the scheme that the edges are drawn in.
pub const NUM_COLORS: usize = 6;

/// The part of a node above its upper ports.
pub const NODE_TOP: &'static str = " [label=<
    <TABLE BORDER='0' CELLBORDER='0' CELLSPACING='0' CELLPADDING='0'>
        <TR>
            <TD CELLBORDER='0'>
                <TABLE BORDER='0' CELLBORDER='1' CELLSPACING='0'>
                    <TR>
";

/// The part of a node between its upper ports and its name.
pub const NODE_NAME_BEGIN: &'static str = "                   </TR>
                </TABLE>
            </TD>
        </TR>
        <TR>
            <TD BORDER='0' CELLPADDING='0' CELLSPACING='0'>
                <TABLE BORDER='0' CELLBORDER='1' CELLSPACING='0'>
                    <TR>
                        <TD>";

/// The part of a node between its name and its lower ports.
pub const NODE_NAME_END: &'static str = "</TD>
                    </TR>
                </TABLE>
            </TD>
        </TR>
        <TR>
            <TD CELLBORDER='0'>
                <TABLE BORDER='0' CELLBORDER='1' CELLSPACING='0'>
                    <TR>
";

/// The part of a node below its lower ports.
pub const NODE_BOTTOM: &'static str = "                   </TR>
                </TABLE>
            </TD>
        </TR>
    </TABLE>
  >];

";

/// The part of the frame of a task between its label and its nodes.
pub const TASK_TOP: &'static str = "\"
    labeljust=r
    labelloc=b

    node[shape=none]


";

/// The name of a node in a drawing.
pub open spec fn graph_name(name: Seq<char>, stage: usize, task: usize, index: nat) -> Seq<char> {
    name + "_"@ + decimal(stage as nat) + "_"@ + decimal(task as nat) + "_"@ + decimal(index)
}

fn push_graph_name(out: &mut String, name: &str, stage: usize, task: usize, index: usize)
    ensures
        final(out)@ == old(out)@ + graph_name(name@, stage, task, index as nat),
{
    let ghost start = out@;
    out.push_str(name);
    out.push_str("_");
    push_usize(out, stage);
    out.push_str("_");
    push_usize(out, task);
    out.push_str("_");
    push_usize(out, index);
    proof {
        assert(out@ =~= start + graph_name(name@, stage, task, index as nat));
    }
}

/// The ports of a node on one of its sides.
pub open spec fn ports_text(port: Seq<char>, n: nat) -> Seq<char>
    decreases n,
{
    if n == 0 {
        Seq::empty()
    } else {
        ports_text(port, (n - 1) as nat) + "                        <TD PORT='"@ + port + decimal(
            (n - 1) as nat,
        ) + "'></TD>\n"@
    }
}

fn push_ports(out: &mut String, port: &str, n: usize)
    ensures
        final(out)@ == old(out)@ + ports_text(port@, n as nat),
{
    let ghost start = out@;
    proof {
        assert(start + ports_text(port@, 0) =~= start);
    }
    for i in 0..n
        invariant
            out@ == start + ports_text(port@, i as nat),
    {
        let ghost before = ports_text(port@, i as nat);
        out.push_str("                        <TD PORT='");
        out.push_str(port);
        push_usize(out, i);
        out.push_str("'></TD>\n");
        proof {
            assert(out@ =~= start + (before + "                        <TD PORT='"@ + port@ + decimal(
                i as nat,
            ) + "'></TD>\n"@));
        }
    }
}

/// The partitions that a node reads. One that reads from another stage reads as many as it has.
pub open spec fn input_partitions(plan: ShownView) -> usize {
    if plan.role is Boundary {
        plan.partitions
    } else if plan.children.len() > 0 {
        plan.children[0].partitions
    } else {
        1
    }
}

pub(crate) fn count_input_partitions(plan: &ShownPlan) -> (n: usize)
    ensures
        n == input_partitions(plan@),
{
    proof {
        lemma_shown_children(*plan);
    }
    if let ShownRole::Boundary(_) = plan.role {
        plan.partitions
    } else if plan.children.len() > 0 {
        proof {
            lemma_shown_children(plan.children@[0]);
            assert(plan@.children[0] == plan.children@[0]@);
        }
        plan.children[0].partitions
    } else {
        1
    }
}

/// How a node is drawn: as a table with a port for each partition above and below its name.
pub open spec fn node_text(plan: ShownView, stage: usize, task: usize, index: nat) -> Seq<char> {
    "\n    "@ + graph_name(plan.name, stage, task, index) + NODE_TOP@ + ports_text(
        "t"@,
        plan.partitions as nat,
    ) + NODE_NAME_BEGIN@ + plan.name + NODE_NAME_END@ + ports_text(
        "b"@,
        input_partitions(plan) as nat,
    ) + NODE_BOTTOM@
}

/// Draws a node.
pub fn display_single_plan(
    plan: &ShownPlan,
    stage_num: usize,
    task_i: usize,
    node_index: usize,
) -> (text: String)
    ensures
        text@ == node_text(plan@, stage_num, task_i, node_index as nat),
{
    let mut text = String::new();
    proof {
        lemma_shown_children(*plan);
    }
    text.push_str("\n    ");
    push_graph_name(&mut text, plan.name.as_str(), stage_num, task_i, node_index);
    text.push_str(NODE_TOP);
    push_ports(&mut text, "t", plan.partitions);
    text.push_str(NODE_NAME_BEGIN);
    text.push_str(plan.name.as_str());
    text.push_str(NODE_NAME_END);
    let n: usize = count_input_partitions(plan);
    push_ports(&mut text, "b", n);
    text.push_str(NODE_BOTTOM);
    proof {
        assert(text@ =~= node_text(plan@, stage_num, task_i, node_index as nat));
    }
    text
}

/// An edge from an upper port of a node to a lower port of another.
pub open spec fn edge_text(
    from: Seq<char>,
    from_port: nat,
    to: Seq<char>,
    to_port: nat,
    style: Seq<char>,
    partition: nat,
) -> Seq<char> {
    "  "@ + from + ":t"@ + decimal(from_port) + ":n -> "@ + to + ":b"@ + decimal(to_port) + ":s "@
        + style + "[color="@ + decimal(partition % (NUM_COLORS as nat) + 1) + "]\n"@
}

fn push_edge(
    out: &mut String,
    from: &str,
    from_port: usize,
    to: &str,
    to_port: usize,
    style: &str,
    partition: usize,
)
    ensures
        final(out)@ == old(out)@ + edge_text(
            from@,
            from_port as nat,
            to@,
            to_port as nat,
            style@,
            partition as nat,
        ),
{
    let ghost start = out@;
    out.push_str("  ");
    out.push_str(from);
    out.push_str(":t");
    push_usize(out, from_port);
    out.push_str(":n -> ");
    out.push_str(to);
    out.push_str(":b");
    push_usize(out, to_port);
    out.push_str(":s ");
    out.push_str(style);
    out.push_str("[color=");
    push_usize(out, partition % NUM_COLORS + 1);
    out.push_str("]\n");
    proof {
        assert(out@ =~= start + edge_text(
            from@,
            from_port as nat,
            to@,
            to_port as nat,
            style@,
            partition as nat,
        ));
    }
}

/// The nodes of a task, from the first to the `n`-th that a walk comes to.
pub open spec fn nodes_text(list: Seq<Visit>, n: nat, stage: usize, task: usize) -> Seq<char>
    decreases n,
{
    if n == 0 {
        Seq::empty()
    } else {
        nodes_text(list, (n - 1) as nat, stage, task) + node_text(
            list[n - 1].plan,
            stage,
            task,
            n,
        ) + "\n"@
    }
}

/// The partitions that the last isolator among the first `n` nodes shows the task, if there is one.
pub open spec fn isolated(list: Seq<Visit>, n: nat, task: usize, n_tasks: usize) -> Option<
    Seq<usize>,
>
    decreases n,
{
    if n == 0 {
        None
    } else if list[n - 1].plan.role is Isolator {
        Some(
            group_of(input_partitions(list[n - 1].plan) as nat, n_tasks as nat, task as int),
        )
    } else {
        isolated(list, (n - 1) as nat, task, n_tasks)
    }
}

/// How the edge of a partition is drawn inside a task. Those that the task has no data for are marked
/// above an isolator, and not seen below it.
pub open spec fn edge_style(role: ShownRole, group: Option<Seq<usize>>, i: nat) -> Seq<char> {
    if role is Isolator {
        if i >= (match group {
            Some(group) => group.len(),
            None => 0,
        }) {
            "[style=dotted, label=empty]"@
        } else {
            ""@
        }
    } else {
        match group {
            Some(group) => if !group.contains(i as usize) {
                "[style=invis]"@
            } else {
                ""@
            },
            None => ""@,
        }
    }
}

/// The edges from a node to the one above it, for its first `n` partitions.
pub open spec fn node_edges_text(
    from: Seq<char>,
    to: Seq<char>,
    role: ShownRole,
    group: Option<Seq<usize>>,
    n: nat,
) -> Seq<char>
    decreases n,
{
    if n == 0 {
        Seq::empty()
    } else {
        let i = (n - 1) as nat;
        node_edges_text(from, to, role, group, i) + edge_text(
            from,
            i,
            to,
            i,
            edge_style(role, group, i),
            i,
        )
    }
}

/// The edges between the nodes of a task, for the first `n` nodes.
pub open spec fn edges_text(
    list: Seq<Visit>,
    n: nat,
    stage: usize,
    task: usize,
    n_tasks: usize,
) -> Seq<char>
    decreases n,
{
    if n == 0 {
        Seq::empty()
    } else {
        let visit = list[n - 1];
        edges_text(list, (n - 1) as nat, stage, task, n_tasks) + match visit.parent {
            Some((name, place)) => node_edges_text(
                graph_name(visit.plan.name, stage, task, n),
                graph_name(name, stage, task, place),
                visit.plan.role,
                isolated(list, n, task, n_tasks),
                visit.plan.partitions as nat,
            ),
            None => Seq::empty(),
        }
    }
}

/// How the plan of a task is drawn: its nodes, and then the edges between them.
pub open spec fn plan_text(plan: ShownView, task: usize, n_tasks: usize, stage: usize) -> Seq<
    char,
> {
    let list = walk(plan, WalkLimit::Boundaries);
    nodes_text(list, list.len(), stage, task) + edges_text(
        list,
        list.len(),
        stage,
        task,
        n_tasks,
    )
}

fn holds_partition(group: &Vec<usize>, partition: usize) -> (yes: bool)
    ensures
        yes == group@.contains(partition),
{
    for i in 0..group.len()
        invariant
            forall|j: int| 0 <= j < i ==> group@[j] != partition,
    {
        if group[i] == partition {
            proof {
                assert(group@[i as int] == partition);
            }
            return true;
        }
    }
    false
}

/// What an optional list of partitions stands for.
pub open spec fn group_view(group: Option<Vec<usize>>) -> Option<Seq<usize>> {
    match group {
        Some(group) => Some(group@),
        None => None,
    }
}

fn push_node_edges(
    out: &mut String,
    from: &str,
    to: &str,
    role: ShownRole,
    group: &Option<Vec<usize>>,
    n: usize,
)
    ensures
        final(out)@ == old(out)@ + node_edges_text(from@, to@, role, group_view(*group), n as nat),
{
    let ghost start = out@;
    let ghost view = group_view(*group);
    proof {
        assert(start + node_edges_text(from@, to@, role, view, 0) =~= start);
    }
    for i in 0..n
        invariant
            view == group_view(*group),
            out@ == start + node_edges_text(from@, to@, role, view, i as nat),
    {
        let style = match role {
            ShownRole::Isolator => {
                let len: usize = match group {
                    Some(group) => group.len(),
                    None => 0,
                };
                if i >= len {
                    "[style=dotted, label=empty]"
                } else {
                    ""
                }
            },
            _ => match group {
                Some(group) => if !holds_partition(group, i) {
                    "[style=invis]"
                } else {
                    ""
                },
                None => "",
            },
        };
        proof {
            assert(style@ == edge_style(role, view, i as nat));
        }
        let ghost before = node_edges_text(from@, to@, role, view, i as nat);
        push_edge(out, from, i, to, i, style, i);
        proof {
            assert(out@ =~= start + (before + edge_text(
                from@,
                i as nat,
                to@,
                i as nat,
                style@,
                i as nat,
            )));
        }
    }
}

/// Draws the plan of a task.
pub fn display_plan(plan: &ShownPlan, task_i: usize, n_tasks: usize, stage_num: usize) -> (text:
    String)
    requires
        task_i < n_tasks,
    ensures
        text@ == plan_text(plan@, task_i, n_tasks, stage_num),
{
    let list = walk_plan(plan, WalkLimit::Boundaries);
    let ghost all = visits(list@);
    let mut text = String::new();
    proof {
        assert(text@ =~= nodes_text(all, 0, stage_num, task_i));
    }
    for k in 0..list.len()
        invariant
            all == visits(list@),
            text@ == nodes_text(all, k as nat, stage_num, task_i),
    {
        let ghost before = text@;
        let index: usize = k + 1;
        let node = display_single_plan(list[k].plan, stage_num, task_i, index);
        text.push_str(node.as_str());
        text.push_str("\n");
        proof {
            assert(all[k as int].plan == list@[k as int].plan@);
            assert(text@ =~= before + node_text(all[k as int].plan, stage_num, task_i, index as nat)
                + "\n"@);
        }
    }
    let ghost nodes = text@;
    let mut group: Option<Vec<usize>> = None;
    proof {
        assert(text@ =~= nodes + edges_text(all, 0, stage_num, task_i, n_tasks));
    }
    for k in 0..list.len()
        invariant
            task_i < n_tasks,
            all == visits(list@),
            group_view(group) == isolated(all, k as nat, task_i, n_tasks),
            text@ == nodes + edges_text(all, k as nat, stage_num, task_i, n_tasks),
    {
        let ghost before = edges_text(all, k as nat, stage_num, task_i, n_tasks);
        let index: usize = k + 1;
        let node = list[k].plan;
        proof {
            lemma_shown_children(*node);
            assert(all[k as int].plan == node@);
        }
        if let ShownRole::Isolator = node.role {
            let n: usize = count_input_partitions(node);
            group = Some(PartitionIsolatorExec::partition_group(n, task_i, n_tasks));
        }
        match list[k].parent {
            Some((above, place)) => {
                proof {
                    lemma_shown_children(*above);
                }
                let mut from = String::new();
                push_graph_name(&mut from, node.name.as_str(), stage_num, task_i, index);
                let mut to = String::new();
                push_graph_name(&mut to, above.name.as_str(), stage_num, task_i, place);
                proof {
                    assert(from@ =~= graph_name(node@.name, stage_num, task_i, index as nat));
                    assert(to@ =~= graph_name(above@.name, stage_num, task_i, place as nat));
                }
                push_node_edges(
                    &mut text,
                    from.as_str(),
                    to.as_str(),
                    node.role,
                    &group,
                    node.partitions,
                );
            },
            None => {},
        }
        proof {
            assert(text@ =~= nodes + edges_text(all, index as nat, stage_num, task_i, n_tasks));
        }
    }
    text
}

/// The numbers of the partitions of a task of a stage whose tasks have `partitions` each.
pub open spec fn partition_group(task: int, partitions: int) -> Seq<usize> {
    Seq::new(partitions as nat, |j: int| (task * partitions + j) as usize)
}

/// Lists the numbers of the partitions of a task.
pub fn build_partition_group(task_i: usize, partitions: usize) -> (group: Vec<usize>)
    requires
        (task_i + 1) * partitions <= usize::MAX,
    ensures
        group@ == partition_group(task_i as int, partitions as int),
{
    let mut group: Vec<usize> = Vec::new();
    proof {
        assert((task_i + 1) * partitions == task_i * partitions + partitions) by (nonlinear_arith);
        assert(0 <= task_i * partitions) by (nonlinear_arith);
    }
    let first: usize = task_i * partitions;
    for j in 0..partitions
        invariant
            first == task_i * partitions,
            first + partitions <= usize::MAX,
            group@ =~= partition_group(task_i as int, partitions as int).take(j as int),
    {
        group.push(first + j);
    }
    group
}

/// Numbers one after the other, with underscores between them.
pub open spec fn group_name(group: Seq<usize>) -> Seq<char> {
    join(Seq::new(group.len(), |i: int| decimal(group[i] as nat)), "_"@)
}

/// Shows the numbers of some partitions.
pub fn format_pg(partition_group: &Vec<usize>) -> (text: String)
    ensures
        text@ == group_name(partition_group@),
{
    let mut text = String::new();
    let ghost mut parts: Seq<Seq<char>> = Seq::empty();
    proof {
        assert(text@ =~= join(parts, "_"@));
    }
    for i in 0..partition_group.len()
        invariant
            parts =~= Seq::new(i as nat, |k: int| decimal(partition_group@[k] as nat)),
            text@ == join(parts, "_"@),
    {
        if i > 0 {
            text.push_str("_");
        }
        push_usize(&mut text, partition_group[i]);
        proof {
            let part = decimal(partition_group@[i as int] as nat);
            lemma_join_push(parts, "_"@, part);
            parts = parts.push(part);
            assert(text@ =~= join(parts, "_"@));
        }
    }
    proof {
        assert(parts =~= Seq::new(
            partition_group@.len(),
            |k: int| decimal(partition_group@[k] as nat),
        ));
    }
    text
}

/// A stage that is drawn, with its plan where that is at hand.
#[derive(Debug, Clone, Copy)]
pub struct DrawnStage<'a> {
    pub num: usize,
    pub n_tasks: usize,
    pub plan: Option<&'a ShownPlan>,
}

/// The contents of a [DrawnStage].
#[verifier::ext_equal]
pub struct DrawnView {
    pub num: usize,
    pub n_tasks: usize,
    pub plan: Option<ShownView>,
}

impl<'a> View for DrawnStage<'a> {
    type V = DrawnView;

    open spec fn view(&self) -> DrawnView {
        DrawnView {
            num: self.num,
            n_tasks: self.n_tasks,
            plan: match self.plan {
                Some(plan) => Some(plan@),
                None => None,
            },
        }
    }
}

/// The contents of some stages.
pub open spec fn drawn_views(stages: Seq<DrawnStage<'_>>) -> Seq<DrawnView> {
    Seq::new(stages.len(), |i: int| stages[i]@)
}

/// Why a plan cannot be drawn.
#[derive(Debug, Clone, Copy, PartialEq, Eq, Structural)]
pub enum GraphError {
    /// The plan of a stage is not at hand.
    PlanNotPresent,
    /// The plan of a stage that edges lead from or to is not at hand.
    PlanEncoded,
}

/// The text of an error.
pub open spec fn graph_error_text(error: GraphError) -> Seq<char> {
    match error {
        GraphError::PlanNotPresent => "plan not present"@,
        GraphError::PlanEncoded => "The inner plan of a stage was encoded."@,
    }
}

impl GraphError {
    /// The text of the error.
    pub fn message(&self) -> (text: &'static str)
        ensures
            text@ == graph_error_text(*self),
    {
        match self {
            GraphError::PlanNotPresent => "plan not present",
            GraphError::PlanEncoded => "The inner plan of a stage was encoded.",
        }
    }
}

/// How a task is drawn: a frame around its plan.
#[verifier::opaque]
pub open spec fn task_text(
    num: usize,
    n_tasks: usize,
    plan: ShownView,
    task: usize,
) -> Seq<char> {
    let stage = decimal(num as nat);
    let i = decimal(task as nat);
    "\n  subgraph \"cluster_stage_"@ + stage + "_task_"@ + i
        + "_margin\" {\n    style=invis\n    margin=20.0\n  subgraph \"cluster_stage_"@ + stage
        + "_task_"@ + i + "\" {\n    color=blue\n    style=dotted\n    label = \"Stage "@ + stage
        + " Task "@ + i + " Partitions "@ + group_name(
        partition_group(task as int, plan.partitions as int),
    ) + TASK_TOP@ + plan_text(plan, task, n_tasks, num) + "\n  }\n  }\n"@
}

/// Draws a task of a stage.
pub fn display_single_task(stage: &DrawnStage<'_>, task_i: usize) -> (result: Result<
    String,
    GraphError,
>)
    requires
        task_i < stage.n_tasks,
        stage@.plan matches Some(plan) ==> (task_i + 1) * plan.partitions <= usize::MAX,
    ensures
        match stage@.plan {
            Some(plan) => result matches Ok(text) && text@ == task_text(
                stage.num,
                stage.n_tasks,
                plan,
                task_i,
            ),
            None => result matches Err(e) && e == GraphError::PlanNotPresent,
        },
{
    let plan = match stage.plan {
        Some(plan) => plan,
        None => {
            return Err(GraphError::PlanNotPresent);
        },
    };
    proof {
        lemma_shown_children(*plan);
    }
    let group = build_partition_group(task_i, plan.partitions);
    let name = format_pg(&group);
    let inner = display_plan(plan, task_i, stage.n_tasks, stage.num);
    let mut text = String::new();
    text.push_str("\n  subgraph \"cluster_stage_");
    push_usize(&mut text, stage.num);
    text.push_str("_task_");
    push_usize(&mut text, task_i);
    text.push_str("_margin\" {\n    style=invis\n    margin=20.0\n  subgraph \"cluster_stage_");
    push_usize(&mut text, stage.num);
    text.push_str("_task_");
    push_usize(&mut text, task_i);
    text.push_str("\" {\n    color=blue\n    style=dotted\n    label = \"Stage ");
    push_usize(&mut text, stage.num);
    text.push_str(" Task ");
    push_usize(&mut text, task_i);
    text.push_str(" Partitions ");
    text.push_str(name.as_str());
    text.push_str(TASK_TOP);
    text.push_str(inner.as_str());
    text.push_str("\n  }\n  }\n");
    proof {
        reveal(task_text);
        assert(text@ =~= task_text(stage.num, stage.n_tasks, plan@, task_i));
    }
    Ok(text)
}

/// How the edges between tasks are drawn.
#[derive(Debug, Clone, Copy, PartialEq, Eq, Structural)]
pub enum EdgeStyle {
    /// All alike.
    Plain,
    /// All alike, with a space before the color.
    Spaced,
    /// Those of the partitions from `first` to before `end` are seen, and the others are not.
    Within { first: usize, end: usize },
}

/// How the edge of a partition is drawn.
pub open spec fn style_text(style: EdgeStyle, p: nat) -> Seq<char> {
    match style {
        EdgeStyle::Plain => ""@,
        EdgeStyle::Spaced => " "@,
        EdgeStyle::Within { first, end } => if first <= p < end {
            " "@
        } else {
            "[style=invis] "@
        },
    }
}

fn find_style(style: EdgeStyle, p: usize) -> (text: &'static str)
    ensures
        text@ == style_text(style, p as nat),
{
    match style {
        EdgeStyle::Plain => "",
        EdgeStyle::Spaced => " ",
        EdgeStyle::Within { first, end } => if first <= p && p < end {
            " "
        } else {
            "[style=invis] "
        },
    }
}

/// The edges into a node that reads from another stage, for `n` partitions: they leave from the ports
/// from `from_first` on and lead to those from `to_first` on.
pub open spec fn crossing_text(
    from: Seq<char>,
    from_first: int,
    to: Seq<char>,
    to_first: int,
    style: EdgeStyle,
    n: nat,
) -> Seq<char>
    decreases n,
{
    if n == 0 {
        Seq::empty()
    } else {
        let p = (n - 1) as nat;
        crossing_text(from, from_first, to, to_first, style, p) + edge_text(
            from,
            (p + from_first) as nat,
            to,
            (p + to_first) as nat,
            style_text(style, p),
            p,
        )
    }
}

fn push_crossing(
    out: &mut String,
    from: &str,
    from_first: usize,
    to: &str,
    to_first: usize,
    style: EdgeStyle,
    n: usize,
)
    requires
        from_first + n <= usize::MAX + 1,
        to_first + n <= usize::MAX + 1,
    ensures
        final(out)@ == old(out)@ + crossing_text(
            from@,
            from_first as int,
            to@,
            to_first as int,
            style,
            n as nat,
        ),
{
    let ghost start = out@;
    proof {
        assert(start + crossing_text(from@, from_first as int, to@, to_first as int, style, 0)
            =~= start);
    }
    for p in 0..n
        invariant
            from_first + n <= usize::MAX + 1,
            to_first + n <= usize::MAX + 1,
            out@ == start + crossing_text(
                from@,
                from_first as int,
                to@,
                to_first as int,
                style,
                p as nat,
            ),
    {
        let ghost before = crossing_text(
            from@,
            from_first as int,
            to@,
            to_first as int,
            style,
            p as nat,
        );
        push_edge(out, from, p + from_first, to, p + to_first, find_style(style, p), p);
        proof {
            assert(out@ =~= start + (before + edge_text(
                from@,
                (p + from_first) as nat,
                to@,
                (p + to_first) as nat,
                style_text(style, p as nat),
                p as nat,
            )));
        }
    }
}

/// One side of the edges between two tasks.
#[derive(Debug, Clone, Copy, PartialEq, Eq, Structural)]
pub struct TaskPlace {
    pub num: usize,
    pub task: usize,
}

/// The edges into one node of a task from a task of another stage. A shuffle reads from each task the
/// partitions that are meant for its own. A coalesce reads from each task all its partitions, after those of the tasks
/// before it.
pub open spec fn crossing_at(
    plan: ShownView,
    index: nat,
    reader: TaskPlace,
    source_name: Seq<char>,
    source: TaskPlace,
    source_tasks: usize,
    style: EdgeStyle,
) -> Seq<char> {
    let from = graph_name(source_name, source.num, source.task, 1);
    let to = graph_name(plan.name, reader.num, reader.task, index);
    match plan.role {
        ShownRole::Boundary(stage) => if stage.num != source.num {
            Seq::empty()
        } else {
            match stage.kind {
                NetworkKind::Shuffle => crossing_text(
                    from,
                    reader.task * plan.partitions,
                    to,
                    0,
                    style,
                    plan.partitions as nat,
                ),
                NetworkKind::Coalesce => {
                    let each = plan.partitions as nat / source_tasks as nat;
                    crossing_text(from, 0, to, source.task * each, style, each)
                },
                NetworkKind::Broadcast => Seq::empty(),
            }
        },
        _ => Seq::empty(),
    }
}

/// Whether the partitions that a node reads from other tasks can be numbered.
pub open spec fn crossing_fits(plan: ShownView, n_tasks: usize) -> bool {
    plan.role matches ShownRole::Boundary(stage) ==> (stage.kind is Shuffle ==> n_tasks
        * plan.partitions <= usize::MAX)
}

/// Whether there is a number for each port of the edges into a node from a task of another stage.
pub open spec fn ports_fit(
    plan: ShownView,
    task: usize,
    source: TaskPlace,
    source_tasks: usize,
) -> bool {
    plan.role matches ShownRole::Boundary(stage) ==> (stage.num == source.num ==> match stage.kind {
        NetworkKind::Shuffle => task * plan.partitions + plan.partitions <= usize::MAX + 1,
        NetworkKind::Coalesce => {
            let each = plan.partitions as nat / source_tasks as nat;
            source_tasks > 0 && source.task * each + each <= usize::MAX + 1
        },
        NetworkKind::Broadcast => true,
    })
}

proof fn lemma_share(each: int, task: int, n_tasks: int, all: int)
    requires
        0 <= task < n_tasks,
        0 <= all,
        each == all / n_tasks,
    ensures
        0 <= task * each,
        task * each + each <= all,
{
    assert(0 <= task * each && task * each + each <= all) by (nonlinear_arith)
        requires
            0 <= task < n_tasks,
            0 <= all,
            each == all / n_tasks,
    ;
}

pub(crate) proof fn lemma_block(task: int, n_tasks: int, partitions: int)
    requires
        0 <= task < n_tasks,
        0 <= partitions,
    ensures
        0 <= task * partitions,
        (task + 1) * partitions == task * partitions + partitions,
        task * partitions + partitions <= n_tasks * partitions,
{
    assert(0 <= task * partitions) by (nonlinear_arith)
        requires
            0 <= task,
            0 <= partitions,
    ;
    assert((task + 1) * partitions == task * partitions + partitions) by (nonlinear_arith);
    assert((task + 1) * partitions <= n_tasks * partitions) by (nonlinear_arith)
        requires
            task + 1 <= n_tasks,
            0 <= partitions,
    ;
}

proof fn lemma_first_port(task: int, each: int)
    requires
        0 <= task,
        0 <= each,
        task * each + each <= usize::MAX + 1,
    ensures
        0 <= task * each <= usize::MAX,
{
    assert(0 <= task * each && (each == 0 ==> task * each == 0)) by (nonlinear_arith)
        requires
            0 <= task,
            0 <= each,
    ;
}

/// Draws the edges into one node of a task.
pub(crate) fn push_crossing_at(
    out: &mut String,
    plan: &ShownPlan,
    index: usize,
    reader: TaskPlace,
    source_name: &str,
    source: TaskPlace,
    source_tasks: usize,
    style: EdgeStyle,
)
    requires
        ports_fit(plan@, reader.task, source, source_tasks),
    ensures
        final(out)@ == old(out)@ + crossing_at(
            plan@,
            index as nat,
            reader,
            source_name@,
            source,
            source_tasks,
            style,
        ),
{
    let ghost start = out@;
    proof {
        lemma_shown_children(*plan);
        assert(start + Seq::<char>::empty() =~= start);
    }
    let mut from = String::new();
    push_graph_name(&mut from, source_name, source.num, source.task, 1);
    let mut to = String::new();
    push_graph_name(&mut to, plan.name.as_str(), reader.num, reader.task, index);
    proof {
        assert(from@ =~= graph_name(source_name@, source.num, source.task, 1));
        assert(to@ =~= graph_name(plan@.name, reader.num, reader.task, index as nat));
    }
    if let ShownRole::Boundary(stage) = plan.role {
        if stage.num == source.num {
            match stage.kind {
                NetworkKind::Shuffle => {
                    proof {
                        lemma_first_port(reader.task as int, plan.partitions as int);
                    }
                    let first: usize = reader.task * plan.partitions;
                    push_crossing(
                        out,
                        from.as_str(),
                        first,
                        to.as_str(),
                        0,
                        style,
                        plan.partitions,
                    );
                },
                NetworkKind::Coalesce => {
                    let each: usize = plan.partitions / source_tasks;
                    proof {
                        lemma_first_port(source.task as int, each as int);
                    }
                    let first: usize = source.task * each;
                    push_crossing(out, from.as_str(), 0, to.as_str(), first, style, each);
                },
                NetworkKind::Broadcast => {},
            }
        }
    }
}

/// The edges into the first `n` nodes of a task from a task of another stage.
pub open spec fn crossings_text(
    list: Seq<Visit>,
    n: nat,
    reader: TaskPlace,
    source_name: Seq<char>,
    source: TaskPlace,
    source_tasks: usize,
) -> Seq<char>
    decreases n,
{
    if n == 0 {
        Seq::empty()
    } else {
        crossings_text(list, (n - 1) as nat, reader, source_name, source, source_tasks)
            + crossing_at(
            list[n - 1].plan,
            n,
            reader,
            source_name,
            source,
            source_tasks,
            EdgeStyle::Plain,
        )
    }
}

/// The edges into a task of a stage from a task of a stage that it reads from.
#[verifier::opaque]
pub open spec fn inter_task_text(
    num: usize,
    plan: ShownView,
    task: usize,
    input_num: usize,
    input_tasks: usize,
    input_plan: ShownView,
    input_task: usize,
) -> Seq<char> {
    let list = walk(plan, WalkLimit::ShufflesAndCoalesces);
    crossings_text(
        list,
        list.len(),
        TaskPlace { num, task },
        input_plan.name,
        TaskPlace { num: input_num, task: input_task },
        input_tasks,
    )
}

/// Whether the partitions that the tasks of a stage read from others can be numbered.
#[verifier::opaque]
pub open spec fn crossings_fit(plan: ShownView, n_tasks: usize) -> bool {
    forall|k: int|
        0 <= k < walk(plan, WalkLimit::ShufflesAndCoalesces).len() ==> crossing_fits(
            (#[trigger] walk(plan, WalkLimit::ShufflesAndCoalesces)[k]).plan,
            n_tasks,
        )
}

/// Whether there is a number for each port of the edges between two tasks.
#[verifier::opaque]
pub open spec fn edges_fit(
    plan: ShownView,
    task: usize,
    source: TaskPlace,
    source_tasks: usize,
) -> bool {
    forall|k: int|
        0 <= k < walk(plan, WalkLimit::ShufflesAndCoalesces).len() ==> ports_fit(
            (#[trigger] walk(plan, WalkLimit::ShufflesAndCoalesces)[k]).plan,
            task,
            source,
            source_tasks,
        )
}

/// Where the partitions that the tasks of a stage read can be numbered, so can the ports of the edges
/// between any of them and any task of another stage.
pub proof fn tasks_can_be_connected(
    plan: ShownView,
    n_tasks: usize,
    task: usize,
    source: TaskPlace,
    source_tasks: usize,
)
    requires
        crossings_fit(plan, n_tasks),
        task < n_tasks,
        source.task < source_tasks,
    ensures
        edges_fit(plan, task, source, source_tasks),
{
    reveal(crossings_fit);
    reveal(edges_fit);
    let list = walk(plan, WalkLimit::ShufflesAndCoalesces);
    assert forall|k: int| 0 <= k < list.len() implies ports_fit(
        (#[trigger] list[k]).plan,
        task,
        source,
        source_tasks,
    ) by {
        let partitions = list[k].plan.partitions as int;
        assert(crossing_fits(list[k].plan, n_tasks));
        lemma_block(task as int, n_tasks as int, partitions);
        lemma_share(
            partitions / source_tasks as int,
            source.task as int,
            source_tasks as int,
            partitions,
        );
    }
}

/// Draws the edges between two tasks.
pub fn display_inter_task_edges(
    stage: &DrawnStage<'_>,
    task_i: usize,
    input_stage: &DrawnStage<'_>,
    input_task_i: usize,
) -> (result: Result<String, GraphError>)
    requires
        stage@.plan matches Some(plan) ==> (input_stage@.plan is Some ==> edges_fit(
            plan,
            task_i,
            (TaskPlace { num: input_stage.num, task: input_task_i }),
            input_stage.n_tasks,
        )),
    ensures
        match (stage@.plan, input_stage@.plan) {
            (Some(plan), Some(input_plan)) => result matches Ok(text) && text@ == inter_task_text(
                stage.num,
                plan,
                task_i,
                input_stage.num,
                input_stage.n_tasks,
                input_plan,
                input_task_i,
            ),
            _ => result matches Err(e) && e == GraphError::PlanEncoded,
        },
{
    let plan = match stage.plan {
        Some(plan) => plan,
        None => {
            return Err(GraphError::PlanEncoded);
        },
    };
    let input_plan = match input_stage.plan {
        Some(plan) => plan,
        None => {
            return Err(GraphError::PlanEncoded);
        },
    };
    proof {
        lemma_shown_children(*input_plan);
    }
    let list = walk_plan(plan, WalkLimit::ShufflesAndCoalesces);
    let ghost all = visits(list@);
    let reader = TaskPlace { num: stage.num, task: task_i };
    let source = TaskPlace { num: input_stage.num, task: input_task_i };
    let mut text = String::new();
    proof {
        assert(text@ =~= crossings_text(
            all,
            0,
            reader,
            input_plan@.name,
            source,
            input_stage.n_tasks,
        ));
    }
    for k in 0..list.len()
        invariant
            all == visits(list@),
            all == walk(plan@, WalkLimit::ShufflesAndCoalesces),
            edges_fit(plan@, reader.task, source, input_stage.n_tasks),
            input_plan@.name == input_plan.name@,
            text@ == crossings_text(
                all,
                k as nat,
                reader,
                input_plan@.name,
                source,
                input_stage.n_tasks,
            ),
    {
        proof {
            reveal(edges_fit);
            assert(all[k as int].plan == list@[k as int].plan@);
        }
        let index: usize = k + 1;
        push_crossing_at(
            &mut text,
            list[k].plan,
            index,
            reader,
            input_plan.name.as_str(),
            source,
            input_stage.n_tasks,
            EdgeStyle::Plain,
        );
    }
    proof {
        reveal(inter_task_text);
    }
    Ok(text)
}

/// Whether a node is drawn with edges from the stage with the given number.
pub open spec fn draws_edges_from(plan: ShownView, num: usize) -> bool {
    plan.role matches ShownRole::Boundary(stage) && stage.num == num && !(stage.kind is Broadcast)
}

/// The port of the task of another stage that a shuffle reads its `p`-th partition from, in a task of
/// its own stage.
pub open spec fn shuffle_port(task: nat, partitions: nat, p: nat) -> nat {
    p + task * partitions
}

/// The edge of the `p`-th partition of the `k`-th node of a task, which is a shuffle.
pub open spec fn shuffle_edge(
    plan: ShownView,
    k: int,
    reader: TaskPlace,
    source_name: Seq<char>,
    source: TaskPlace,
    p: nat,
) -> Seq<char> {
    edge_text(
        graph_name(source_name, source.num, source.task, 1),
        shuffle_port(reader.task as nat, plan.partitions as nat, p),
        graph_name(plan.name, reader.num, reader.task, (k + 1) as nat),
        p,
        ""@,
        p,
    )
}

proof fn lemma_no_crossings(
    list: Seq<Visit>,
    from: nat,
    n: nat,
    reader: TaskPlace,
    source_name: Seq<char>,
    source: TaskPlace,
    source_tasks: usize,
)
    requires
        from <= n <= list.len(),
        forall|j: int|
            from <= j < n ==> !draws_edges_from((#[trigger] list[j]).plan, source.num),
    ensures
        crossings_text(list, n, reader, source_name, source, source_tasks) == crossings_text(
            list,
            from,
            reader,
            source_name,
            source,
            source_tasks,
        ),
    decreases n,
{
    if from < n {
        let before = (n - 1) as nat;
        lemma_no_crossings(list, from, before, reader, source_name, source, source_tasks);
        assert(!draws_edges_from(list[n - 1].plan, source.num));
        assert(crossings_text(list, n, reader, source_name, source, source_tasks)
            =~= crossings_text(list, before, reader, source_name, source, source_tasks));
    }
}

proof fn lemma_shuffle_edges(
    plan: ShownView,
    k: int,
    reader: TaskPlace,
    source_name: Seq<char>,
    source: TaskPlace,
    n: nat,
)
    requires
        0 <= k,
    ensures
        crossing_text(
            graph_name(source_name, source.num, source.task, 1),
            reader.task * plan.partitions,
            graph_name(plan.name, reader.num, reader.task, (k + 1) as nat),
            0,
            EdgeStyle::Plain,
            n,
        ) == concat(
            Seq::new(
                n,
                |p: int| shuffle_edge(plan, k, reader, source_name, source, p as nat),
            ),
        ),
    decreases n,
{
    let edges = |p: int| shuffle_edge(plan, k, reader, source_name, source, p as nat);
    if n > 0 {
        let before = (n - 1) as nat;
        lemma_shuffle_edges(plan, k, reader, source_name, source, before);
        assert(reader.task * plan.partitions >= 0) by (nonlinear_arith)
            requires
                reader.task >= 0,
                plan.partitions >= 0,
        ;
        assert(Seq::new(n, edges).drop_last() =~= Seq::new(before, edges));
    }
}

/// A shuffle that alone reads from a stage is drawn with one edge for each of its partitions and no
/// other: in the given task, the `p`-th leads to the `p`-th port of the shuffle from the port
/// [shuffle_port] of the node on top of the task that it reads from.
pub proof fn shuffles_are_drawn_by_their_edges(
    num: usize,
    plan: ShownView,
    task: usize,
    input_num: usize,
    input_tasks: usize,
    input_plan: ShownView,
    input_task: usize,
    k: int,
)
    requires
        ({
            let list = walk(plan, WalkLimit::ShufflesAndCoalesces);
            &&& 0 <= k < list.len()
            &&& draws_edges_from(list[k].plan, input_num)
            &&& list[k].plan.role->Boundary_0.kind is Shuffle
            &&& forall|j: int|
                0 <= j < list.len() && j != k ==> !draws_edges_from(
                    (#[trigger] list[j]).plan,
                    input_num,
                )
        }),
    ensures
        ({
            let shuffle = walk(plan, WalkLimit::ShufflesAndCoalesces)[k].plan;
            inter_task_text(num, plan, task, input_num, input_tasks, input_plan, input_task)
                == concat(
                Seq::new(
                    shuffle.partitions as nat,
                    |p: int|
                        shuffle_edge(
                            shuffle,
                            k,
                            TaskPlace { num, task },
                            input_plan.name,
                            TaskPlace { num: input_num, task: input_task },
                            p as nat,
                        ),
                ),
            )
        }),
{
    reveal(inter_task_text);
    let list = walk(plan, WalkLimit::ShufflesAndCoalesces);
    let reader = TaskPlace { num, task };
    let source = TaskPlace { num: input_num, task: input_task };
    let name = input_plan.name;
    lemma_no_crossings(list, 0, k as nat, reader, name, source, input_tasks);
    lemma_no_crossings(list, (k + 1) as nat, list.len(), reader, name, source, input_tasks);
    let shuffle = list[k].plan;
    lemma_shuffle_edges(shuffle, k, reader, name, source, shuffle.partitions as nat);
    assert(crossings_text(list, (k + 1) as nat, reader, name, source, input_tasks) =~= crossing_at(
        shuffle,
        (k + 1) as nat,
        reader,
        name,
        source,
        input_tasks,
        EdgeStyle::Plain,
    ));
}

/// The tasks that read from a stage by a shuffle read disjoint ports of each of its tasks, and all of
/// them together read every port: each port is that of exactly one partition of exactly one task.
pub proof fn shuffles_read_every_port_once(n_tasks: nat, partitions: nat, port: nat) -> (place: (
    nat,
    nat,
))
    requires
        port < n_tasks * partitions,
    ensures
        place.0 < n_tasks,
        place.1 < partitions,
        shuffle_port(place.0, partitions, place.1) == port,
        forall|task: nat, p: nat|
            task < n_tasks && p < partitions && #[trigger] shuffle_port(task, partitions, p) == port
                ==> (task, p) == place,
{
    assert(partitions > 0) by (nonlinear_arith)
        requires
            port < n_tasks * partitions,
    ;
    let (task, p) = (port / partitions, port % partitions);
    vstd::arithmetic::div_mod::lemma_fundamental_div_mod(port as int, partitions as int);
    assert(task * partitions == partitions * task) by (nonlinear_arith);
    assert(task < n_tasks) by (nonlinear_arith)
        requires
            port == partitions * task + p,
            port < n_tasks * partitions,
            0 <= p,
    ;
    assert forall|other: nat, q: nat|
        other < n_tasks && q < partitions && #[trigger] shuffle_port(other, partitions, q)
            == port implies (other, q) == (task, p) by {
        vstd::arithmetic::div_mod::lemma_fundamental_div_mod_converse(
            port as int,
            partitions as int,
            other as int,
            q as int,
        );
    }
    (task, p)
}

} // verus!
