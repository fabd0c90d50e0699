use crate::metrics::metric::{label_views, Label, LabelView};
use crate::metrics::task_metrics_rewriter::DISTRIBUTED_DATAFUSION_TASK_ID_LABEL;
use crate::text::{
    clone_text, decimal, is_text_less, join, lemma_join_push, lemma_text_order, parse_number,
    parsed_number, same_text, text_less, text_view, written_numbers_are_read,
};
use vstd::prelude::*;

verus! {

/// The task that a metric was measured in, as its labels tell: the value of the first label for that.
pub open spec fn task_id_of(labels: Seq<LabelView>) -> Option<Seq<char>>
    decreases labels.len(),
{
    if labels.len() == 0 {
        None
    } else if labels[0].name == DISTRIBUTED_DATAFUSION_TASK_ID_LABEL@ {
        Some(labels[0].value)
    } else {
        task_id_of(labels.drop_first())
    }
}

/// Finds the task that a metric was measured in.
pub fn find_task_id(labels: &Vec<Label>) -> (task_id: Option<String>)
    ensures
        match task_id {
            Some(id) => task_id_of(label_views(labels@)) == Some(id@),
            None => task_id_of(label_views(labels@)) is None,
        },
{
    let ghost views = label_views(labels@);
    proof {
        assert(views.skip(0) =~= views);
    }
    for i in 0..labels.len()
        invariant
            views == label_views(labels@),
            task_id_of(views) == task_id_of(views.skip(i as int)),
    {
        proof {
            assert(views.skip(i as int)[0] == labels@[i as int]@);
            assert(views.skip(i as int).drop_first() =~= views.skip(i + 1));
        }
        if same_text(labels[i].name.as_str(), DISTRIBUTED_DATAFUSION_TASK_ID_LABEL) {
            return Some(labels[i].value.clone());
        }
    }
    proof {
        assert(views.skip(labels@.len() as int) =~= Seq::empty());
    }
    None
}

/// A metric, as far as it is shown.
#[derive(Debug)]
pub struct ShownMetric {
    pub name: String,
    pub task_id: Option<String>,
    /// Metrics with smaller numbers are shown first.
    pub sort_key: u8,
    /// Whether it is a point in time. Those are not shown.
    pub timestamp: bool,
}

/// Metrics of the same name from the same task, which are shown as one.
#[derive(Debug)]
pub struct MetricGroup {
    pub name: String,
    pub task_id: Option<String>,
    pub sort_key: u8,
    pub timestamp: bool,
    /// The places of the metrics among all of them.
    pub members: Vec<usize>,
}

/// The contents of a [MetricGroup].
#[verifier::ext_equal]
pub struct GroupView {
    pub name: Seq<char>,
    pub task_id: Option<Seq<char>>,
    pub sort_key: u8,
    pub timestamp: bool,
    pub members: Seq<usize>,
}

impl View for MetricGroup {
    type V = GroupView;

    open spec fn view(&self) -> GroupView {
        GroupView {
            name: self.name@,
            task_id: text_view(self.task_id),
            sort_key: self.sort_key,
            timestamp: self.timestamp,
            members: self.members@,
        }
    }
}

/// The contents of some groups.
pub open spec fn group_views(groups: Seq<MetricGroup>) -> Seq<GroupView> {
    Seq::new(groups.len(), |i: int| groups[i]@)
}

/// Whether a group is for metrics of the given name and task.
pub open spec fn is_group_of(
    group: GroupView,
    name: Seq<char>,
    task_id: Option<Seq<char>>,
) -> bool {
    group.name == name && group.task_id == task_id
}

/// The groups with one more metric, at the given place: it is put to the group that it belongs to, or
/// opens a new one.
pub open spec fn with_metric(groups: Seq<GroupView>, metric: ShownMetric, place: usize) -> Seq<
    GroupView,
>
    decreases groups.len(),
{
    if groups.len() == 0 {
        seq![
            GroupView {
                name: metric.name@,
                task_id: text_view(metric.task_id),
                sort_key: metric.sort_key,
                timestamp: metric.timestamp,
                members: seq![place],
            },
        ]
    } else if is_group_of(groups[0], metric.name@, text_view(metric.task_id)) {
        seq![GroupView { members: groups[0].members.push(place), ..groups[0] }]
            + groups.drop_first()
    } else {
        seq![groups[0]] + with_metric(groups.drop_first(), metric, place)
    }
}

/// The metrics in groups, one for each name and task.
pub open spec fn grouped(metrics: Seq<ShownMetric>) -> Seq<GroupView>
    decreases metrics.len(),
{
    if metrics.len() == 0 {
        Seq::empty()
    } else {
        with_metric(
            grouped(metrics.drop_last()),
            metrics.last(),
            (metrics.len() - 1) as usize,
        )
    }
}

fn same_optional(a: &Option<String>, b: &Option<String>) -> (same: bool)
    ensures
        same == (text_view(*a) == text_view(*b)),
{
    match (a, b) {
        (Some(x), Some(y)) => same_text(x.as_str(), y.as_str()),
        (None, None) => true,
        _ => false,
    }
}

proof fn lemma_with_metric_skips(
    groups: Seq<GroupView>,
    metric: ShownMetric,
    place: usize,
    n: int,
)
    requires
        0 <= n <= groups.len(),
        forall|i: int|
            0 <= i < n ==> !is_group_of(
                #[trigger] groups[i],
                metric.name@,
                text_view(metric.task_id),
            ),
    ensures
        with_metric(groups, metric, place) == groups.take(n) + with_metric(
            groups.skip(n),
            metric,
            place,
        ),
    decreases n,
{
    if n == 0 {
        assert(groups.skip(0) =~= groups);
        assert(groups.take(0) + with_metric(groups, metric, place) =~= with_metric(
            groups,
            metric,
            place,
        ));
    } else {
        let rest = groups.drop_first();
        assert(!is_group_of(groups[0], metric.name@, text_view(metric.task_id)));
        assert forall|i: int| 0 <= i < n - 1 implies !is_group_of(
            #[trigger] rest[i],
            metric.name@,
            text_view(metric.task_id),
        ) by {
            assert(rest[i] == groups[i + 1]);
        }
        lemma_with_metric_skips(rest, metric, place, n - 1);
        assert(rest.skip(n - 1) =~= groups.skip(n));
        assert(seq![groups[0]] + (rest.take(n - 1) + with_metric(groups.skip(n), metric, place))
            =~= groups.take(n) + with_metric(groups.skip(n), metric, place));
    }
}

fn add_metric(groups: &mut Vec<MetricGroup>, metric: &ShownMetric, place: usize)
    ensures
        group_views(final(groups)@) == with_metric(group_views(old(groups)@), *metric, place),
{
    let ghost views = group_views(groups@);
    let n: usize = groups.len();
    let mut i: usize = 0;
    while i < n
        invariant
            n == groups@.len(),
            i <= n,
            views == group_views(groups@),
            groups@ == old(groups)@,
            forall|j: int|
                0 <= j < i ==> !is_group_of(
                    #[trigger] views[j],
                    metric.name@,
                    text_view(metric.task_id),
                ),
        decreases n - i,
    {
        if same_text(groups[i].name.as_str(), metric.name.as_str()) && same_optional(
            &groups[i].task_id,
            &metric.task_id,
        ) {
            proof {
                lemma_with_metric_skips(views, *metric, place, i as int);
                assert(views.skip(i as int)[0] == views[i as int]);
            }
            let ghost before = groups@;
            let mut group = groups.remove(i);
            let ghost old_group = group@;
            group.members.push(place);
            proof {
                assert(group@ =~= GroupView { members: old_group.members.push(place), ..old_group });
            }
            let ghost new_group = group@;
            groups.insert(i, group);
            proof {
                assert(group_views(groups@) =~= views.take(i as int) + (seq![new_group]
                    + views.skip(i as int).drop_first()));
            }
            return ;
        }
        i = i + 1;
    }
    let group = MetricGroup {
        name: metric.name.clone(),
        task_id: clone_text(&metric.task_id),
        sort_key: metric.sort_key,
        timestamp: metric.timestamp,
        members: vec![place],
    };
    proof {
        lemma_with_metric_skips(views, *metric, place, n as int);
        assert(views.skip(n as int) =~= Seq::empty());
        assert(group.members@ =~= seq![place]);
    }
    let ghost new_group = group@;
    groups.push(group);
    proof {
        assert(group_views(groups@) =~= views.take(n as int) + seq![new_group]);
    }
}

/// Puts metrics into groups, one for each name and task. Metrics that were not measured in a task form
/// groups of their own. What the values of a group come to is not said here: the engine folds them,
/// and a custom value folds itself.
pub fn aggregate_by_task_id(metrics: &Vec<ShownMetric>) -> (groups: Vec<MetricGroup>)
    ensures
        group_views(groups@) == grouped(metrics@),
{
    let mut groups: Vec<MetricGroup> = Vec::new();
    proof {
        assert(metrics@.take(0) =~= Seq::empty());
        assert(group_views(groups@) =~= Seq::empty());
    }
    for i in 0..metrics.len()
        invariant
            group_views(groups@) == grouped(metrics@.take(i as int)),
    {
        proof {
            assert(metrics@.take(i + 1).drop_last() =~= metrics@.take(i as int));
        }
        add_metric(&mut groups, &metrics[i], i);
    }
    proof {
        assert(metrics@.take(metrics@.len() as int) =~= metrics@);
    }
    groups
}

/// Whether a group is that of the metric at the given place.
pub open spec fn is_own_group(group: GroupView, metrics: Seq<ShownMetric>, place: int) -> bool {
    is_group_of(group, metrics[place].name@, text_view(metrics[place].task_id))
}

/// The groups are as they should be: no two for the same name and task, and in each only metrics that
/// belong there.
pub open spec fn groups_are_right(groups: Seq<GroupView>, metrics: Seq<ShownMetric>) -> bool {
    &&& forall|a: int, b: int|
        0 <= a < b < groups.len() ==> !is_group_of(
            #[trigger] groups[a],
            (#[trigger] groups[b]).name,
            groups[b].task_id,
        )
    &&& forall|g: int, k: int|
        0 <= g < groups.len() && 0 <= k < groups[g].members.len() ==> {
            let place = #[trigger] groups[g].members[k];
            place < metrics.len() && is_own_group(groups[g], metrics, place as int)
        }
}

proof fn lemma_with_metric(groups: Seq<GroupView>, metric: ShownMetric, place: usize) -> (at: int)
    ensures
        0 <= at <= groups.len(),
        forall|i: int|
            0 <= i < at ==> !is_group_of(
                #[trigger] groups[i],
                metric.name@,
                text_view(metric.task_id),
            ),
        at < groups.len() ==> is_group_of(groups[at], metric.name@, text_view(metric.task_id))
            && with_metric(groups, metric, place) == groups.update(
            at,
            GroupView { members: groups[at].members.push(place), ..groups[at] },
        ),
        at == groups.len() ==> with_metric(groups, metric, place) == groups.push(
            GroupView {
                name: metric.name@,
                task_id: text_view(metric.task_id),
                sort_key: metric.sort_key,
                timestamp: metric.timestamp,
                members: seq![place],
            },
        ),
    decreases groups.len(),
{
    let result = with_metric(groups, metric, place);
    if groups.len() == 0 {
        assert(result =~= groups.push(result[0]));
        0
    } else if is_group_of(groups[0], metric.name@, text_view(metric.task_id)) {
        assert(result =~= groups.update(
            0,
            GroupView { members: groups[0].members.push(place), ..groups[0] },
        ));
        0
    } else {
        let rest = groups.drop_first();
        let at = lemma_with_metric(rest, metric, place);
        assert forall|i: int| 0 <= i < at + 1 implies !is_group_of(
            #[trigger] groups[i],
            metric.name@,
            text_view(metric.task_id),
        ) by {
            if i > 0 {
                assert(rest[i - 1] == groups[i]);
            }
        }
        if at < rest.len() {
            assert(rest[at] == groups[at + 1]);
            assert(result =~= groups.update(
                at + 1,
                GroupView { members: groups[at + 1].members.push(place), ..groups[at + 1] },
            ));
        } else {
            assert(result =~= groups.push(result.last()));
        }
        at + 1
    }
}

/// Every metric is in exactly one group, that of its name and task, and there is only one group for each
/// name and task.
pub proof fn every_metric_is_in_its_group(metrics: Seq<ShownMetric>, place: int) -> (group: int)
    requires
        metrics.len() <= usize::MAX,
        0 <= place < metrics.len(),
    ensures
        groups_are_right(grouped(metrics), metrics),
        0 <= group < grouped(metrics).len(),
        grouped(metrics)[group].members.contains(place as usize),
        is_own_group(grouped(metrics)[group], metrics, place),
{
    lemma_groups_are_right(metrics);
    lemma_metric_in_group(metrics, place)
}

proof fn lemma_groups_are_right(metrics: Seq<ShownMetric>)
    requires
        metrics.len() <= usize::MAX,
    ensures
        groups_are_right(grouped(metrics), metrics),
    decreases metrics.len(),
{
    if metrics.len() > 0 {
        let before = metrics.drop_last();
        let groups = grouped(before);
        let metric = metrics.last();
        let place = (metrics.len() - 1) as usize;
        lemma_groups_are_right(before);
        let at = lemma_with_metric(groups, metric, place);
        let result = grouped(metrics);
        assert forall|a: int, b: int| 0 <= a < b < result.len() implies !is_group_of(
            #[trigger] result[a],
            (#[trigger] result[b]).name,
            result[b].task_id,
        ) by {
            if b < groups.len() {
                assert(!is_group_of(groups[a], groups[b].name, groups[b].task_id));
            } else {
                assert(!is_group_of(groups[a], metric.name@, text_view(metric.task_id)));
            }
        }
        assert forall|g: int, k: int|
            0 <= g < result.len() && 0 <= k < result[g].members.len() implies {
            let p = #[trigger] result[g].members[k];
            p < metrics.len() && is_own_group(result[g], metrics, p as int)
        } by {
            if g < groups.len() && k < groups[g].members.len() {
                let p = groups[g].members[k];
                assert(is_own_group(groups[g], before, p as int));
                assert(before[p as int] == metrics[p as int]);
                assert(result[g].members[k] == p);
            } else {
                assert(result[g].members[k] == place);
            }
        }
    }
}

proof fn lemma_metric_in_group(metrics: Seq<ShownMetric>, place: int) -> (group: int)
    requires
        metrics.len() <= usize::MAX,
        0 <= place < metrics.len(),
    ensures
        0 <= group < grouped(metrics).len(),
        grouped(metrics)[group].members.contains(place as usize),
        is_own_group(grouped(metrics)[group], metrics, place),
    decreases metrics.len(),
{
    let before = metrics.drop_last();
    let groups = grouped(before);
    let last = (metrics.len() - 1) as usize;
    let at = lemma_with_metric(groups, metrics.last(), last);
    let result = grouped(metrics);
    if place == last {
        let members = result[at].members;
        assert(members[members.len() - 1] == last);
        at
    } else {
        let group = lemma_metric_in_group(before, place);
        let members = groups[group].members;
        let k = choose|k: int| 0 <= k < members.len() && members[k] == place as usize;
        assert(result[group].members[k] == place as usize);
        assert(before[place] == metrics[place]);
        group
    }
}

/// A group of metrics with the text of its value.
#[derive(Debug)]
pub struct MetricText {
    pub name: String,
    pub task_id: Option<String>,
    pub sort_key: u8,
    pub timestamp: bool,
    pub value: String,
}

/// The contents of a [MetricText].
#[verifier::ext_equal]
pub struct MetricTextView {
    pub name: Seq<char>,
    pub task_id: Option<Seq<char>>,
    pub sort_key: u8,
    pub timestamp: bool,
    pub value: Seq<char>,
}

impl View for MetricText {
    type V = MetricTextView;

    open spec fn view(&self) -> MetricTextView {
        MetricTextView {
            name: self.name@,
            task_id: text_view(self.task_id),
            sort_key: self.sort_key,
            timestamp: self.timestamp,
            value: self.value@,
        }
    }
}

/// The contents of some groups.
pub open spec fn metric_text_views(metrics: Seq<MetricText>) -> Seq<MetricTextView> {
    Seq::new(metrics.len(), |i: int| metrics[i]@)
}

/// The number of a task, if its name is a number.
pub open spec fn task_number(metric: MetricTextView) -> Option<u64> {
    match metric.task_id {
        Some(id) => parsed_number(id),
        None => None,
    }
}

/// Whether one of two numbers that may be missing comes before the other. A missing one comes first.
pub open spec fn number_less(a: Option<u64>, b: Option<u64>) -> bool {
    match (a, b) {
        (None, Some(_)) => true,
        (Some(x), Some(y)) => x < y,
        _ => false,
    }
}

/// Whether a metric is shown before another: by its key, then by its name, then by the number of its
/// task.
pub open spec fn shown_before(a: MetricTextView, b: MetricTextView) -> bool {
    if a.sort_key != b.sort_key {
        a.sort_key < b.sort_key
    } else if a.name != b.name {
        text_less(a.name, b.name)
    } else {
        number_less(task_number(a), task_number(b))
    }
}

/// Whether no metric stands after one that is shown after it.
pub open spec fn is_in_order(metrics: Seq<MetricTextView>) -> bool {
    forall|i: int, j: int|
        0 <= i < j < metrics.len() ==> !shown_before(#[trigger] metrics[j], #[trigger] metrics[i])
}

proof fn lemma_order(a: MetricTextView, b: MetricTextView, c: MetricTextView)
    ensures
        shown_before(a, b) && shown_before(b, c) ==> shown_before(a, c),
        !(shown_before(a, b) && shown_before(b, a)),
{
    lemma_text_order(a.name, b.name, c.name);
    lemma_text_order(a.name, c.name, b.name);
    lemma_text_order(b.name, a.name, c.name);
}

fn find_task_number(metric: &MetricText) -> (number: Option<u64>)
    ensures
        number == task_number(metric@),
{
    match &metric.task_id {
        Some(id) => parse_number(id.as_str()),
        None => None,
    }
}

fn is_shown_before(a: &MetricText, b: &MetricText) -> (yes: bool)
    ensures
        yes == shown_before(a@, b@),
{
    if a.sort_key != b.sort_key {
        return a.sort_key < b.sort_key;
    }
    if !same_text(a.name.as_str(), b.name.as_str()) {
        return is_text_less(a.name.as_str(), b.name.as_str());
    }
    match (find_task_number(a), find_task_number(b)) {
        (None, Some(_)) => true,
        (Some(x), Some(y)) => x < y,
        _ => false,
    }
}

fn insert_in_order(sorted: &mut Vec<MetricText>, metric: MetricText)
    requires
        is_in_order(metric_text_views(old(sorted)@)),
    ensures
        is_in_order(metric_text_views(final(sorted)@)),
        metric_text_views(final(sorted)@).to_multiset() == metric_text_views(
            old(sorted)@,
        ).to_multiset().insert(metric@),
{
    let ghost before = metric_text_views(sorted@);
    let ghost new = metric@;
    let n: usize = sorted.len();
    let mut at: usize = 0;
    while at < n && !is_shown_before(&metric, &sorted[at])
        invariant
            n == sorted@.len(),
            at <= n,
            new == metric@,
            sorted@ == old(sorted)@,
            before == metric_text_views(sorted@),
            forall|i: int| 0 <= i < at ==> !shown_before(new, #[trigger] before[i]),
        decreases n - at,
    {
        at = at + 1;
    }
    sorted.insert(at, metric);
    proof {
        let after = metric_text_views(sorted@);
        assert(after =~= before.insert(at as int, new));
        assert forall|i: int, j: int| 0 <= i < j < after.len() implies !shown_before(
            #[trigger] after[j],
            #[trigger] after[i],
        ) by {
            if i == at {
                lemma_order(after[j], new, before[at as int]);
                lemma_order(new, before[at as int], new);
                if j - 1 > at {
                    assert(!shown_before(before[j - 1], before[at as int]));
                }
                assert(after[j] == before[j - 1]);
                if j - 1 == at {
                    lemma_order(new, after[j], new);
                }
            } else if j == at {
                assert(after[i] == before[i]);
            } else {
                let x = if i < at { i } else { i - 1 };
                let y = if j < at { j } else { j - 1 };
                assert(after[i] == before[x]);
                assert(after[j] == before[y]);
                assert(!shown_before(before[y], before[x]));
            }
        }
        vstd::seq_lib::to_multiset_insert(before, at as int, new);
    }
}

/// Puts metrics in the order in which they are shown.
pub fn sorted_for_display_by_task_id(metrics: Vec<MetricText>) -> (sorted: Vec<MetricText>)
    ensures
        is_in_order(metric_text_views(sorted@)),
        metric_text_views(sorted@).to_multiset() == metric_text_views(metrics@).to_multiset(),
{
    let ghost all = metric_text_views(metrics@);
    let mut sorted: Vec<MetricText> = Vec::new();
    proof {
        assert(metric_text_views(sorted@) =~= all.take(0));
    }
    for metric in it: metrics
        invariant
            metric_text_views(it.seq()) == all,
            is_in_order(metric_text_views(sorted@)),
            metric_text_views(sorted@).to_multiset() == all.take(
                it.index() as int,
            ).to_multiset(),
    {
        let ghost k = it.index() as int;
        let ghost view = metric@;
        proof {
            assert(view == all[k]);
            assert(all.take(k + 1) =~= all.take(k).push(view));
            vstd::seq_lib::to_multiset_build(all.take(k), view);
        }
        insert_in_order(&mut sorted, metric);
    }
    proof {
        assert(all.take(all.len() as int) =~= all);
    }
    sorted
}

/// How a metric is shown.
pub open spec fn metric_text(metric: MetricTextView) -> Seq<char> {
    metric.name + (match metric.task_id {
        Some(id) => "_"@ + id,
        None => Seq::empty(),
    }) + "="@ + metric.value
}

/// How those metrics are shown that are no points in time.
pub open spec fn shown_texts(metrics: Seq<MetricTextView>) -> Seq<Seq<char>>
    decreases metrics.len(),
{
    if metrics.len() == 0 {
        Seq::empty()
    } else {
        let before = shown_texts(metrics.drop_last());
        if metrics.last().timestamp {
            before
        } else {
            before.push(metric_text(metrics.last()))
        }
    }
}

/// Whether a text shows some metrics: in order, without points in time. Where the order leaves open which
/// of two is first, either may be.
pub open spec fn shows_metrics(metrics: Seq<MetricTextView>, text: Seq<char>) -> bool {
    exists|order: Seq<MetricTextView>| #[trigger]
        is_in_order(order) && order.to_multiset() == metrics.to_multiset() && text == join(
            shown_texts(order),
            ", "@,
        )
}

/// Shows metrics in one line.
pub fn format_metrics_by_task(metrics: Vec<MetricText>) -> (text: String)
    ensures
        shows_metrics(metric_text_views(metrics@), text@),
{
    let sorted = sorted_for_display_by_task_id(metrics);
    let ghost order = metric_text_views(sorted@);
    let mut text = String::new();
    let mut started = false;
    let ghost mut parts: Seq<Seq<char>> = Seq::empty();
    proof {
        assert(order.take(0) =~= Seq::empty());
        assert(text@ =~= join(parts, ", "@));
    }
    for i in 0..sorted.len()
        invariant
            order == metric_text_views(sorted@),
            parts == shown_texts(order.take(i as int)),
            text@ == join(parts, ", "@),
            started == (parts.len() > 0),
    {
        let metric = &sorted[i];
        proof {
            assert(order.take(i + 1).drop_last() =~= order.take(i as int));
            assert(order.take(i + 1).last() == metric@);
        }
        if !metric.timestamp {
            if started {
                text.push_str(", ");
            }
            let ghost before = text@;
            text.push_str(metric.name.as_str());
            match &metric.task_id {
                Some(id) => {
                    text.push_str("_");
                    text.push_str(id.as_str());
                },
                None => {},
            }
            text.push_str("=");
            text.push_str(metric.value.as_str());
            started = true;
            proof {
                let part = metric_text(metric@);
                assert(text@ =~= before + part);
                lemma_join_push(parts, ", "@, part);
                parts = parts.push(part);
                assert(text@ =~= join(parts, ", "@));
            }
        }
    }
    proof {
        assert(order.take(order.len() as int) =~= order);
        assert(is_in_order(order));
    }
    text
}

/// The first label that tells a task tells the task of a metric. Without such a label none is told.
pub proof fn the_first_label_tells_the_task(labels: Seq<LabelView>, i: int)
    requires
        0 <= i <= labels.len(),
        forall|j: int|
            0 <= j < i ==> (#[trigger] labels[j]).name != DISTRIBUTED_DATAFUSION_TASK_ID_LABEL@,
    ensures
        i < labels.len() && labels[i].name == DISTRIBUTED_DATAFUSION_TASK_ID_LABEL@
            ==> task_id_of(labels) == Some(labels[i].value),
        i == labels.len() ==> task_id_of(labels) is None,
    decreases labels.len(),
{
    if i > 0 {
        let rest = labels.drop_first();
        assert(labels[0].name != DISTRIBUTED_DATAFUSION_TASK_ID_LABEL@);
        assert forall|j: int| 0 <= j < i - 1 implies (#[trigger] rest[j]).name
            != DISTRIBUTED_DATAFUSION_TASK_ID_LABEL@ by {
            assert(labels[j + 1].name != DISTRIBUTED_DATAFUSION_TASK_ID_LABEL@);
        }
        the_first_label_tells_the_task(rest, i - 1);
    }
}

/// Every metric is shown that is no point in time, and no other.
pub proof fn only_points_in_time_are_not_shown(metrics: Seq<MetricTextView>, text: Seq<char>)
    ensures
        shown_texts(metrics).contains(text) <==> exists|i: int|
            0 <= i < metrics.len() && !(#[trigger] metrics[i]).timestamp && metric_text(metrics[i])
                == text,
        (forall|i: int| 0 <= i < metrics.len() ==> !(#[trigger] metrics[i]).timestamp)
            ==> shown_texts(metrics) == metrics.map_values(|m: MetricTextView| metric_text(m)),
    decreases metrics.len(),
{
    if metrics.len() > 0 {
        let front = metrics.drop_last();
        let last = metrics.last();
        let before = shown_texts(front);
        only_points_in_time_are_not_shown(front, text);
        assert(metrics[metrics.len() - 1] == last);
        assert forall|i: int| 0 <= i < front.len() implies #[trigger] front[i] == metrics[i] by {}
        if before.contains(text) {
            let i = choose|i: int|
                0 <= i < front.len() && !(#[trigger] front[i]).timestamp && metric_text(front[i])
                    == text;
            assert(metrics[i] == front[i]);
            let k = choose|k: int| 0 <= k < before.len() && before[k] == text;
            assert(shown_texts(metrics)[k] == text);
        }
        if exists|i: int|
            0 <= i < metrics.len() && !(#[trigger] metrics[i]).timestamp && metric_text(metrics[i])
                == text {
            let i = choose|i: int|
                0 <= i < metrics.len() && !(#[trigger] metrics[i]).timestamp && metric_text(
                    metrics[i],
                ) == text;
            if i < front.len() {
                assert(front[i] == metrics[i]);
            } else {
                assert(shown_texts(metrics)[before.len() as int] == text);
            }
        }
        if shown_texts(metrics).contains(text) && !before.contains(text) {
            let k = choose|k: int|
                0 <= k < shown_texts(metrics).len() && shown_texts(metrics)[k] == text;
            assert(k == before.len());
            assert(!metrics[metrics.len() - 1].timestamp);
        }
        if forall|i: int| 0 <= i < metrics.len() ==> !(#[trigger] metrics[i]).timestamp {
            assert forall|i: int| 0 <= i < front.len() implies !(#[trigger] front[i]).timestamp by {
                assert(!metrics[i].timestamp);
            }
            assert(shown_texts(metrics) =~= metrics.map_values(
                |m: MetricTextView| metric_text(m),
            ));
        }
    } else {
        assert(shown_texts(metrics) =~= metrics.map_values(|m: MetricTextView| metric_text(m)));
    }
}

/// Metrics with a smaller key come first, among those with the same key the smaller name, and among those
/// of the same name the task with the smaller number. A metric of no task comes before those of tasks.
pub proof fn metrics_are_shown_by_key_name_and_task(a: MetricTextView, b: MetricTextView, m: u64, n: u64)
    ensures
        a.sort_key < b.sort_key ==> shown_before(a, b) && !shown_before(b, a),
        a.sort_key == b.sort_key && text_less(a.name, b.name) ==> shown_before(a, b)
            && !shown_before(b, a),
        a.sort_key == b.sort_key && a.name == b.name && a.task_id == Some(decimal(m as nat))
            && b.task_id == Some(decimal(n as nat)) ==> (shown_before(a, b) <==> m < n),
        a.sort_key == b.sort_key && a.name == b.name && a.task_id is None && b.task_id == Some(
            decimal(n as nat),
        ) ==> shown_before(a, b) && !shown_before(b, a),
{
    written_numbers_are_read(m);
    written_numbers_are_read(n);
    lemma_text_order(a.name, b.name, a.name);
}

} // verus!
