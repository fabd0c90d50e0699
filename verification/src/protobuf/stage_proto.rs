use crate::claims::some;
use crate::execution_plans::stage::{input_num, input_tasks, InputStage, StageExec};
use crate::protobuf::distributed_codec::{
    decode_tasks, decoded_tasks, encode_tasks, lemma_normal_tasks, task_proto_views,
    ExecutionTaskProto, ProtoError, ProtoErrorView,
};
use crate::protocol::grpc::worker::clone_bytes;
use crate::stage::{parsed_url, task_views, uuid_from_slice, ExecutionTask};
use crate::text::{decimal, push_decimal};
use vstd::prelude::*;

verus! {

/// Tells the tasks of a query apart.
#[derive(Debug, PartialEq, Eq, Hash)]
pub struct StageKey {
    pub query_id: String,
    pub stage_id: u64,
    pub task_number: u64,
}

/// The contents of a [StageKey].
#[verifier::ext_equal]
pub struct StageKeyView {
    pub query_id: Seq<char>,
    pub stage_id: u64,
    pub task_number: u64,
}

impl View for StageKey {
    type V = StageKeyView;

    open spec fn view(&self) -> StageKeyView {
        StageKeyView {
            query_id: self.query_id@,
            stage_id: self.stage_id,
            task_number: self.task_number,
        }
    }
}

impl Clone for StageKey {
    fn clone(&self) -> (copy: Self)
        ensures
            copy@ == self@,
    {
        StageKey {
            query_id: self.query_id.clone(),
            stage_id: self.stage_id,
            task_number: self.task_number,
        }
    }
}

impl StageKey {
    /// The key as a text.
    pub fn to_string(&self) -> (text: String)
        ensures
            text@ == "StageKey_QueryID_"@ + self.query_id@ + "_StageID_"@ + decimal(
                self.stage_id as nat,
            ) + "_TaskNumber_"@ + decimal(self.task_number as nat),
    {
        let mut text = String::new();
        text.push_str("StageKey_QueryID_");
        text.push_str(self.query_id.as_str());
        text.push_str("_StageID_");
        push_decimal(&mut text, self.stage_id);
        text.push_str("_TaskNumber_");
        push_decimal(&mut text, self.task_number);
        proof {
            assert(text@ =~= "StageKey_QueryID_"@ + self.query_id@ + "_StageID_"@ + decimal(
                self.stage_id as nat,
            ) + "_TaskNumber_"@ + decimal(self.task_number as nat));
        }
        text
    }
}

/// A stage on the wire. The plan is a message of the query engine.
#[derive(Debug, PartialEq, Eq)]
pub struct StageExecProto<PlanProto> {
    pub query_id: Vec<u8>,
    pub num: u64,
    pub name: String,
    pub plan: Option<PlanProto>,
    pub inputs: Vec<StageInputProto>,
    pub tasks: Vec<ExecutionTaskProto>,
}

/// A stage that another one reads from, on the wire.
#[derive(Debug, PartialEq, Eq)]
pub struct StageInputProto {
    pub num: u64,
    pub tasks: Vec<ExecutionTaskProto>,
    /// The message of the stage itself.
    pub stage: Vec<u8>,
}

/// Whether `result` is what is sent for a stage, where the query engine turns plans into messages
/// with `write_plan` and messages of stages are written down with `write_stage`. The first plan that
/// the engine refuses is the error.
pub open spec fn stage_sent<P, PlanProto, E, F, G>(
    write_plan: F,
    write_stage: G,
    stage: StageExec<P>,
    result: Result<StageExecProto<PlanProto>, E>,
) -> bool where F: Fn(&P) -> Result<PlanProto, E>, G: Fn(&StageExecProto<PlanProto>) -> Vec<u8>
    decreases stage, 0int,
{
    exists|plan: Result<PlanProto, E>| #[trigger]
        call_ensures(write_plan, (&stage.plan,), plan) && match plan {
            Err(e) => result == Err::<StageExecProto<PlanProto>, E>(e),
            Ok(plan) => match result {
                Ok(proto) => {
                    &&& proto.query_id@ == stage.query_id.bytes@
                    &&& proto.num == stage.num as u64
                    &&& proto.name@ == stage.name@
                    &&& proto.plan == Some(plan)
                    &&& task_proto_views(proto.tasks@) == task_views(stage.tasks@)
                    &&& proto.inputs@.len() == stage.inputs@.len()
                    &&& forall|i: int|
                        0 <= i < stage.inputs@.len() ==> input_sent(
                            write_plan,
                            write_stage,
                            #[trigger] stage.inputs@[i],
                            Ok::<StageInputProto, E>(proto.inputs@[i]),
                        )
                },
                Err(e) => exists|i: int|
                    0 <= i < stage.inputs@.len() && input_sent(
                        write_plan,
                        write_stage,
                        #[trigger] stage.inputs@[i],
                        Err::<StageInputProto, E>(e),
                    ) && forall|j: int|
                        0 <= j < i ==> input_is_sent::<P, PlanProto, E, F, G>(
                            write_plan,
                            write_stage,
                            #[trigger] stage.inputs@[j],
                        ),
            },
        }
}

/// Whether `result` is what is sent for a stage that another one reads from. A stage of which there
/// is only a message is passed on as it is.
pub open spec fn input_sent<P, PlanProto, E, F, G>(
    write_plan: F,
    write_stage: G,
    input: InputStage<P>,
    result: Result<StageInputProto, E>,
) -> bool where F: Fn(&P) -> Result<PlanProto, E>, G: Fn(&StageExecProto<PlanProto>) -> Vec<u8>
    decreases input, 0int,
{
    match input {
        InputStage::Encoded { num, tasks, proto: bytes } => result matches Ok(proto) && {
            &&& proto.num == num as u64
            &&& task_proto_views(proto.tasks@) == task_views(tasks@)
            &&& proto.stage@ == bytes@
        },
        InputStage::Decoded(stage) => exists|message: Result<StageExecProto<PlanProto>, E>|
         #[trigger]
            some(message) && stage_sent(write_plan, write_stage, *stage, message) && match message {
                Err(e) => result == Err::<StageInputProto, E>(e),
                Ok(message) => result matches Ok(proto) && {
                    &&& proto.num == stage.num as u64
                    &&& task_proto_views(proto.tasks@) == task_views(stage.tasks@)
                    &&& exists|bytes: Vec<u8>| #[trigger]
                        call_ensures(write_stage, (&message,), bytes) && proto.stage@ == bytes@
                },
            },
    }
}

/// Whether some message is sent for a stage that another one reads from.
pub open spec fn input_is_sent<P, PlanProto, E, F, G>(
    write_plan: F,
    write_stage: G,
    input: InputStage<P>,
) -> bool where F: Fn(&P) -> Result<PlanProto, E>, G: Fn(&StageExecProto<PlanProto>) -> Vec<u8>
    decreases input, 1int,
{
    exists|proto: StageInputProto| #[trigger]
        some(proto) && input_sent(write_plan, write_stage, input, Ok::<StageInputProto, E>(proto))
}

/// Turns a stage, and all the stages below it, into a message.
pub fn proto_from_stage<P, PlanProto, E, F, G>(
    stage: &StageExec<P>,
    write_plan: &F,
    write_stage: &G,
) -> (result: Result<StageExecProto<PlanProto>, E>) where
    F: Fn(&P) -> Result<PlanProto, E>,
    G: Fn(&StageExecProto<PlanProto>) -> Vec<u8>,

    requires
        forall|p: &P| call_requires(*write_plan, (p,)),
        forall|m: &StageExecProto<PlanProto>| call_requires(*write_stage, (m,)),
    ensures
        stage_sent(*write_plan, *write_stage, *stage, result),
    decreases *stage,
{
    let plan = match write_plan(&stage.plan) {
        Err(e) => {
            return Err(e);
        },
        Ok(plan) => plan,
    };
    let mut inputs: Vec<StageInputProto> = Vec::new();
    for i in 0..stage.inputs.len()
        invariant
            forall|p: &P| call_requires(*write_plan, (p,)),
            forall|m: &StageExecProto<PlanProto>| call_requires(*write_stage, (m,)),
            call_ensures(*write_plan, (&stage.plan,), Ok::<PlanProto, E>(plan)),
            inputs@.len() == i,
            forall|j: int|
                0 <= j < i ==> input_sent(
                    *write_plan,
                    *write_stage,
                    #[trigger] stage.inputs@[j],
                    Ok::<StageInputProto, E>(inputs@[j]),
                ),
    {
        proof {
            assert(decreases_to!(*stage => stage.inputs@[i as int]));
        }
        let ghost input = stage.inputs@[i as int];
        match &stage.inputs[i] {
            InputStage::Encoded { num, tasks, proto } => {
                let input_proto = StageInputProto {
                    num: *num as u64,
                    tasks: encode_tasks(tasks),
                    stage: clone_bytes(proto),
                };
                proof {
                    assert(input_sent(
                        *write_plan,
                        *write_stage,
                        input,
                        Ok::<StageInputProto, E>(input_proto),
                    ));
                }
                inputs.push(input_proto);
            },
            InputStage::Decoded(below) => {
                let message = proto_from_stage(below, write_plan, write_stage);
                let ghost outcome = message;
                match message {
                    Err(e) => {
                        proof {
                            assert(some(outcome));
                            assert(input_sent(
                                *write_plan,
                                *write_stage,
                                stage.inputs@[i as int],
                                Err::<StageInputProto, E>(e),
                            ));
                            assert forall|j: int| 0 <= j < i implies input_is_sent::<
                                P,
                                PlanProto,
                                E,
                                F,
                                G,
                            >(*write_plan, *write_stage, #[trigger] stage.inputs@[j]) by {
                                assert(input_sent(
                                    *write_plan,
                                    *write_stage,
                                    stage.inputs@[j],
                                    Ok::<StageInputProto, E>(inputs@[j]),
                                ));
                                assert(some(inputs@[j]));
                            }
                        }
                        return Err(e);
                    },
                    Ok(message) => {
                        let bytes = write_stage(&message);
                        let ghost sent = bytes;
                        let input_proto = StageInputProto {
                            num: below.num as u64,
                            tasks: encode_tasks(&below.tasks),
                            stage: bytes,
                        };
                        proof {
                            assert(some(outcome));
                            assert(call_ensures(*write_stage, (&message,), sent));
                            assert(input_sent(
                                *write_plan,
                                *write_stage,
                                input,
                                Ok::<StageInputProto, E>(input_proto),
                            ));
                        }
                        inputs.push(input_proto);
                    },
                }
            },
        }
    }
    Ok(
        StageExecProto {
            query_id: stage.query_id.to_vec(),
            num: stage.num as u64,
            name: stage.name.clone(),
            plan: Some(plan),
            inputs,
            tasks: encode_tasks(&stage.tasks),
        },
    )
}

/// Writes down the message of a stage that another one reads from. One of which there is only a
/// message is passed on as it is.
pub fn proto_from_input_stage<P, PlanProto, E, F, G>(
    input_stage: &InputStage<P>,
    write_plan: &F,
    write_stage: &G,
) -> (result: Result<Vec<u8>, E>) where
    F: Fn(&P) -> Result<PlanProto, E>,
    G: Fn(&StageExecProto<PlanProto>) -> Vec<u8>,

    requires
        forall|p: &P| call_requires(*write_plan, (p,)),
        forall|m: &StageExecProto<PlanProto>| call_requires(*write_stage, (m,)),
    ensures
        match *input_stage {
            InputStage::Encoded { proto, .. } => result matches Ok(bytes) && bytes@ == proto@,
            InputStage::Decoded(stage) => exists|message: Result<StageExecProto<PlanProto>, E>|
             #[trigger]
                stage_sent(*write_plan, *write_stage, *stage, message) && match message {
                    Err(e) => result == Err::<Vec<u8>, E>(e),
                    Ok(message) => result matches Ok(bytes) && call_ensures(
                        *write_stage,
                        (&message,),
                        bytes,
                    ),
                },
        },
{
    match input_stage {
        InputStage::Encoded { proto, .. } => Ok(clone_bytes(proto)),
        InputStage::Decoded(stage) => match proto_from_stage(stage, write_plan, write_stage) {
            Err(e) => Err(e),
            Ok(message) => Ok(write_stage(&message)),
        },
    }
}

/// Why a message is no stage.
#[derive(Debug, PartialEq, Eq)]
pub enum StageProtoError<E> {
    /// The query engine refuses the plan.
    Engine(E),
    MissingPlan,
    InvalidUrl(String),
    InvalidQueryId,
}

/// The contents of a [StageProtoError].
#[verifier::ext_equal]
pub enum StageProtoErrorView<E> {
    Engine(E),
    MissingPlan,
    InvalidUrl(Seq<char>),
    InvalidQueryId,
}

impl<E> View for StageProtoError<E> {
    type V = StageProtoErrorView<E>;

    open spec fn view(&self) -> StageProtoErrorView<E> {
        match self {
            StageProtoError::Engine(e) => StageProtoErrorView::Engine(*e),
            StageProtoError::MissingPlan => StageProtoErrorView::MissingPlan,
            StageProtoError::InvalidUrl(u) => StageProtoErrorView::InvalidUrl(u@),
            StageProtoError::InvalidQueryId => StageProtoErrorView::InvalidQueryId,
        }
    }
}

impl<E> StageProtoError<E> {
    /// The text of the error, unless it is the query engine's.
    pub fn message(&self) -> (text: Option<String>)
        ensures
            match self@ {
                StageProtoErrorView::Engine(_) => text is None,
                StageProtoErrorView::MissingPlan => text matches Some(t) && t@
                    == "ExecutionStageMsg is missing the plan"@,
                StageProtoErrorView::InvalidUrl(u) => text matches Some(t) && t@
                    == "Invalid URL: "@ + u,
                StageProtoErrorView::InvalidQueryId => text matches Some(t) && t@
                    == "Invalid query_id in ExecutionStageProto"@,
            },
    {
        match self {
            StageProtoError::Engine(_) => None,
            StageProtoError::MissingPlan => Some(
                "ExecutionStageMsg is missing the plan".to_owned(),
            ),
            StageProtoError::InvalidUrl(u) => {
                let mut text = String::new();
                text.push_str("Invalid URL: ");
                text.push_str(u.as_str());
                proof {
                    assert(text@ =~= "Invalid URL: "@ + u@);
                }
                Some(text)
            },
            StageProtoError::InvalidQueryId => Some(
                "Invalid query_id in ExecutionStageProto".to_owned(),
            ),
        }
    }
}

/// The error that a list of tasks gives, if it gives one.
pub open spec fn tasks_error(tasks: Seq<Option<Seq<char>>>) -> Option<Seq<char>> {
    match decoded_tasks(tasks) {
        Err(ProtoErrorView::InvalidUrl(u)) => Some(u),
        _ => None,
    }
}

/// The error of the first stage below that has a task whose worker is no URL, if there is one.
pub open spec fn inputs_error(inputs: Seq<StageInputProto>) -> Option<Seq<char>>
    decreases inputs.len(),
{
    if inputs.len() == 0 {
        None
    } else {
        match inputs_error(inputs.drop_last()) {
            Some(u) => Some(u),
            None => tasks_error(task_proto_views(inputs.last().tasks@)),
        }
    }
}

/// Whether a stage below is what was received for it: its message, unread.
pub open spec fn is_received_input<P>(proto: StageInputProto, input: InputStage<P>) -> bool {
    input matches InputStage::Encoded { num, tasks, proto: bytes } && {
        &&& num == proto.num as usize
        &&& decoded_tasks(task_proto_views(proto.tasks@)) == Ok::<_, ProtoErrorView>(
            task_views(tasks@),
        )
        &&& bytes@ == proto.stage@
    }
}

/// Whether `result` is what a message of a stage is read as, where the query engine reads plans with
/// `parse_plan`. The stages below stay as they came. The first part that is wrong is the error.
pub open spec fn stage_received<P, PlanProto, E, F>(
    parse_plan: F,
    msg: StageExecProto<PlanProto>,
    result: Result<StageExec<P>, StageProtoError<E>>,
) -> bool where F: Fn(&PlanProto) -> Result<P, E> {
    match msg.plan {
        None => stage_refused(result, StageProtoErrorView::MissingPlan),
        Some(message) => exists|plan: Result<P, E>| #[trigger]
            call_ensures(parse_plan, (&message,), plan) && match plan {
                Err(e) => stage_refused(result, StageProtoErrorView::Engine(e)),
                Ok(plan) => match inputs_error(msg.inputs@) {
                    Some(u) => stage_refused(result, StageProtoErrorView::InvalidUrl(u)),
                    None => if msg.query_id@.len() != 16 {
                        stage_refused(result, StageProtoErrorView::InvalidQueryId)
                    } else {
                        match tasks_error(task_proto_views(msg.tasks@)) {
                            Some(u) => stage_refused(result, StageProtoErrorView::InvalidUrl(u)),
                            None => result matches Ok(stage) && {
                                &&& stage.query_id.bytes@ == msg.query_id@
                                &&& stage.num == msg.num as usize
                                &&& stage.name@ == msg.name@
                                &&& stage.plan == plan
                                &&& decoded_tasks(task_proto_views(msg.tasks@)) == Ok::<
                                    _,
                                    ProtoErrorView,
                                >(task_views(stage.tasks@))
                                &&& stage.depth == 0
                                &&& stage.inputs@.len() == msg.inputs@.len()
                                &&& forall|i: int|
                                    0 <= i < msg.inputs@.len() ==> is_received_input(
                                        #[trigger] msg.inputs@[i],
                                        stage.inputs@[i],
                                    )
                            },
                        }
                    },
                },
            },
    }
}

/// Whether a result is the given error.
pub open spec fn stage_refused<P, E>(
    result: Result<StageExec<P>, StageProtoError<E>>,
    error: StageProtoErrorView<E>,
) -> bool {
    result matches Err(e) && e@ == error
}

proof fn lemma_tasks_errors(tasks: Seq<Option<Seq<char>>>)
    ensures
        decoded_tasks(tasks) matches Err(e) ==> e is InvalidUrl,
    decreases tasks.len(),
{
    if tasks.len() > 0 {
        lemma_tasks_errors(tasks.drop_last());
    }
}

fn decode_stage_tasks(tasks: Vec<ExecutionTaskProto>) -> (result: Result<
    Vec<ExecutionTask>,
    String,
>)
    ensures
        match result {
            Ok(r) => decoded_tasks(task_proto_views(tasks@)) == Ok::<_, ProtoErrorView>(
                task_views(r@),
            ),
            Err(u) => tasks_error(task_proto_views(tasks@)) == Some(u@),
        },
{
    proof {
        lemma_tasks_errors(task_proto_views(tasks@));
    }
    match decode_tasks(tasks) {
        Ok(tasks) => Ok(tasks),
        Err(ProtoError::InvalidUrl(u)) => Err(u),
        Err(_) => Err(String::new()),
    }
}

proof fn lemma_inputs_prefix(inputs: Seq<StageInputProto>, n: int)
    requires
        0 <= n <= inputs.len(),
        inputs_error(inputs.take(n)) is Some,
    ensures
        inputs_error(inputs) == inputs_error(inputs.take(n)),
    decreases inputs.len() - n,
{
    if n == inputs.len() {
        assert(inputs.take(n) =~= inputs);
    } else {
        assert(inputs.take(n + 1).drop_last() =~= inputs.take(n));
        lemma_inputs_prefix(inputs, n + 1);
    }
}

fn decode_inputs<P>(protos: Vec<StageInputProto>) -> (result: Result<Vec<InputStage<P>>, String>)
    ensures
        match result {
            Ok(inputs) => inputs_error(protos@) is None && inputs@.len() == protos@.len()
                && forall|i: int|
                0 <= i < protos@.len() ==> is_received_input(#[trigger] protos@[i], inputs@[i]),
            Err(u) => inputs_error(protos@) == Some(u@),
        },
{
    let ghost all = protos@;
    proof {
        assert(all.take(0) =~= Seq::empty());
    }
    let mut inputs: Vec<InputStage<P>> = Vec::new();
    for input in it: protos
        invariant
            it.seq() == all,
            all == protos@,
            inputs@.len() == it.index(),
            inputs_error(all.take(it.index() as int)) is None,
            forall|j: int|
                0 <= j < it.index() ==> is_received_input(#[trigger] all[j], inputs@[j]),
    {
        let ghost k = it.index() as int;
        proof {
            assert(all.take(k + 1).drop_last() =~= all.take(k));
            assert(all.take(k + 1).last() == input);
        }
        let num: usize = input.num as usize;
        match decode_stage_tasks(input.tasks) {
            Err(u) => {
                proof {
                    lemma_inputs_prefix(all, k + 1);
                }
                return Err(u);
            },
            Ok(tasks) => {
                inputs.push(InputStage::Encoded { num, tasks, proto: input.stage });
            },
        }
    }
    proof {
        assert(all.take(all.len() as int) =~= all);
    }
    Ok(inputs)
}

/// Reads a stage from its message. The stages below it stay unread.
pub fn stage_from_proto<P, PlanProto, E, F>(
    msg: StageExecProto<PlanProto>,
    parse_plan: &F,
) -> (result: Result<StageExec<P>, StageProtoError<E>>) where
    F: Fn(&PlanProto) -> Result<P, E>,

    requires
        forall|m: &PlanProto| call_requires(*parse_plan, (m,)),
    ensures
        stage_received(*parse_plan, msg, result),
{
    let plan = match &msg.plan {
        None => {
            return Err(StageProtoError::MissingPlan);
        },
        Some(message) => match parse_plan(message) {
            Err(e) => {
                return Err(StageProtoError::Engine(e));
            },
            Ok(plan) => plan,
        },
    };
    proof {
        assert(call_ensures(*parse_plan, (&msg.plan->0,), Ok::<P, E>(plan)));
    }
    let inputs = match decode_inputs(msg.inputs) {
        Err(u) => {
            return Err(StageProtoError::InvalidUrl(u));
        },
        Ok(inputs) => inputs,
    };
    let query_id = match uuid_from_slice(&msg.query_id) {
        None => {
            return Err(StageProtoError::InvalidQueryId);
        },
        Some(id) => id,
    };
    match decode_stage_tasks(msg.tasks) {
        Err(u) => Err(StageProtoError::InvalidUrl(u)),
        Ok(tasks) => Ok(
            StageExec {
                query_id,
                num: msg.num as usize,
                name: msg.name,
                plan,
                inputs,
                tasks,
                depth: 0,
            },
        ),
    }
}

/// Whether all the workers are in normal form.
pub open spec fn normal_workers(tasks: Seq<Option<Seq<char>>>) -> bool {
    forall|i: int|
        0 <= i < tasks.len() ==> (#[trigger] tasks[i] matches Some(url) ==> parsed_url(url) == Some(
            url,
        ))
}

proof fn lemma_no_inputs_error(inputs: Seq<StageInputProto>)
    requires
        forall|i: int|
            0 <= i < inputs.len() ==> normal_workers(
                task_proto_views((#[trigger] inputs[i]).tasks@),
            ),
    ensures
        inputs_error(inputs) is None,
    decreases inputs.len(),
{
    if inputs.len() > 0 {
        let before = inputs.drop_last();
        assert forall|i: int| 0 <= i < before.len() implies normal_workers(
            task_proto_views((#[trigger] before[i]).tasks@),
        ) by {
            assert(before[i] == inputs[i]);
        }
        lemma_no_inputs_error(before);
        assert(inputs.last() == inputs[inputs.len() - 1]);
        lemma_normal_tasks(task_proto_views(inputs.last().tasks@));
    }
}

/// A stage arrives as it was sent, where the query engine reads back the plan that it wrote and the
/// workers are in normal form: with its identity, its name, its plan, its tasks, and the number and the tasks
/// of each stage below.
pub proof fn stage_messages_survive_the_wire<P, PlanProto, E, F, G, H>(
    write_plan: F,
    write_stage: G,
    parse_plan: H,
    stage: StageExec<P>,
    sent: Result<StageExecProto<PlanProto>, E>,
    received: Result<StageExec<P>, StageProtoError<E>>,
) where
    F: Fn(&P) -> Result<PlanProto, E>,
    G: Fn(&StageExecProto<PlanProto>) -> Vec<u8>,
    H: Fn(&PlanProto) -> Result<P, E>,

    requires
        sent is Ok,
        stage_sent(write_plan, write_stage, stage, sent),
        stage_received(parse_plan, sent->Ok_0, received),
        forall|m: PlanProto, p: Result<P, E>|
            call_ensures(write_plan, (&stage.plan,), Ok::<PlanProto, E>(m)) && #[trigger]
                call_ensures(parse_plan, (&m,), p) ==> p == Ok::<P, E>(stage.plan),
        normal_workers(task_views(stage.tasks@)),
        forall|i: int|
            0 <= i < stage.inputs@.len() ==> normal_workers(
                task_views(input_tasks(#[trigger] stage.inputs@[i])),
            ),
    ensures
        received matches Ok(arrived) && {
            &&& arrived.query_id.bytes@ == stage.query_id.bytes@
            &&& arrived.num == stage.num
            &&& arrived.name@ == stage.name@
            &&& arrived.plan == stage.plan
            &&& task_views(arrived.tasks@) == task_views(stage.tasks@)
            &&& arrived.inputs@.len() == stage.inputs@.len()
            &&& forall|i: int|
                #![trigger arrived.inputs@[i]]
                0 <= i < stage.inputs@.len() ==> arrived.inputs@[i] is Encoded && input_num(
                    arrived.inputs@[i],
                ) == input_num(stage.inputs@[i]) && task_views(input_tasks(arrived.inputs@[i]))
                    == task_views(input_tasks(stage.inputs@[i]))
        },
{
    let msg = sent->Ok_0;
    assert forall|i: int| 0 <= i < msg.inputs@.len() implies normal_workers(
        task_proto_views((#[trigger] msg.inputs@[i]).tasks@),
    ) && msg.inputs@[i].num == input_num(stage.inputs@[i]) as u64 && task_proto_views(
        msg.inputs@[i].tasks@,
    ) == task_views(input_tasks(stage.inputs@[i])) by {
        let input = stage.inputs@[i];
        assert(input_sent(write_plan, write_stage, input, Ok::<StageInputProto, E>(msg.inputs@[i])));
    }
    lemma_no_inputs_error(msg.inputs@);
    lemma_normal_tasks(task_proto_views(msg.tasks@));
    assert(msg.query_id@.len() == 16);
    let arrived = received->Ok_0;
    assert forall|i: int|
        #![trigger arrived.inputs@[i]]
        0 <= i < stage.inputs@.len() implies arrived.inputs@[i] is Encoded && input_num(
        arrived.inputs@[i],
    ) == input_num(stage.inputs@[i]) && task_views(input_tasks(arrived.inputs@[i])) == task_views(
        input_tasks(stage.inputs@[i]),
    ) by {
        assert(is_received_input(msg.inputs@[i], arrived.inputs@[i]));
        lemma_normal_tasks(task_proto_views(msg.inputs@[i].tasks@));
    }
}

/// The first stage below with a worker that is no URL gives the error, and without such a stage there is
/// none.
pub proof fn the_first_wrong_stage_is_told(inputs: Seq<StageInputProto>, i: int)
    requires
        0 <= i <= inputs.len(),
        forall|j: int|
            0 <= j < i ==> tasks_error(task_proto_views((#[trigger] inputs[j]).tasks@)) is None,
    ensures
        i < inputs.len() ==> (tasks_error(task_proto_views(inputs[i].tasks@)) is Some
            ==> inputs_error(inputs) == tasks_error(task_proto_views(inputs[i].tasks@))),
        i == inputs.len() ==> inputs_error(inputs) is None,
    decreases inputs.len(),
{
    if inputs.len() > 0 {
        let front = inputs.drop_last();
        assert forall|j: int| 0 <= j < i && j < front.len() implies tasks_error(
            task_proto_views((#[trigger] front[j]).tasks@),
        ) is None by {
            assert(tasks_error(task_proto_views(inputs[j].tasks@)) is None);
        }
        if i < inputs.len() {
            the_first_wrong_stage_is_told(front, i);
        } else {
            assert(tasks_error(task_proto_views(inputs[i - 1].tasks@)) is None);
            the_first_wrong_stage_is_told(front, i - 1);
        }
    }
}

} // verus!
