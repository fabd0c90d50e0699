use datafusion_distributed::distributed_planner::plan::Partitioning;
use datafusion_distributed::execution_plans::children_isolator_union::{
    ChildrenIsolatorUnionExec, UnionError,
};
use datafusion_distributed::execution_plans::partition_isolator::PartitionIsolatorExec;
use datafusion_distributed::protobuf::distributed_codec::{
    BroadcastExec, CodecError, DistributedCodec, DistributedExecNode, DistributedExecProto,
    DistributedNode, ExecutionTaskProto, InputPlan, NetworkExec, NetworkExecProto, NetworkKind,
    PartitionIsolatorExecProto, ProtoError, StageProto,
};
use datafusion_distributed::stage::{ExecutionTask, QueryId, Stage};

type Schema = Vec<String>;
type Node = DistributedNode<Schema, Partitioning, &'static str>;
type Proto = DistributedExecProto<Schema, (Partitioning, Schema)>;

fn encode(node: &Node) -> Result<Proto, CodecError<String>> {
    let schema = match node {
        DistributedNode::Network(exec) => exec.schema.clone(),
        _ => vec![],
    };
    DistributedCodec.try_encode(
        node,
        |s: &Schema| Ok(s.clone()),
        |p: &Partitioning| Ok((*p, schema.clone())),
    )
}

fn decode(proto: Proto, inputs: Vec<InputPlan<&'static str>>) -> Result<Node, CodecError<String>> {
    DistributedCodec.try_decode(
        proto,
        inputs,
        |s: &Schema| Ok(s.clone()),
        |p: &Option<(Partitioning, Schema)>, schema: &Schema| match p {
            Some((p, known)) if known == schema => Ok(Some(*p)),
            Some(_) => Err("another schema".to_string()),
            None => Ok(None),
        },
        unite,
    )
}

fn unite(inputs: &Vec<InputPlan<&'static str>>) -> Result<(), String> {
    if inputs.is_empty() {
        return Err("UnionExec requires at least one input".to_string());
    }
    Ok(())
}

fn dummy_stage() -> Stage<&'static str> {
    Stage { query_id: QueryId { bytes: [0; 16] }, num: 0, plan: None, tasks: vec![] }
}

fn dummy_stage_with_plan() -> Stage<&'static str> {
    Stage { query_id: QueryId { bytes: [0; 16] }, num: 0, plan: Some("EmptyExec"), tasks: vec![] }
}

fn schema_i32(name: &str) -> Schema {
    vec![format!("{name}: Int32")]
}

fn network(
    kind: NetworkKind,
    partitioning: Partitioning,
    schema: Schema,
    stage: Stage<&'static str>,
) -> Node {
    DistributedNode::Network(NetworkExec::new(kind, partitioning, schema, stage))
}

fn repr(node: &Node) -> String {
    format!("{node:?}")
}

fn assert_roundtrip(node: Node, inputs: Vec<InputPlan<&'static str>>) {
    let decoded = decode(encode(&node).unwrap(), inputs).unwrap();
    assert_eq!(repr(&node), repr(&decoded));
}

fn input(plan: &'static str, partitions: usize) -> InputPlan<&'static str> {
    InputPlan { plan, partitions }
}

#[test]
fn test_roundtrip_single_flight() {
    assert_roundtrip(
        network(NetworkKind::Shuffle, Partitioning::Hash(4), schema_i32("a"), dummy_stage()),
        vec![],
    );
}

#[test]
fn test_roundtrip_isolator_flight() {
    assert_roundtrip(
        DistributedNode::PartitionIsolator(PartitionIsolatorExec::new(1, 1)),
        vec![input("NetworkShuffleExec", 1)],
    );
}

#[test]
fn test_roundtrip_isolator_union() {
    assert_roundtrip(
        DistributedNode::PartitionIsolator(PartitionIsolatorExec::new(4, 1)),
        vec![input("UnionExec", 4)],
    );
}

#[test]
fn test_roundtrip_isolator_sort_flight() {
    assert_roundtrip(
        DistributedNode::PartitionIsolator(PartitionIsolatorExec::new(1, 1)),
        vec![input("SortExec", 1)],
    );
}

#[test]
fn test_roundtrip_single_flight_coalesce() {
    assert_roundtrip(
        network(
            NetworkKind::Coalesce,
            Partitioning::RoundRobinBatch(3),
            schema_i32("e"),
            dummy_stage(),
        ),
        vec![],
    );
}

#[test]
fn test_roundtrip_single_flight_with_plan() {
    assert_roundtrip(
        network(
            NetworkKind::Shuffle,
            Partitioning::Hash(4),
            schema_i32("a"),
            dummy_stage_with_plan(),
        ),
        vec![input("EmptyExec", 1)],
    );
}

#[test]
fn test_roundtrip_single_flight_coalesce_with_plan() {
    assert_roundtrip(
        network(
            NetworkKind::Coalesce,
            Partitioning::RoundRobinBatch(3),
            schema_i32("e"),
            dummy_stage_with_plan(),
        ),
        vec![input("EmptyExec", 1)],
    );
}

#[test]
fn test_roundtrip_isolator_flight_coalesce() {
    assert_roundtrip(
        DistributedNode::PartitionIsolator(PartitionIsolatorExec::new(1, 1)),
        vec![input("NetworkCoalesceExec", 1)],
    );
}

#[test]
fn test_roundtrip_isolator_union_coalesce() {
    assert_roundtrip(
        DistributedNode::PartitionIsolator(PartitionIsolatorExec::new(4, 3)),
        vec![input("UnionExec", 4)],
    );
}

#[test]
fn test_roundtrip_children_isolator_union() {
    let inputs = vec![input("left", 2), input("right", 2)];
    let union = ChildrenIsolatorUnionExec::from_children_and_task_counts(
        &inputs,
        vec![2, 2],
        4,
        unite,
    )
    .unwrap();
    assert_roundtrip(DistributedNode::ChildrenIsolatorUnion(union), inputs);
}

#[test]
fn unions_that_the_engine_refuses_are_not_received() {
    let inputs = vec![input("left", 2), input("right", 2)];
    let union = ChildrenIsolatorUnionExec::from_children_and_task_counts(
        &inputs,
        vec![1, 1],
        2,
        unite,
    )
    .unwrap();
    let message = encode(&DistributedNode::ChildrenIsolatorUnion(union)).unwrap();
    match decode(message, vec![]) {
        Err(CodecError::Engine(e)) => assert_eq!(e, "UnionExec requires at least one input"),
        other => panic!("{other:?}"),
    }
    let refused = ChildrenIsolatorUnionExec::from_children_and_task_counts(
        &inputs,
        vec![1, 1],
        2,
        |_: &Vec<InputPlan<&'static str>>| Err("schemas differ".to_string()),
    );
    assert_eq!(refused.unwrap_err(), UnionError::Engine("schemas differ".to_string()));
}

#[test]
fn a_broadcast_survives() {
    assert_roundtrip(
        DistributedNode::Broadcast(BroadcastExec { input_partitions: 5, consumer_task_count: 3 }),
        vec![input("DataSourceExec", 5)],
    );
    assert_roundtrip(
        network(
            NetworkKind::Broadcast,
            Partitioning::UnknownPartitioning(6),
            schema_i32("x"),
            Stage {
                query_id: QueryId { bytes: [7; 16] },
                num: 3,
                plan: None,
                tasks: vec![
                    ExecutionTask { url: Some("http://localhost:8080/".to_string()) },
                    ExecutionTask { url: None },
                ],
            },
        ),
        vec![],
    );
}

fn stage_message(url: Option<&str>, id_bytes: usize) -> StageProto {
    StageProto {
        query_id: vec![1; id_bytes],
        num: 2,
        tasks: vec![ExecutionTaskProto { url_str: url.map(|u| u.to_string()) }],
    }
}

fn shuffle_message(stage: Option<StageProto>) -> Proto {
    DistributedExecProto {
        node: Some(DistributedExecNode::NetworkHashShuffle(NetworkExecProto {
            schema: Some(schema_i32("a")),
            partitioning: Some((Partitioning::Hash(2), schema_i32("a"))),
            input_stage: stage,
        })),
    }
}

fn refused(proto: Proto, inputs: Vec<InputPlan<&'static str>>) -> ProtoError {
    match decode(proto, inputs) {
        Err(CodecError::Proto(e)) => e,
        other => panic!("{other:?}"),
    }
}

#[test]
fn urls_are_read_in_their_normal_form() {
    let node = decode(shuffle_message(Some(stage_message(Some("HTTP://Host:80"), 16))), vec![]);
    match node.unwrap() {
        DistributedNode::Network(exec) => {
            assert_eq!(exec.input_stage.tasks[0].url, Some("http://host/".to_string()));
            assert_eq!(exec.input_stage.query_id.to_vec(), vec![1; 16]);
            assert_eq!(exec.input_stage.num, 2);
        }
        other => panic!("{other:?}"),
    }
}

#[test]
fn messages_that_cannot_be_read_are_errors() {
    assert!(matches!(
        refused(DistributedExecProto { node: None }, vec![]),
        ProtoError::MissingNode
    ));
    assert!(matches!(refused(shuffle_message(None), vec![]), ProtoError::EmptyStage));
    assert!(matches!(
        refused(shuffle_message(Some(stage_message(None, 15))), vec![]),
        ProtoError::InvalidQueryId
    ));
    match refused(shuffle_message(Some(stage_message(Some("no url"), 16))), vec![]) {
        ProtoError::InvalidUrl(url) => assert_eq!(url, "no url"),
        other => panic!("{other:?}"),
    }
    let isolator = || DistributedExecProto {
        node: Some(DistributedExecNode::PartitionIsolator(PartitionIsolatorExecProto {
            n_tasks: 2,
        })),
    };
    assert!(matches!(refused(isolator(), vec![]), ProtoError::PartitionIsolatorChildren(0)));
    match encode(&DistributedNode::Other { name: "SortExec".to_string() }) {
        Err(CodecError::Proto(e)) => {
            assert!(e.message().contains("SortExec"));
        }
        other => panic!("{other:?}"),
    }
}
