pub mod distributed_codec;
pub mod errors;
pub mod stage_proto;
