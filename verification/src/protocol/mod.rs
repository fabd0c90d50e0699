pub mod grpc;
