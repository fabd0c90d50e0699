use datafusion_distributed::protobuf::errors::datafusion_error::{
    DataFusionError, DataFusionErrorProto, DistributedDataFusionGenericError, ForeignError,
    ParserError,
};

fn foreign(text: &str) -> ForeignError {
    ForeignError { encoded: text.as_bytes().to_vec() }
}

fn internal(text: &str) -> DataFusionError {
    DataFusionError::Internal(text.to_string())
}

#[test]
fn test_datafusion_error_roundtrip() {
    let test_cases = vec![
        DataFusionError::ArrowError(foreign("compute")),
        DataFusionError::ParquetError(foreign("parquet error")),
        DataFusionError::ObjectStore(foreign("test/path")),
        DataFusionError::IoError(foreign("permission denied")),
        DataFusionError::SQL(
            ParserError::ParserError("sql parse error".to_string()),
            Some("sql backtrace".to_string()),
        ),
        DataFusionError::NotImplemented("not implemented".to_string()),
        internal("internal error"),
        DataFusionError::Plan("plan error".to_string()),
        DataFusionError::Configuration("config error".to_string()),
        DataFusionError::SchemaError(foreign("test_field")),
        DataFusionError::Execution("execution error".to_string()),
        DataFusionError::ResourcesExhausted("resources exhausted".to_string()),
        DataFusionError::External("external".to_string()),
        DataFusionError::Context("context message".to_string(), Box::new(internal("nested"))),
        DataFusionError::Substrait("substrait error".to_string()),
        DataFusionError::Collection(vec![internal("error 1"), internal("error 2")]),
        DataFusionError::Shared(Box::new(internal("shared error"))),
    ];

    for original_error in test_cases {
        let proto = DataFusionErrorProto::from_datafusion_error(&original_error);
        let recovered_error = proto.to_datafusion_err();

        assert_eq!(format!("{original_error:?}"), format!("{recovered_error:?}"));
    }
}

#[test]
fn test_malformed_protobuf_message() {
    let malformed_proto = DataFusionErrorProto { inner: None };
    let recovered_error = malformed_proto.to_datafusion_err();
    assert!(matches!(recovered_error, DataFusionError::Internal(_)));
}

#[test]
fn test_nested_datafusion_errors() {
    let nested_error = DataFusionError::Context(
        "outer context".to_string(),
        Box::new(DataFusionError::Context(
            "inner context".to_string(),
            Box::new(internal("deepest error")),
        )),
    );

    let proto = DataFusionErrorProto::from_datafusion_error(&nested_error);
    let recovered_error = proto.to_datafusion_err();

    assert_eq!(nested_error, recovered_error);
}

#[test]
fn test_collection_errors() {
    let collection_error = DataFusionError::Collection(vec![
        internal("error 1"),
        DataFusionError::Plan("error 2".to_string()),
        DataFusionError::Execution("error 3".to_string()),
    ]);

    let proto = DataFusionErrorProto::from_datafusion_error(&collection_error);
    let recovered_error = proto.to_datafusion_err();

    assert_eq!(collection_error, recovered_error);
}

#[test]
fn test_sql_error_with_backtrace() {
    let sql_error = DataFusionError::SQL(
        ParserError::ParserError("syntax error".to_string()),
        Some("test backtrace".to_string()),
    );

    let proto = DataFusionErrorProto::from_datafusion_error(&sql_error);
    let recovered_error = proto.to_datafusion_err();

    if let DataFusionError::SQL(_, backtrace) = recovered_error {
        assert_eq!(backtrace, Some("test backtrace".to_string()));
    } else {
        panic!("Expected SQL error");
    }
}

#[test]
fn test_distributed_generic_error() {
    let generic_error = DistributedDataFusionGenericError {
        message: "test message".to_string(),
    };

    assert_eq!(generic_error.to_string(), "test message");
    assert!(generic_error.source().is_none());
}
