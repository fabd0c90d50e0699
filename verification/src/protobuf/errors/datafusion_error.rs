use crate::protocol::grpc::worker::clone_bytes;
use crate::text::{clone_text, text_view};
use vstd::prelude::*;

verus! {

/// An error of one of the libraries below the query engine, in the form in which it is sent.
#[derive(Debug, PartialEq, Eq)]
pub struct ForeignError {
    pub encoded: Vec<u8>,
}

impl Clone for ForeignError {
    fn clone(&self) -> (copy: Self)
        ensures
            copy.encoded@ == self.encoded@,
    {
        ForeignError { encoded: clone_bytes(&self.encoded) }
    }
}

/// An error in the text of a query.
#[derive(Debug, PartialEq, Eq)]
pub enum ParserError {
    TokenizerError(String),
    ParserError(String),
    RecursionLimitExceeded,
}

/// The contents of a [ParserError].
#[verifier::ext_equal]
pub enum ParserErrorView {
    TokenizerError(Seq<char>),
    ParserError(Seq<char>),
    RecursionLimitExceeded,
}

impl View for ParserError {
    type V = ParserErrorView;

    open spec fn view(&self) -> ParserErrorView {
        match self {
            ParserError::TokenizerError(m) => ParserErrorView::TokenizerError(m@),
            ParserError::ParserError(m) => ParserErrorView::ParserError(m@),
            ParserError::RecursionLimitExceeded => ParserErrorView::RecursionLimitExceeded,
        }
    }
}

impl Clone for ParserError {
    fn clone(&self) -> (copy: Self)
        ensures
            copy@ == self@,
    {
        match self {
            ParserError::TokenizerError(m) => ParserError::TokenizerError(m.clone()),
            ParserError::ParserError(m) => ParserError::ParserError(m.clone()),
            ParserError::RecursionLimitExceeded => ParserError::RecursionLimitExceeded,
        }
    }
}

/// An error of the query engine.
#[derive(Debug, PartialEq, Eq)]
pub enum DataFusionError {
    ArrowError(ForeignError),
    ParquetError(ForeignError),
    ObjectStore(ForeignError),
    IoError(ForeignError),
    SchemaError(ForeignError),
    /// An error in the text of a query, and where it was noticed.
    SQL(ParserError, Option<String>),
    NotImplemented(String),
    Internal(String),
    Plan(String),
    Configuration(String),
    Execution(String),
    ExecutionJoin(String),
    ResourcesExhausted(String),
    External(String),
    Substrait(String),
    Ffi(String),
    Avro(String),
    /// Another error, and what was being done when it occurred.
    Context(String, Box<DataFusionError>),
    /// Another error, with hints for the user that are not sent.
    Diagnostic(Box<DataFusionError>),
    Collection(Vec<DataFusionError>),
    Shared(Box<DataFusionError>),
}

/// The contents of a [DataFusionError].
#[verifier::ext_equal]
pub enum ErrorView {
    ArrowError(Seq<u8>),
    ParquetError(Seq<u8>),
    ObjectStore(Seq<u8>),
    IoError(Seq<u8>),
    SchemaError(Seq<u8>),
    SQL(ParserErrorView, Option<Seq<char>>),
    NotImplemented(Seq<char>),
    Internal(Seq<char>),
    Plan(Seq<char>),
    Configuration(Seq<char>),
    Execution(Seq<char>),
    ExecutionJoin(Seq<char>),
    ResourcesExhausted(Seq<char>),
    External(Seq<char>),
    Substrait(Seq<char>),
    Ffi(Seq<char>),
    Avro(Seq<char>),
    Context(Seq<char>, Box<ErrorView>),
    Diagnostic(Box<ErrorView>),
    Collection(Seq<ErrorView>),
    Shared(Box<ErrorView>),
}

pub open spec fn error_view(error: DataFusionError) -> ErrorView
    decreases error,
{
    match error {
        DataFusionError::ArrowError(e) => ErrorView::ArrowError(e.encoded@),
        DataFusionError::ParquetError(e) => ErrorView::ParquetError(e.encoded@),
        DataFusionError::ObjectStore(e) => ErrorView::ObjectStore(e.encoded@),
        DataFusionError::IoError(e) => ErrorView::IoError(e.encoded@),
        DataFusionError::SchemaError(e) => ErrorView::SchemaError(e.encoded@),
        DataFusionError::SQL(e, backtrace) => ErrorView::SQL(e@, text_view(backtrace)),
        DataFusionError::NotImplemented(m) => ErrorView::NotImplemented(m@),
        DataFusionError::Internal(m) => ErrorView::Internal(m@),
        DataFusionError::Plan(m) => ErrorView::Plan(m@),
        DataFusionError::Configuration(m) => ErrorView::Configuration(m@),
        DataFusionError::Execution(m) => ErrorView::Execution(m@),
        DataFusionError::ExecutionJoin(m) => ErrorView::ExecutionJoin(m@),
        DataFusionError::ResourcesExhausted(m) => ErrorView::ResourcesExhausted(m@),
        DataFusionError::External(m) => ErrorView::External(m@),
        DataFusionError::Substrait(m) => ErrorView::Substrait(m@),
        DataFusionError::Ffi(m) => ErrorView::Ffi(m@),
        DataFusionError::Avro(m) => ErrorView::Avro(m@),
        DataFusionError::Context(ctx, e) => ErrorView::Context(ctx@, Box::new(error_view(*e))),
        DataFusionError::Diagnostic(e) => ErrorView::Diagnostic(Box::new(error_view(*e))),
        DataFusionError::Collection(errors) => ErrorView::Collection(
            Seq::new(
                errors@.len(),
                |i: int|
                    if 0 <= i < errors@.len() {
                        error_view(errors@[i])
                    } else {
                        arbitrary()
                    },
            ),
        ),
        DataFusionError::Shared(e) => ErrorView::Shared(Box::new(error_view(*e))),
    }
}

impl View for DataFusionError {
    type V = ErrorView;

    open spec fn view(&self) -> ErrorView {
        error_view(*self)
    }
}

/// An error in the text of a query, as it is sent over the wire.
#[derive(Debug, PartialEq, Eq)]
pub struct DataFusionSqlErrorProto {
    pub err: Option<ParserError>,
    pub backtrace: Option<String>,
}

/// An error with its context, as it is sent over the wire.
#[derive(Debug, PartialEq, Eq)]
pub struct DataFusionContextErrorProto {
    pub err: Option<Box<DataFusionErrorProto>>,
    pub ctx: String,
}

/// Several errors, as they are sent over the wire.
#[derive(Debug, PartialEq, Eq)]
pub struct DataFusionCollectionErrorProto {
    pub errs: Vec<Box<DataFusionErrorProto>>,
}

/// An error as it is sent over the wire. A message that was received may be empty.
#[derive(Debug, PartialEq, Eq)]
pub struct DataFusionErrorProto {
    pub inner: Option<DataFusionErrorInnerProto>,
}

/// What a [DataFusionErrorProto] holds.
#[derive(Debug, PartialEq, Eq)]
pub enum DataFusionErrorInnerProto {
    ArrowError(ForeignError),
    ParquetError(ForeignError),
    ObjectStoreError(ForeignError),
    IoError(ForeignError),
    Schema(ForeignError),
    SQL(DataFusionSqlErrorProto),
    NotImplemented(String),
    Internal(String),
    Plan(String),
    Configuration(String),
    Execution(String),
    ExecutionJoin(String),
    ResourceExhausted(String),
    External(String),
    Substrait(String),
    Context(DataFusionContextErrorProto),
    Diagnostic(Box<DataFusionErrorProto>),
    Collection(DataFusionCollectionErrorProto),
    Shared(Box<DataFusionErrorProto>),
}

/// The contents of a [DataFusionErrorProto].
#[verifier::ext_equal]
pub enum ErrorProtoView {
    Empty,
    ArrowError(Seq<u8>),
    ParquetError(Seq<u8>),
    ObjectStoreError(Seq<u8>),
    IoError(Seq<u8>),
    Schema(Seq<u8>),
    SQL(Option<ParserErrorView>, Option<Seq<char>>),
    NotImplemented(Seq<char>),
    Internal(Seq<char>),
    Plan(Seq<char>),
    Configuration(Seq<char>),
    Execution(Seq<char>),
    ExecutionJoin(Seq<char>),
    ResourceExhausted(Seq<char>),
    External(Seq<char>),
    Substrait(Seq<char>),
    Context(Seq<char>, Option<Box<ErrorProtoView>>),
    Diagnostic(Box<ErrorProtoView>),
    Collection(Seq<ErrorProtoView>),
    Shared(Box<ErrorProtoView>),
}

pub open spec fn proto_view(proto: DataFusionErrorProto) -> ErrorProtoView
    decreases proto,
{
    match proto.inner {
        None => ErrorProtoView::Empty,
        Some(inner) => match inner {
            DataFusionErrorInnerProto::ArrowError(e) => ErrorProtoView::ArrowError(e.encoded@),
            DataFusionErrorInnerProto::ParquetError(e) => ErrorProtoView::ParquetError(e.encoded@),
            DataFusionErrorInnerProto::ObjectStoreError(e) => ErrorProtoView::ObjectStoreError(e.encoded@),
            DataFusionErrorInnerProto::IoError(e) => ErrorProtoView::IoError(e.encoded@),
            DataFusionErrorInnerProto::Schema(e) => ErrorProtoView::Schema(e.encoded@),
            DataFusionErrorInnerProto::SQL(e) => ErrorProtoView::SQL(
                match e.err {
                    Some(err) => Some(err@),
                    None => None,
                },
                text_view(e.backtrace),
            ),
            DataFusionErrorInnerProto::NotImplemented(m) => ErrorProtoView::NotImplemented(m@),
            DataFusionErrorInnerProto::Internal(m) => ErrorProtoView::Internal(m@),
            DataFusionErrorInnerProto::Plan(m) => ErrorProtoView::Plan(m@),
            DataFusionErrorInnerProto::Configuration(m) => ErrorProtoView::Configuration(m@),
            DataFusionErrorInnerProto::Execution(m) => ErrorProtoView::Execution(m@),
            DataFusionErrorInnerProto::ExecutionJoin(m) => ErrorProtoView::ExecutionJoin(m@),
            DataFusionErrorInnerProto::ResourceExhausted(m) => ErrorProtoView::ResourceExhausted(m@),
            DataFusionErrorInnerProto::External(m) => ErrorProtoView::External(m@),
            DataFusionErrorInnerProto::Substrait(m) => ErrorProtoView::Substrait(m@),
            DataFusionErrorInnerProto::Context(e) => ErrorProtoView::Context(
                e.ctx@,
                match e.err {
                    Some(err) => Some(Box::new(proto_view(*err))),
                    None => None,
                },
            ),
            DataFusionErrorInnerProto::Diagnostic(e) => ErrorProtoView::Diagnostic(
                Box::new(proto_view(*e)),
            ),
            DataFusionErrorInnerProto::Collection(e) => ErrorProtoView::Collection(
                Seq::new(
                    e.errs@.len(),
                    |i: int|
                        if 0 <= i < e.errs@.len() {
                            proto_view(*e.errs@[i])
                        } else {
                            arbitrary()
                        },
                ),
            ),
            DataFusionErrorInnerProto::Shared(e) => ErrorProtoView::Shared(
                Box::new(proto_view(*e)),
            ),
        },
    }
}

impl View for DataFusionErrorProto {
    type V = ErrorProtoView;

    open spec fn view(&self) -> ErrorProtoView {
        proto_view(*self)
    }
}

/// What stands for an error on the wire. Hints for the user are not sent, and errors of kinds that
/// have no form of their own are sent as external ones.
pub open spec fn error_to_proto(error: ErrorView) -> ErrorProtoView
    decreases error,
{
    match error {
        ErrorView::ArrowError(e) => ErrorProtoView::ArrowError(e),
        ErrorView::ParquetError(e) => ErrorProtoView::ParquetError(e),
        ErrorView::ObjectStore(e) => ErrorProtoView::ObjectStoreError(e),
        ErrorView::IoError(e) => ErrorProtoView::IoError(e),
        ErrorView::SchemaError(e) => ErrorProtoView::Schema(e),
        ErrorView::SQL(e, backtrace) => ErrorProtoView::SQL(Some(e), backtrace),
        ErrorView::NotImplemented(m) => ErrorProtoView::NotImplemented(m),
        ErrorView::Internal(m) => ErrorProtoView::Internal(m),
        ErrorView::Plan(m) => ErrorProtoView::Plan(m),
        ErrorView::Configuration(m) => ErrorProtoView::Configuration(m),
        ErrorView::Execution(m) => ErrorProtoView::Execution(m),
        ErrorView::ExecutionJoin(m) => ErrorProtoView::ExecutionJoin(m),
        ErrorView::ResourcesExhausted(m) => ErrorProtoView::ResourceExhausted(m),
        ErrorView::External(m) => ErrorProtoView::External(m),
        ErrorView::Substrait(m) => ErrorProtoView::Substrait(m),
        ErrorView::Ffi(m) => ErrorProtoView::External(m),
        ErrorView::Avro(m) => ErrorProtoView::External(m),
        ErrorView::Context(ctx, e) => ErrorProtoView::Context(
            ctx,
            Some(Box::new(error_to_proto(*e))),
        ),
        ErrorView::Diagnostic(e) => ErrorProtoView::Diagnostic(Box::new(error_to_proto(*e))),
        ErrorView::Collection(errors) => ErrorProtoView::Collection(
            Seq::new(
                errors.len(),
                |i: int|
                    if 0 <= i < errors.len() {
                        error_to_proto(errors[i])
                    } else {
                        arbitrary()
                    },
            ),
        ),
        ErrorView::Shared(e) => ErrorProtoView::Shared(Box::new(error_to_proto(*e))),
    }
}

/// The error that something on the wire stands for. What is missing from a message is replaced by
/// an error that says so. A failed join of tasks cannot be rebuilt and becomes an internal error.
pub open spec fn error_from_proto(proto: ErrorProtoView) -> ErrorView
    decreases proto,
{
    match proto {
        ErrorProtoView::Empty => ErrorView::Internal("DataFusionError proto message is empty"@),
        ErrorProtoView::ArrowError(e) => ErrorView::ArrowError(e),
        ErrorProtoView::ParquetError(e) => ErrorView::ParquetError(e),
        ErrorProtoView::ObjectStoreError(e) => ErrorView::ObjectStore(e),
        ErrorProtoView::IoError(e) => ErrorView::IoError(e),
        ErrorProtoView::Schema(e) => ErrorView::SchemaError(e),
        ErrorProtoView::SQL(e, backtrace) => ErrorView::SQL(
            match e {
                Some(e) => e,
                None => ParserErrorView::ParserError(""@),
            },
            backtrace,
        ),
        ErrorProtoView::NotImplemented(m) => ErrorView::NotImplemented(m),
        ErrorProtoView::Internal(m) => ErrorView::Internal(m),
        ErrorProtoView::Plan(m) => ErrorView::Plan(m),
        ErrorProtoView::Configuration(m) => ErrorView::Configuration(m),
        ErrorProtoView::Execution(m) => ErrorView::Execution(m),
        ErrorProtoView::ExecutionJoin(m) => ErrorView::Internal(m),
        ErrorProtoView::ResourceExhausted(m) => ErrorView::ResourcesExhausted(m),
        ErrorProtoView::External(m) => ErrorView::External(m),
        ErrorProtoView::Substrait(m) => ErrorView::Substrait(m),
        ErrorProtoView::Context(ctx, e) => ErrorView::Context(
            ctx,
            Box::new(
                match e {
                    Some(e) => error_from_proto(*e),
                    None => ErrorView::Internal("Missing DataFusionError protobuf message"@),
                },
            ),
        ),
        ErrorProtoView::Diagnostic(e) => ErrorView::Diagnostic(Box::new(error_from_proto(*e))),
        ErrorProtoView::Collection(errors) => ErrorView::Collection(
            Seq::new(
                errors.len(),
                |i: int|
                    if 0 <= i < errors.len() {
                        error_from_proto(errors[i])
                    } else {
                        arbitrary()
                    },
            ),
        ),
        ErrorProtoView::Shared(e) => ErrorView::Shared(Box::new(error_from_proto(*e))),
    }
}

impl DataFusionErrorProto {
    /// Converts an error to what is sent over the wire.
    pub fn from_datafusion_error(err: &DataFusionError) -> (proto: Self)
        ensures
            proto@ == error_to_proto(err@),
        decreases err,
    {
        let inner = match err {
            DataFusionError::ArrowError(e) => DataFusionErrorInnerProto::ArrowError(e.clone()),
            DataFusionError::ParquetError(e) => DataFusionErrorInnerProto::ParquetError(e.clone()),
            DataFusionError::ObjectStore(e) => DataFusionErrorInnerProto::ObjectStoreError(e.clone()),
            DataFusionError::IoError(e) => DataFusionErrorInnerProto::IoError(e.clone()),
            DataFusionError::SchemaError(e) => DataFusionErrorInnerProto::Schema(e.clone()),
            DataFusionError::SQL(e, backtrace) => DataFusionErrorInnerProto::SQL(
                DataFusionSqlErrorProto {
                    err: Some(e.clone()),
                    backtrace: clone_text(backtrace),
                },
            ),
            DataFusionError::NotImplemented(m) => DataFusionErrorInnerProto::NotImplemented(m.clone()),
            DataFusionError::Internal(m) => DataFusionErrorInnerProto::Internal(m.clone()),
            DataFusionError::Plan(m) => DataFusionErrorInnerProto::Plan(m.clone()),
            DataFusionError::Configuration(m) => DataFusionErrorInnerProto::Configuration(m.clone()),
            DataFusionError::Execution(m) => DataFusionErrorInnerProto::Execution(m.clone()),
            DataFusionError::ExecutionJoin(m) => DataFusionErrorInnerProto::ExecutionJoin(m.clone()),
            DataFusionError::ResourcesExhausted(m) => DataFusionErrorInnerProto::ResourceExhausted(m.clone()),
            DataFusionError::External(m) => DataFusionErrorInnerProto::External(m.clone()),
            DataFusionError::Substrait(m) => DataFusionErrorInnerProto::Substrait(m.clone()),
            DataFusionError::Ffi(m) => DataFusionErrorInnerProto::External(m.clone()),
            DataFusionError::Avro(m) => DataFusionErrorInnerProto::External(m.clone()),
            DataFusionError::Context(ctx, e) => DataFusionErrorInnerProto::Context(
                DataFusionContextErrorProto {
                    ctx: ctx.clone(),
                    err: Some(Box::new(DataFusionErrorProto::from_datafusion_error(&**e))),
                },
            ),
            DataFusionError::Diagnostic(e) => DataFusionErrorInnerProto::Diagnostic(
                Box::new(DataFusionErrorProto::from_datafusion_error(&**e)),
            ),
            DataFusionError::Collection(errors) => {
                let mut errs: Vec<Box<DataFusionErrorProto>> = Vec::new();
                for i in 0..errors.len()
                    invariant
                        err matches DataFusionError::Collection(all) && all == errors,
                        errs@.len() == i,
                        forall|j: int|
                            0 <= j < i ==> proto_view(*(#[trigger] errs@[j])) == error_to_proto(
                                errors@[j]@,
                            ),
                {
                    let proto = DataFusionErrorProto::from_datafusion_error(&errors[i]);
                    errs.push(Box::new(proto));
                }
                DataFusionErrorInnerProto::Collection(DataFusionCollectionErrorProto { errs })
            },
            DataFusionError::Shared(e) => DataFusionErrorInnerProto::Shared(
                Box::new(DataFusionErrorProto::from_datafusion_error(&**e)),
            ),
        };
        let proto = DataFusionErrorProto { inner: Some(inner) };
        proof {
            if let (ErrorProtoView::Collection(a), ErrorProtoView::Collection(b)) = (
                proto@,
                error_to_proto(err@),
            ) {
                assert(a =~= b);
            }
        }
        proto
    }

    /// Converts something that was received into an error.
    pub fn to_datafusion_err(&self) -> (error: DataFusionError)
        ensures
            error@ == error_from_proto(self@),
        decreases self,
    {
        let inner = match &self.inner {
            Some(inner) => inner,
            None => {
                return DataFusionError::Internal(
                    "DataFusionError proto message is empty".to_owned(),
                );
            },
        };
        let error = match inner {
            DataFusionErrorInnerProto::ArrowError(e) => DataFusionError::ArrowError(e.clone()),
            DataFusionErrorInnerProto::ParquetError(e) => DataFusionError::ParquetError(e.clone()),
            DataFusionErrorInnerProto::ObjectStoreError(e) => DataFusionError::ObjectStore(e.clone()),
            DataFusionErrorInnerProto::IoError(e) => DataFusionError::IoError(e.clone()),
            DataFusionErrorInnerProto::Schema(e) => DataFusionError::SchemaError(e.clone()),
            DataFusionErrorInnerProto::SQL(e) => {
                let err = match &e.err {
                    Some(err) => err.clone(),
                    None => ParserError::ParserError("".to_owned()),
                };
                DataFusionError::SQL(err, clone_text(&e.backtrace))
            },
            DataFusionErrorInnerProto::NotImplemented(m) => DataFusionError::NotImplemented(m.clone()),
            DataFusionErrorInnerProto::Internal(m) => DataFusionError::Internal(m.clone()),
            DataFusionErrorInnerProto::Plan(m) => DataFusionError::Plan(m.clone()),
            DataFusionErrorInnerProto::Configuration(m) => DataFusionError::Configuration(m.clone()),
            DataFusionErrorInnerProto::Execution(m) => DataFusionError::Execution(m.clone()),
            DataFusionErrorInnerProto::ExecutionJoin(m) => DataFusionError::Internal(m.clone()),
            DataFusionErrorInnerProto::ResourceExhausted(m) => DataFusionError::ResourcesExhausted(m.clone()),
            DataFusionErrorInnerProto::External(m) => DataFusionError::External(m.clone()),
            DataFusionErrorInnerProto::Substrait(m) => DataFusionError::Substrait(m.clone()),
            DataFusionErrorInnerProto::Context(e) => {
                let err = match &e.err {
                    Some(err) => err.to_datafusion_err(),
                    None => DataFusionError::Internal(
                        "Missing DataFusionError protobuf message".to_owned(),
                    ),
                };
                DataFusionError::Context(e.ctx.clone(), Box::new(err))
            },
            DataFusionErrorInnerProto::Diagnostic(e) => DataFusionError::Diagnostic(
                Box::new(e.to_datafusion_err()),
            ),
            DataFusionErrorInnerProto::Collection(e) => {
                let mut errors: Vec<DataFusionError> = Vec::new();
                for i in 0..e.errs.len()
                    invariant
                        self.inner matches Some(inner)
                            && inner matches DataFusionErrorInnerProto::Collection(all) && all == e,
                        errors@.len() == i,
                        forall|j: int|
                            0 <= j < i ==> (#[trigger] errors@[j])@ == error_from_proto(
                                proto_view(*e.errs@[j]),
                            ),
                {
                    let error = e.errs[i].to_datafusion_err();
                    errors.push(error);
                }
                DataFusionError::Collection(errors)
            },
            DataFusionErrorInnerProto::Shared(e) => DataFusionError::Shared(
                Box::new(e.to_datafusion_err()),
            ),
        };
        proof {
            if let (ErrorView::Collection(a), ErrorView::Collection(b)) = (
                error@,
                error_from_proto(self@),
            ) {
                assert(a =~= b);
            }
            if let (ErrorView::Context(c, a), ErrorView::Context(d, b)) = (
                error@,
                error_from_proto(self@),
            ) {
                assert(c == d);
                assert(*a == *b);
            }
        }
        error
    }
}

/// An error after it was sent and received: a failed join of tasks is an internal error, and errors
/// of kinds that have no form of their own are external ones.
pub open spec fn received_error(error: ErrorView) -> ErrorView
    decreases error,
{
    match error {
        ErrorView::ExecutionJoin(m) => ErrorView::Internal(m),
        ErrorView::Ffi(m) => ErrorView::External(m),
        ErrorView::Avro(m) => ErrorView::External(m),
        ErrorView::Context(ctx, e) => ErrorView::Context(ctx, Box::new(received_error(*e))),
        ErrorView::Diagnostic(e) => ErrorView::Diagnostic(Box::new(received_error(*e))),
        ErrorView::Collection(errors) => ErrorView::Collection(
            Seq::new(
                errors.len(),
                |i: int|
                    if 0 <= i < errors.len() {
                        received_error(errors[i])
                    } else {
                        arbitrary()
                    },
            ),
        ),
        ErrorView::Shared(e) => ErrorView::Shared(Box::new(received_error(*e))),
        _ => error,
    }
}

/// An error is received as it was sent, however deep it is nested, up to what [received_error] says
/// of a few kinds.
pub proof fn errors_survive_the_wire(error: ErrorView)
    ensures
        error_from_proto(error_to_proto(error)) == received_error(error),
    decreases error,
{
    match error {
        ErrorView::Context(_, e) => {
            errors_survive_the_wire(*e);
        },
        ErrorView::Diagnostic(e) => {
            errors_survive_the_wire(*e);
        },
        ErrorView::Shared(e) => {
            errors_survive_the_wire(*e);
        },
        ErrorView::Collection(errors) => {
            assert forall|i: int| 0 <= i < errors.len() implies error_from_proto(
                error_to_proto(#[trigger] errors[i]),
            ) == received_error(errors[i]) by {
                errors_survive_the_wire(errors[i]);
            }
            if let (ErrorView::Collection(a), ErrorView::Collection(b)) = (
                error_from_proto(error_to_proto(error)),
                received_error(error),
            ) {
                assert(a =~= b);
            }
        },
        _ => {},
    }
}

/// An error that is known only by its text.
#[derive(Debug)]
pub struct DistributedDataFusionGenericError {
    pub message: String,
}

impl DistributedDataFusionGenericError {
    /// The text of the error.
    pub fn to_string(&self) -> (text: String)
        ensures
            text@ == self.message@,
    {
        self.message.clone()
    }

    /// The error that caused this one: there is none, the message is all that is known.
    pub fn source(&self) -> (source: Option<&Self>)
        ensures
            source is None,
    {
        None
    }
}

} // verus!
