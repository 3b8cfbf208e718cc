use vstd::prelude::*;
use crate::dag::{NodeHandle, PortHandle};

verus! {

/// Failures of the storage layer, as the execution core classifies them.
#[derive(Clone, Copy, Debug, PartialEq, Eq)]
pub enum StorageError {
    /// A persisted record could not be read back in the expected shape.
    InvalidRecord,
}

/// The closed set of errors the execution core can report.
#[derive(Clone, Debug, PartialEq, Eq)]
pub enum ExecutionError {
    /// An edge endpoint names a node that is not in the DAG.
    UnknownNode(NodeHandle),
    /// An edge endpoint names a port that its node does not declare.
    UnknownPort(NodeHandle, PortHandle),
    /// A port was used against its direction: an output was asked of a
    /// sink, or an input of a source.
    InvalidPortDirection,
    /// A namespaced merge would overwrite an existing node: the
    /// rewritten handle is already in use.
    DuplicateNodeHandle(NodeHandle),
    /// A processor or sink has no incoming edge at start.
    MissingNodeInput(NodeHandle),
    /// A source or processor has no outgoing edge at start.
    MissingNodeOutput(NodeHandle),
    /// A data operation arrived before every input port had a schema.
    SchemaNotInitialized,
    /// A control-plane message arrived where a data operation was required.
    InvalidOperation(String),
    /// A sink's upstream channel closed unexpectedly; carries the index
    /// of the receiver in the sink's flattened receiver list.
    SinkReceiverError(usize),
    /// A processor's upstream channel closed unexpectedly.
    ProcessorReceiverError(usize),
    /// A node's storage environment or checkpoint database is absent or
    /// unreadable.
    InvalidCheckpointState(NodeHandle),
    /// The storage layer failed while reading checkpoint records.
    InternalDatabaseError(StorageError),
    /// A persisted checkpoint key does not carry a well-formed port.
    InvalidPortHandle(PortHandle),
}

/// Errors of the aggregation pipeline helpers.
#[derive(Clone, Debug, PartialEq, Eq)]
pub enum PipelineError {
    /// An aggregate function was applied to too few arguments; carries
    /// the function's name.
    NotEnoughArguments(String),
    /// The expression is not an aggregation; carries a description.
    InvalidFunction(String),
    /// An aggregate could not be computed from the stored values;
    /// carries a description.
    InternalExecutionError(String),
}

} // verus!
