use vstd::prelude::*;
use crate::dag::PortHandle;
use crate::errors::ExecutionError;
use crate::executor::{ExecutorOperation, MultiThreadedDagExecutor};
use crate::types::{Schema, Operation};

verus! {

/// Some entry of the schema list is for port `p`.
pub open spec fn has_port_schema(s: Seq<(PortHandle, Schema)>, p: u16) -> bool {
    exists|j: int| 0 <= j < s.len() && (#[trigger] s[j]).0 == p
}

/// Every declared input port has received a schema.
pub open spec fn schemas_complete(s: Seq<(PortHandle, Schema)>, ports: Seq<PortHandle>) -> bool {
    forall|k: int| 0 <= k < ports.len() ==> has_port_schema(s, #[trigger] ports[k])
}

/// The mathematical value of a schema list.
pub open spec fn schemas_view(s: Seq<(PortHandle, Schema)>) -> Seq<(u16, Seq<u8>)> {
    s.map_values(|p: (PortHandle, Schema)| (p.0, p.1@))
}

/// Whether port `p` already has a schema recorded.
fn port_has_schema(s: &Vec<(PortHandle, Schema)>, p: PortHandle) -> (r: bool)
    ensures
        r == has_port_schema(s@, p),
{
    let mut j: usize = 0;
    while j < s.len()
        invariant
            j <= s@.len(),
            forall|k: int| 0 <= k < j ==> (#[trigger] s@[k]).0 != p,
        decreases s@.len() - j,
    {
        if s[j].0 == p {
            return true;
        }
        j = j + 1;
    }
    false
}

/// Whether every declared input port has a schema recorded.
fn all_ports_have_schemas(s: &Vec<(PortHandle, Schema)>, ports: &Vec<PortHandle>) -> (r: bool)
    ensures
        r == schemas_complete(s@, ports@),
{
    let mut k: usize = 0;
    while k < ports.len()
        invariant
            k <= ports@.len(),
            forall|j: int| 0 <= j < k ==> has_port_schema(s@, #[trigger] ports@[j]),
        decreases ports@.len() - k,
    {
        if !port_has_schema(s, ports[k]) {
            return false;
        }
        k = k + 1;
    }
    true
}

/// A copy of a schema list.
fn copy_schemas(s: &Vec<(PortHandle, Schema)>) -> (r: Vec<(PortHandle, Schema)>)
    ensures
        schemas_view(r@) == schemas_view(s@),
{
    let mut out: Vec<(PortHandle, Schema)> = Vec::new();
    let mut k: usize = 0;
    while k < s.len()
        invariant
            k <= s@.len(),
            schemas_view(out@) == schemas_view(s@).take(k as int),
        decreases s@.len() - k,
    {
        let entry = &s[k];
        let copy = Schema::new(crate::checkpoint::copy_bytes(&entry.1.repr));
        proof {
            assert(copy@ == s@[k as int].1@);
        }
        let ghost pre_out = out@;
        out.push((entry.0, copy));
        proof {
            assert(schemas_view(pre_out).len() == k as int);
            assert(pre_out.len() == k as int);
            assert(out@.len() == k as int + 1);
            assert(out@.last().0 == s@[k as int].0);
            assert(out@.last().1@ == s@[k as int].1@);
            assert forall|j: int| 0 <= j < out@.len() implies (#[trigger] schemas_view(out@)[j])
                == schemas_view(s@).take(k as int + 1)[j] by {
                if j < k as int {
                    assert(out@[j] == pre_out[j]);
                    assert(schemas_view(pre_out)[j] == schemas_view(s@).take(k as int)[j]);
                }
            }
            assert(schemas_view(out@) =~= schemas_view(s@).take(k as int + 1));
        }
        k = k + 1;
    }
    proof {
        assert(schemas_view(s@).take(s@.len() as int) =~= schemas_view(s@));
    }
    out
}

/// What the embedding program must do after a processor worker absorbed
/// one message.
#[derive(Debug, PartialEq)]
pub enum ProcessorAction {
    /// A schema was recorded but some input port still lacks one:
    /// nothing to forward yet.
    RecordedSchema,
    /// Every input port now has a schema: for each output port, ask the
    /// processor for its output schema and forward it downstream.
    InitSchemas(Vec<(PortHandle, Schema)>),
    /// A data operation to process: set the forwarder's sequence number
    /// to `seq`, then call the processor with the operation.
    Process { seq: u64, op: Operation },
    /// The upstream terminated: forward the terminate signal on every
    /// output port and exit the worker.
    SendTermAndExit,
}

/// What the embedding program must do after a sink worker absorbed one
/// message.
#[derive(Debug, PartialEq)]
pub enum SinkAction {
    /// A schema was recorded but some input port still lacks one.
    RecordedSchema,
    /// Every input port now has a schema: hand them to the sink.
    InitSchemas(Vec<(PortHandle, Schema)>),
    /// A data operation to hand to the sink with its sequence number.
    Process { seq: u64, op: Operation },
    /// The upstream terminated: exit the worker.
    Exit,
}

/// The schema-handshake state machine of a processor worker: schemas
/// are absorbed until every input port has one, only then are data
/// operations dispatched, and a terminate signal propagates and stops
/// the worker.
pub struct ProcessorWorker {
    pub input_ports: Vec<PortHandle>,
    pub output_ports: Vec<PortHandle>,
    pub input_schemas: Vec<(PortHandle, Schema)>,
    pub schema_initialized: bool,
    pub terminated: bool,
}

impl ProcessorWorker {
    /// The ready flag says exactly that every input port has a schema.
    pub open spec fn wf(&self) -> bool {
        self.schema_initialized == schemas_complete(self.input_schemas@, self.input_ports@)
    }

    /// A worker that has seen nothing yet.
    pub fn new(input_ports: Vec<PortHandle>, output_ports: Vec<PortHandle>) -> (r: Self)
        requires
            input_ports@.len() > 0,
        ensures
            r.wf(),
            r.input_ports == input_ports,
            r.output_ports == output_ports,
            r.input_schemas@.len() == 0,
            !r.schema_initialized,
            !r.terminated,
    {
        let r = Self {
            input_ports,
            output_ports,
            input_schemas: Vec::new(),
            schema_initialized: false,
            terminated: false,
        };
        proof {
            assert(!has_port_schema(r.input_schemas@, r.input_ports@[0]));
        }
        r
    }

    /// Absorbs one message from input port `port`.
    ///
    /// Schema-before-data: a data operation is dispatched only when the
    /// worker is ready, which says that a schema update has been
    /// absorbed from every input port; earlier data is the fatal
    /// `SchemaNotInitialized`.
    pub fn on_message(&mut self, port: PortHandle, op: ExecutorOperation) -> (r: Result<
        ProcessorAction,
        ExecutionError,
    >)
        requires
            old(self).wf(),
            !old(self).terminated,
        ensures
            final(self).wf(),
            final(self).input_ports == old(self).input_ports,
            final(self).output_ports == old(self).output_ports,
            r matches Ok(a) ==> ((a matches ProcessorAction::Process { seq, op }) ==> old(
                self,
            ).schema_initialized && schemas_complete(
                old(self).input_schemas@,
                old(self).input_ports@,
            )),
            op matches ExecutorOperation::SchemaUpdate { new } ==> {
                &&& final(self).input_schemas@ == old(self).input_schemas@.push((port, new))
                &&& !final(self).terminated
                &&& (final(self).schema_initialized ==> (r matches Ok(a) && a
                    matches ProcessorAction::InitSchemas(s) && schemas_view(s@) == schemas_view(
                    final(self).input_schemas@,
                )))
                &&& (!final(self).schema_initialized ==> r == Ok::<
                    ProcessorAction,
                    ExecutionError,
                >(ProcessorAction::RecordedSchema))
            },
            op is Terminate ==> final(self).terminated && final(self).input_schemas == old(
                self,
            ).input_schemas && r == Ok::<ProcessorAction, ExecutionError>(
                ProcessorAction::SendTermAndExit,
            ),
            (op is Delete || op is Insert || op is Update) ==> {
                &&& *final(self) == *old(self)
                &&& (!old(self).schema_initialized ==> r == Err::<
                    ProcessorAction,
                    ExecutionError,
                >(ExecutionError::SchemaNotInitialized))
                &&& (old(self).schema_initialized ==> {
                    &&& (op matches ExecutorOperation::Delete { seq, old: o } ==> r == Ok::<
                        ProcessorAction,
                        ExecutionError,
                    >(ProcessorAction::Process { seq, op: Operation::Delete { old: o } }))
                    &&& (op matches ExecutorOperation::Insert { seq, new } ==> r == Ok::<
                        ProcessorAction,
                        ExecutionError,
                    >(ProcessorAction::Process { seq, op: Operation::Insert { new } }))
                    &&& (op matches ExecutorOperation::Update { seq, old: o, new } ==> r == Ok::<
                        ProcessorAction,
                        ExecutionError,
                    >(ProcessorAction::Process { seq, op: Operation::Update { old: o, new } }))
                })
            },
    {
        match op {
            ExecutorOperation::SchemaUpdate { new } => {
                self.input_schemas.push((port, new));
                if all_ports_have_schemas(&self.input_schemas, &self.input_ports) {
                    self.schema_initialized = true;
                    Ok(ProcessorAction::InitSchemas(copy_schemas(&self.input_schemas)))
                } else {
                    self.schema_initialized = false;
                    Ok(ProcessorAction::RecordedSchema)
                }
            },
            ExecutorOperation::Terminate => {
                self.terminated = true;
                Ok(ProcessorAction::SendTermAndExit)
            },
            data_op => {
                if !self.schema_initialized {
                    return Err(ExecutionError::SchemaNotInitialized);
                }
                match MultiThreadedDagExecutor::map_to_op(data_op) {
                    Ok((seq, o)) => Ok(ProcessorAction::Process { seq, op: o }),
                    Err(e) => Err(e),
                }
            },
        }
    }
}

/// The schema-handshake state machine of a sink worker.
pub struct SinkWorker {
    pub input_ports: Vec<PortHandle>,
    pub input_schemas: Vec<(PortHandle, Schema)>,
    pub schema_initialized: bool,
    pub terminated: bool,
}

impl SinkWorker {
    /// The ready flag says exactly that every input port has a schema.
    pub open spec fn wf(&self) -> bool {
        self.schema_initialized == schemas_complete(self.input_schemas@, self.input_ports@)
    }

    /// A worker that has seen nothing yet.
    pub fn new(input_ports: Vec<PortHandle>) -> (r: Self)
        requires
            input_ports@.len() > 0,
        ensures
            r.wf(),
            r.input_ports == input_ports,
            r.input_schemas@.len() == 0,
            !r.schema_initialized,
            !r.terminated,
    {
        let r = Self {
            input_ports,
            input_schemas: Vec::new(),
            schema_initialized: false,
            terminated: false,
        };
        proof {
            assert(!has_port_schema(r.input_schemas@, r.input_ports@[0]));
        }
        r
    }

    /// Absorbs one message from input port `port`.
    ///
    /// Schema-before-data: a data operation reaches the sink only when
    /// every input port's schema has been absorbed.
    pub fn on_message(&mut self, port: PortHandle, op: ExecutorOperation) -> (r: Result<
        SinkAction,
        ExecutionError,
    >)
        requires
            old(self).wf(),
            !old(self).terminated,
        ensures
            final(self).wf(),
            final(self).input_ports == old(self).input_ports,
            r matches Ok(a) ==> ((a matches SinkAction::Process { seq, op }) ==> old(
                self,
            ).schema_initialized && schemas_complete(
                old(self).input_schemas@,
                old(self).input_ports@,
            )),
            op matches ExecutorOperation::SchemaUpdate { new } ==> {
                &&& final(self).input_schemas@ == old(self).input_schemas@.push((port, new))
                &&& !final(self).terminated
                &&& (final(self).schema_initialized ==> (r matches Ok(a) && a
                    matches SinkAction::InitSchemas(s) && schemas_view(s@) == schemas_view(
                    final(self).input_schemas@,
                )))
                &&& (!final(self).schema_initialized ==> r == Ok::<SinkAction, ExecutionError>(
                    SinkAction::RecordedSchema,
                ))
            },
            op is Terminate ==> final(self).terminated && final(self).input_schemas == old(
                self,
            ).input_schemas && r == Ok::<SinkAction, ExecutionError>(SinkAction::Exit),
            (op is Delete || op is Insert || op is Update) ==> {
                &&& *final(self) == *old(self)
                &&& (!old(self).schema_initialized ==> r == Err::<SinkAction, ExecutionError>(
                    ExecutionError::SchemaNotInitialized,
                ))
                &&& (old(self).schema_initialized ==> {
                    &&& (op matches ExecutorOperation::Delete { seq, old: o } ==> r == Ok::<
                        SinkAction,
                        ExecutionError,
                    >(SinkAction::Process { seq, op: Operation::Delete { old: o } }))
                    &&& (op matches ExecutorOperation::Insert { seq, new } ==> r == Ok::<
                        SinkAction,
                        ExecutionError,
                    >(SinkAction::Process { seq, op: Operation::Insert { new } }))
                    &&& (op matches ExecutorOperation::Update { seq, old: o, new } ==> r == Ok::<
                        SinkAction,
                        ExecutionError,
                    >(SinkAction::Process { seq, op: Operation::Update { old: o, new } }))
                })
            },
    {
        match op {
            ExecutorOperation::SchemaUpdate { new } => {
                self.input_schemas.push((port, new));
                if all_ports_have_schemas(&self.input_schemas, &self.input_ports) {
                    self.schema_initialized = true;
                    Ok(SinkAction::InitSchemas(copy_schemas(&self.input_schemas)))
                } else {
                    self.schema_initialized = false;
                    Ok(SinkAction::RecordedSchema)
                }
            },
            ExecutorOperation::Terminate => {
                self.terminated = true;
                Ok(SinkAction::Exit)
            },
            data_op => {
                if !self.schema_initialized {
                    return Err(ExecutionError::SchemaNotInitialized);
                }
                match MultiThreadedDagExecutor::map_to_op(data_op) {
                    Ok((seq, o)) => Ok(SinkAction::Process { seq, op: o }),
                    Err(e) => Err(e),
                }
            },
        }
    }
}

} // verus!
