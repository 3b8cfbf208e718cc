use dozer_core::errors::ExecutionError;
use dozer_core::executor::ExecutorOperation;
use dozer_core::types::{Field, Operation, Record, Schema};
use dozer_core::worker::{ProcessorAction, ProcessorWorker, SinkAction, SinkWorker};

fn rec(v: i64) -> Record {
    Record::new(vec![Field::Int(v)])
}

fn schema(tag: u8) -> Schema {
    Schema::new(vec![tag])
}

#[test]
fn test_sink_rejects_data_before_schema() {
    let mut w = SinkWorker::new(vec![1]);
    let r = w.on_message(1, ExecutorOperation::Insert { seq: 1, new: rec(1) });
    assert_eq!(r, Err(ExecutionError::SchemaNotInitialized));
}

#[test]
fn test_sink_handshake_then_process() {
    let mut w = SinkWorker::new(vec![1]);
    let r = w.on_message(1, ExecutorOperation::SchemaUpdate { new: schema(7) }).unwrap();
    match r {
        SinkAction::InitSchemas(s) => {
            assert_eq!(s.len(), 1);
            assert_eq!(s[0].0, 1);
            assert_eq!(s[0].1.repr, vec![7]);
        },
        _ => panic!("expected the schemas to initialize"),
    }
    let r = w.on_message(1, ExecutorOperation::Insert { seq: 3, new: rec(5) }).unwrap();
    assert_eq!(
        r,
        SinkAction::Process { seq: 3, op: Operation::Insert { new: rec(5) } }
    );
}

#[test]
fn test_sink_exits_on_terminate() {
    let mut w = SinkWorker::new(vec![1]);
    let r = w.on_message(1, ExecutorOperation::Terminate).unwrap();
    assert_eq!(r, SinkAction::Exit);
    assert!(w.terminated);
}

#[test]
fn test_processor_waits_for_all_input_ports() {
    let mut w = ProcessorWorker::new(vec![1, 2], vec![3]);
    let r = w.on_message(1, ExecutorOperation::SchemaUpdate { new: schema(1) }).unwrap();
    assert_eq!(r, ProcessorAction::RecordedSchema);
    assert!(!w.schema_initialized);
    // data between the two schemas is still refused
    let r = w.on_message(1, ExecutorOperation::Insert { seq: 1, new: rec(1) });
    assert_eq!(r, Err(ExecutionError::SchemaNotInitialized));
    let r = w.on_message(2, ExecutorOperation::SchemaUpdate { new: schema(2) }).unwrap();
    match r {
        ProcessorAction::InitSchemas(s) => assert_eq!(s.len(), 2),
        _ => panic!("expected the schemas to initialize"),
    }
    assert!(w.schema_initialized);
    let r = w.on_message(2, ExecutorOperation::Delete { seq: 4, old: rec(2) }).unwrap();
    assert_eq!(
        r,
        ProcessorAction::Process { seq: 4, op: Operation::Delete { old: rec(2) } }
    );
}

#[test]
fn test_processor_forwards_terminate_and_exits() {
    let mut w = ProcessorWorker::new(vec![1], vec![2]);
    let r = w.on_message(1, ExecutorOperation::Terminate).unwrap();
    assert_eq!(r, ProcessorAction::SendTermAndExit);
    assert!(w.terminated);
}
