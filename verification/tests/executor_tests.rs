use dozer_core::channel::ChannelQueue;
use dozer_core::dag::{Dag, Endpoint, NodeType, PortDirection, ProcessorNode, SinkNode, SourceNode};
use dozer_core::errors::ExecutionError;
use dozer_core::executor::{edges_from, edges_into, index_lookup, ExecutorOperation,
    MultiThreadedDagExecutor, SchemaKey, DEFAULT_PORT_HANDLE};
use dozer_core::types::{Field, Operation, Record, Schema};

fn rec(v: i64) -> Record {
    Record::new(vec![Field::Int(v)])
}

#[test]
fn test_default_port_handle() {
    assert_eq!(DEFAULT_PORT_HANDLE, 0xffff);
}

#[test]
fn test_kind_name() {
    assert_eq!(ExecutorOperation::Terminate.kind_name(), "Terminate");
    assert_eq!(
        ExecutorOperation::Insert { seq: 1, new: rec(1) }.kind_name(),
        "Insert"
    );
    assert_eq!(
        ExecutorOperation::SchemaUpdate { new: Schema::new(vec![]) }.kind_name(),
        "SchemaUpdate"
    );
}

#[test]
fn test_map_to_op_data() {
    let r = MultiThreadedDagExecutor::map_to_op(ExecutorOperation::Insert { seq: 7, new: rec(1) });
    assert_eq!(r, Ok((7, Operation::Insert { new: rec(1) })));
    let r = MultiThreadedDagExecutor::map_to_op(ExecutorOperation::Delete { seq: 8, old: rec(2) });
    assert_eq!(r, Ok((8, Operation::Delete { old: rec(2) })));
    let r = MultiThreadedDagExecutor::map_to_op(ExecutorOperation::Update {
        seq: 9,
        old: rec(2),
        new: rec(3),
    });
    assert_eq!(r, Ok((9, Operation::Update { old: rec(2), new: rec(3) })));
}

#[test]
fn test_map_to_op_rejects_control_messages() {
    let r = MultiThreadedDagExecutor::map_to_op(ExecutorOperation::Terminate);
    assert_eq!(r, Err(ExecutionError::InvalidOperation("Terminate".to_string())));
    let r = MultiThreadedDagExecutor::map_to_op(ExecutorOperation::SchemaUpdate {
        new: Schema::new(vec![]),
    });
    assert_eq!(r, Err(ExecutionError::InvalidOperation("SchemaUpdate".to_string())));
}

fn small_dag() -> Dag {
    let mut dag = Dag::new();
    dag.add_node(
        NodeType::Source(SourceNode { output_ports: vec![1], stateful: false }),
        "s".to_string(),
    );
    dag.add_node(
        NodeType::Processor(
            ProcessorNode { input_ports: vec![1], output_ports: vec![2], stateful: false },
        ),
        "p".to_string(),
    );
    dag.add_node(
        NodeType::Sink(SinkNode { input_ports: vec![2], stateful: false }),
        "k1".to_string(),
    );
    dag.add_node(
        NodeType::Sink(SinkNode { input_ports: vec![2], stateful: false }),
        "k2".to_string(),
    );
    dag.connect(Endpoint::new("s".to_string(), 1), Endpoint::new("p".to_string(), 1)).unwrap();
    dag.connect(Endpoint::new("p".to_string(), 2), Endpoint::new("k1".to_string(), 2)).unwrap();
    dag.connect(Endpoint::new("p".to_string(), 2), Endpoint::new("k2".to_string(), 2)).unwrap();
    dag
}

#[test]
fn test_edges_from_and_into() {
    let dag = small_dag();
    assert_eq!(edges_from(&dag, &"s".to_string(), 1), vec![0]);
    assert_eq!(edges_from(&dag, &"p".to_string(), 2), vec![1, 2]);
    assert_eq!(edges_from(&dag, &"p".to_string(), 1), Vec::<usize>::new());
    assert_eq!(edges_into(&dag, &"p".to_string(), 1), vec![0]);
    assert_eq!(edges_into(&dag, &"k2".to_string(), 2), vec![2]);
}

#[test]
fn test_index_edges() {
    let dag = small_dag();
    let exec = MultiThreadedDagExecutor::new(4);
    assert_eq!(exec.channel_capacity(), 4);
    let (senders, receivers) = exec.index_edges(&dag);
    assert_eq!(index_lookup(&senders, &"s".to_string(), 1), Some(&vec![0]));
    assert_eq!(index_lookup(&senders, &"p".to_string(), 2), Some(&vec![1, 2]));
    assert_eq!(index_lookup(&senders, &"k1".to_string(), 2), None);
    assert_eq!(index_lookup(&receivers, &"p".to_string(), 1), Some(&vec![0]));
    assert_eq!(index_lookup(&receivers, &"k1".to_string(), 2), Some(&vec![1]));
    assert_eq!(index_lookup(&receivers, &"k2".to_string(), 2), Some(&vec![2]));
}

#[test]
fn test_channel_queue_is_fifo() {
    let mut q = ChannelQueue::new(2);
    assert!(q.is_empty());
    q.push(ExecutorOperation::Insert { seq: 1, new: rec(1) });
    q.push(ExecutorOperation::Insert { seq: 2, new: rec(2) });
    assert!(q.is_full());
    assert_eq!(q.len(), 2);
    let first = q.pop();
    let second = q.pop();
    assert_eq!(first, ExecutorOperation::Insert { seq: 1, new: rec(1) });
    assert_eq!(second, ExecutorOperation::Insert { seq: 2, new: rec(2) });
    assert!(q.is_empty());
}

#[test]
fn test_schema_key_new() {
    let k = SchemaKey::new("n".to_string(), 3, PortDirection::Output);
    assert_eq!(k.node_handle, "n");
    assert_eq!(k.port_handle, 3);
    assert_eq!(k.direction, PortDirection::Output);
}

#[test]
fn test_get_node_types_partitions() {
    let dag = small_dag();
    let exec = MultiThreadedDagExecutor::new(1);
    let (sources, processors, sinks) = exec.get_node_types(&dag);
    assert_eq!(sources.len(), 1);
    assert_eq!(sources[0].0, "s");
    assert_eq!(sources[0].1.output_ports, vec![1]);
    assert_eq!(processors.len(), 1);
    assert_eq!(processors[0].0, "p");
    assert_eq!(processors[0].1.input_ports, vec![1]);
    assert_eq!(sinks.len(), 2);
    assert_eq!(sinks[0].0, "k1");
    assert_eq!(sinks[1].0, "k2");
}

#[test]
fn test_channel_queue_capacity() {
    let q = ChannelQueue::new(5);
    assert_eq!(q.capacity_exec(), 5);
    assert!(!q.is_full());
}
