use dozer_core::checkpoint::{encode_record, decode_record, get_node_checkpoint_metadata,
    get_checkpoint_metadata, get_source_dependency_tree, CheckpointMetadataReader, CheckpointRecord,
    Consistency, DependencyTreeNode, INPUT_SCHEMA_IDENTIFIER, OUTPUT_SCHEMA_IDENTIFIER,
    SOURCE_ID_IDENTIFIER};
use dozer_core::dag::{Dag, Endpoint, NodeType, SinkNode, SourceNode};
use dozer_core::errors::{ExecutionError, StorageError};

fn source(ports: Vec<u16>) -> NodeType {
    NodeType::Source(SourceNode { output_ports: ports, stateful: true })
}

fn sink(ports: Vec<u16>) -> NodeType {
    NodeType::Sink(SinkNode { input_ports: ports, stateful: true })
}

fn commit_record(handle: &str, seq: u64) -> (Vec<u8>, Vec<u8>) {
    encode_record(&CheckpointRecord::SourceCommit { handle: handle.to_string(), seq })
}

#[test]
fn test_source_commit_round_trip() {
    let rec = CheckpointRecord::SourceCommit { handle: "src".to_string(), seq: 42 };
    let (key, value) = encode_record(&rec);
    assert_eq!(key[0], SOURCE_ID_IDENTIFIER);
    assert_eq!(key.len(), 4);
    assert_eq!(value, vec![0, 0, 0, 0, 0, 0, 0, 42]);
    assert_eq!(decode_record(&key, &value), Ok(rec));
}

#[test]
fn test_output_schema_round_trip() {
    let rec = CheckpointRecord::OutputSchema { port: 0x0102, schema: vec![9, 8, 7] };
    let (key, value) = encode_record(&rec);
    assert_eq!(key, vec![OUTPUT_SCHEMA_IDENTIFIER, 1, 2]);
    assert_eq!(value, vec![9, 8, 7]);
    assert_eq!(decode_record(&key, &value), Ok(rec));
}

#[test]
fn test_input_schema_round_trip() {
    let rec = CheckpointRecord::InputSchema { port: 0xffff, schema: vec![] };
    let (key, value) = encode_record(&rec);
    assert_eq!(key, vec![INPUT_SCHEMA_IDENTIFIER, 255, 255]);
    assert_eq!(decode_record(&key, &value), Ok(rec));
}

#[test]
fn test_source_commit_round_trip_extremes() {
    let rec = CheckpointRecord::SourceCommit { handle: "s".to_string(), seq: u64::MAX };
    let (key, value) = encode_record(&rec);
    assert_eq!(value, vec![255u8; 8]);
    assert_eq!(decode_record(&key, &value), Ok(rec));
}

#[test]
fn test_decode_lossy_handle() {
    // an invalid UTF-8 handle byte is replaced rather than failing
    let r = decode_record(&vec![SOURCE_ID_IDENTIFIER, 0xff], &vec![0u8; 8]);
    assert_eq!(
        r,
        Ok(CheckpointRecord::SourceCommit { handle: "\u{FFFD}".to_string(), seq: 0 })
    );
}

#[test]
fn test_decode_unknown_tag() {
    let r = decode_record(&vec![0x77, 1, 2], &vec![]);
    assert_eq!(r, Err(ExecutionError::InternalDatabaseError(StorageError::InvalidRecord)));
}

#[test]
fn test_decode_malformed_records() {
    // an empty key has no tag
    assert_eq!(
        decode_record(&vec![], &vec![]),
        Err(ExecutionError::InternalDatabaseError(StorageError::InvalidRecord))
    );
    // a commit whose value is not eight bytes
    assert_eq!(
        decode_record(&vec![SOURCE_ID_IDENTIFIER, b's'], &vec![1, 2]),
        Err(ExecutionError::InternalDatabaseError(StorageError::InvalidRecord))
    );
    // a schema key whose port is not two bytes
    assert_eq!(
        decode_record(&vec![OUTPUT_SCHEMA_IDENTIFIER, 1], &vec![]),
        Err(ExecutionError::InvalidPortHandle(0))
    );
}

#[test]
fn test_node_metadata_collects_records() {
    let records = vec![
        commit_record("a", 5),
        encode_record(&CheckpointRecord::InputSchema { port: 1, schema: vec![1] }),
        encode_record(&CheckpointRecord::OutputSchema { port: 2, schema: vec![2] }),
        commit_record("b", 6),
    ];
    let meta = get_node_checkpoint_metadata(&records).unwrap();
    assert_eq!(meta.commits, vec![("a".to_string(), 5), ("b".to_string(), 6)]);
    assert_eq!(meta.input_schemas, vec![(1, vec![1])]);
    assert_eq!(meta.output_schemas, vec![(2, vec![2])]);
}

#[test]
fn test_node_metadata_empty_dump_fails() {
    let r = get_node_checkpoint_metadata(&vec![]);
    assert_eq!(r, Err(ExecutionError::InternalDatabaseError(StorageError::InvalidRecord)));
}

fn three_node_dag() -> Dag {
    let mut dag = Dag::new();
    dag.add_node(source(vec![1]), "S".to_string());
    dag.add_node(sink(vec![1]), "A".to_string());
    dag.add_node(sink(vec![1]), "B".to_string());
    dag.connect(Endpoint::new("S".to_string(), 1), Endpoint::new("A".to_string(), 1)).unwrap();
    dag.connect(Endpoint::new("S".to_string(), 1), Endpoint::new("B".to_string(), 1)).unwrap();
    dag
}

#[test]
fn test_dependency_tree_shape() {
    let dag = three_node_dag();
    let tree = get_source_dependency_tree("S".to_string(), &dag, dag.nodes.len() + 1).unwrap();
    assert_eq!(tree.handle, "S");
    assert_eq!(tree.children.len(), 2);
    assert_eq!(tree.children[0].handle, "A");
    assert_eq!(tree.children[1].handle, "B");
    assert!(tree.children[0].children.is_empty());
}

#[test]
fn test_dependency_tree_node_new() {
    let n = DependencyTreeNode::new("x".to_string());
    assert_eq!(n.handle, "x");
    assert!(n.children.is_empty());
}

#[test]
fn test_checkpoint_fully_consistent() {
    let dag = three_node_dag();
    // both descendants committed through 10; the source itself is not
    // part of the classification
    let stores = vec![
        ("A".to_string(), vec![commit_record("S", 10)]),
        ("B".to_string(), vec![commit_record("S", 10)]),
    ];
    let reader = CheckpointMetadataReader::new(&dag, &stores).unwrap();
    let consistency = reader.get_dependency_tree_consistency();
    assert_eq!(consistency.len(), 1);
    assert_eq!(consistency[0].0, "S");
    assert_eq!(consistency[0].1, Consistency::FullyConsistent(10));
}

#[test]
fn test_checkpoint_partially_consistent() {
    let dag = three_node_dag();
    let stores = vec![
        ("A".to_string(), vec![commit_record("S", 10)]),
        ("B".to_string(), vec![commit_record("S", 9)]),
    ];
    let reader = CheckpointMetadataReader::new(&dag, &stores).unwrap();
    let consistency = reader.get_dependency_tree_consistency();
    assert_eq!(consistency.len(), 1);
    let expected = vec![
        (10, vec!["A".to_string()]),
        (9, vec!["B".to_string()]),
    ];
    assert_eq!(consistency[0].1, Consistency::PartiallyConsistent(expected));
}

#[test]
fn test_corrupted_env_is_removed_and_analysis_continues() {
    let dag = three_node_dag();
    let stores = vec![
        ("S".to_string(), vec![commit_record("S", 4)]),
        // an unknown tag byte corrupts this node's checkpoint
        ("A".to_string(), vec![(vec![0x99], vec![])]),
        ("B".to_string(), vec![commit_record("S", 4)]),
    ];
    let (metadata, removed) = get_checkpoint_metadata(&dag, &stores);
    assert_eq!(removed, vec!["A".to_string()]);
    let names: Vec<&str> = metadata.iter().map(|e| e.0.as_str()).collect();
    assert_eq!(names, vec!["S", "B"]);

    // the analyzer still classifies the descendants; the removed node
    // counts as seq 0
    let reader = CheckpointMetadataReader::new(&dag, &stores).unwrap();
    let consistency = reader.get_dependency_tree_consistency();
    let expected = vec![
        (0, vec!["A".to_string()]),
        (4, vec!["B".to_string()]),
    ];
    assert_eq!(consistency[0].1, Consistency::PartiallyConsistent(expected));
}

#[test]
fn test_missing_store_is_removed() {
    let dag = three_node_dag();
    let stores = vec![
        ("S".to_string(), vec![commit_record("S", 1)]),
        ("A".to_string(), vec![commit_record("S", 1)]),
    ];
    let (metadata, removed) = get_checkpoint_metadata(&dag, &stores);
    assert_eq!(removed, vec!["B".to_string()]);
    assert_eq!(metadata.len(), 2);
}

#[test]
fn test_get_state_seq_for_node() {
    let dag = three_node_dag();
    let stores = vec![
        ("S".to_string(), vec![commit_record("S", 3)]),
        ("A".to_string(), vec![commit_record("S", 2)]),
        ("B".to_string(), vec![commit_record("other", 2)]),
    ];
    let reader = CheckpointMetadataReader::new(&dag, &stores).unwrap();
    assert_eq!(reader.get_state_seq_for_node(&"S".to_string(), &"A".to_string()), Ok(2));
    // B has no commit for S
    assert_eq!(
        reader.get_state_seq_for_node(&"S".to_string(), &"B".to_string()),
        Err(ExecutionError::InvalidCheckpointState("B".to_string()))
    );
    // a node that never checkpointed
    assert_eq!(
        reader.get_state_seq_for_node(&"S".to_string(), &"missing".to_string()),
        Err(ExecutionError::InvalidCheckpointState("missing".to_string()))
    );
}
