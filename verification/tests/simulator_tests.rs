use dozer_core::dag::{Dag, Endpoint, NodeType, ProcessorNode, SinkNode, SourceNode};
use dozer_core::errors::ExecutionError;
use dozer_core::executor::ExecutorOperation;
use dozer_core::simulator::{SimOutcome, Simulation, SourceScript};
use dozer_core::types::{Field, Operation, Record, Schema};

fn source(ports: Vec<u16>) -> NodeType {
    NodeType::Source(SourceNode { output_ports: ports, stateful: false })
}

fn processor(input: Vec<u16>, output: Vec<u16>) -> NodeType {
    NodeType::Processor(ProcessorNode { input_ports: input, output_ports: output, stateful: false })
}

fn sink(ports: Vec<u16>) -> NodeType {
    NodeType::Sink(SinkNode { input_ports: ports, stateful: false })
}

fn rec(v: i64) -> Record {
    Record::new(vec![Field::Int(v)])
}

fn insert(seq: u64, v: i64) -> ExecutorOperation {
    ExecutorOperation::Insert { seq, new: rec(v) }
}

fn schema_update() -> ExecutorOperation {
    ExecutorOperation::SchemaUpdate { new: Schema::new(vec![1]) }
}

#[test]
fn test_linear_pipeline() {
    let mut dag = Dag::new();
    dag.add_node(source(vec![1]), "S".to_string());
    dag.add_node(processor(vec![1], vec![2]), "P".to_string());
    dag.add_node(sink(vec![2]), "K".to_string());
    dag.connect(Endpoint::new("S".to_string(), 1), Endpoint::new("P".to_string(), 1)).unwrap();
    dag.connect(Endpoint::new("P".to_string(), 2), Endpoint::new("K".to_string(), 2)).unwrap();

    let scripts = vec![SourceScript {
        handle: "S".to_string(),
        events: vec![(1, schema_update()), (1, insert(1, 100)), (1, insert(2, 200))],
    }];
    let mut sim = Simulation::new(&dag, &scripts, 4).unwrap();
    let outcome = sim.run(10_000).unwrap();
    assert_eq!(outcome, SimOutcome::Completed);

    let log = sim.sink_log(&"K".to_string()).unwrap();
    assert_eq!(
        log,
        &vec![
            (1, Operation::Insert { new: rec(100) }),
            (2, Operation::Insert { new: rec(200) }),
        ]
    );
}

#[test]
fn test_fan_out_preserves_order_for_each_sink() {
    let mut dag = Dag::new();
    dag.add_node(source(vec![1]), "S".to_string());
    dag.add_node(sink(vec![1]), "K1".to_string());
    dag.add_node(sink(vec![1]), "K2".to_string());
    dag.connect(Endpoint::new("S".to_string(), 1), Endpoint::new("K1".to_string(), 1)).unwrap();
    dag.connect(Endpoint::new("S".to_string(), 1), Endpoint::new("K2".to_string(), 1)).unwrap();

    let scripts = vec![SourceScript {
        handle: "S".to_string(),
        events: vec![
            (1, schema_update()),
            (1, insert(1, 10)),
            (1, insert(2, 20)),
            (1, insert(3, 30)),
        ],
    }];
    let mut sim = Simulation::new(&dag, &scripts, 2).unwrap();
    assert_eq!(sim.run(10_000).unwrap(), SimOutcome::Completed);

    let expected = vec![
        (1, Operation::Insert { new: rec(10) }),
        (2, Operation::Insert { new: rec(20) }),
        (3, Operation::Insert { new: rec(30) }),
    ];
    assert_eq!(sim.sink_log(&"K1".to_string()).unwrap(), &expected);
    assert_eq!(sim.sink_log(&"K2".to_string()).unwrap(), &expected);
}

#[test]
fn test_fan_in_receives_both_streams_in_per_source_order() {
    let mut dag = Dag::new();
    dag.add_node(source(vec![1]), "S1".to_string());
    dag.add_node(source(vec![1]), "S2".to_string());
    dag.add_node(processor(vec![1, 2], vec![3]), "P".to_string());
    dag.add_node(sink(vec![3]), "K".to_string());
    dag.connect(Endpoint::new("S1".to_string(), 1), Endpoint::new("P".to_string(), 1)).unwrap();
    dag.connect(Endpoint::new("S2".to_string(), 1), Endpoint::new("P".to_string(), 2)).unwrap();
    dag.connect(Endpoint::new("P".to_string(), 3), Endpoint::new("K".to_string(), 3)).unwrap();

    let scripts = vec![
        SourceScript {
            handle: "S1".to_string(),
            events: vec![(1, schema_update()), (1, insert(1, 11)), (1, insert(2, 12))],
        },
        SourceScript {
            handle: "S2".to_string(),
            events: vec![(1, schema_update()), (1, insert(1, 21)), (1, insert(2, 22))],
        },
    ];
    let mut sim = Simulation::new(&dag, &scripts, 4).unwrap();
    assert_eq!(sim.run(10_000).unwrap(), SimOutcome::Completed);

    let log = sim.sink_log(&"K".to_string()).unwrap();
    assert_eq!(log.len(), 4);
    // the streams may interleave, but each source's order is kept
    let s1: Vec<i64> = log
        .iter()
        .filter_map(|(_, op)| match op {
            Operation::Insert { new } => match new.values[0] {
                Field::Int(v) if v < 20 => Some(v),
                _ => None,
            },
            _ => None,
        })
        .collect();
    let s2: Vec<i64> = log
        .iter()
        .filter_map(|(_, op)| match op {
            Operation::Insert { new } => match new.values[0] {
                Field::Int(v) if v >= 20 => Some(v),
                _ => None,
            },
            _ => None,
        })
        .collect();
    assert_eq!(s1, vec![11, 12]);
    assert_eq!(s2, vec![21, 22]);
}

#[test]
fn test_backpressure_loses_nothing() {
    let mut dag = Dag::new();
    dag.add_node(source(vec![1]), "S".to_string());
    dag.add_node(sink(vec![1]), "K".to_string());
    dag.connect(Endpoint::new("S".to_string(), 1), Endpoint::new("K".to_string(), 1)).unwrap();

    let mut events = vec![(1u16, schema_update())];
    for i in 0..100u64 {
        events.push((1, insert(i + 1, i as i64)));
    }
    let scripts = vec![SourceScript { handle: "S".to_string(), events }];
    // a channel of one slot forces the source to wait for the sink
    let mut sim = Simulation::new(&dag, &scripts, 1).unwrap();
    assert_eq!(sim.run(100_000).unwrap(), SimOutcome::Completed);

    let log = sim.sink_log(&"K".to_string()).unwrap();
    assert_eq!(log.len(), 100);
    for (i, (seq, op)) in log.iter().enumerate() {
        assert_eq!(*seq, i as u64 + 1);
        assert_eq!(op, &Operation::Insert { new: rec(i as i64) });
    }
}

#[test]
fn test_validation_missing_input_and_output() {
    let mut dag = Dag::new();
    dag.add_node(sink(vec![1]), "K".to_string());
    dag.add_node(source(vec![1]), "S".to_string());
    // no edges at all: the sink has no input
    let none: Vec<SourceScript> = Vec::new();
    let r = Simulation::new(&dag, &none, 1);
    assert!(matches!(r, Err(ExecutionError::MissingNodeInput(h)) if h == "K"));

    let mut dag3 = Dag::new();
    dag3.add_node(source(vec![1, 2]), "S".to_string());
    dag3.add_node(sink(vec![1]), "K".to_string());
    dag3.add_node(processor(vec![2], vec![9]), "P".to_string());
    dag3.connect(Endpoint::new("S".to_string(), 1), Endpoint::new("K".to_string(), 1)).unwrap();
    dag3.connect(Endpoint::new("S".to_string(), 2), Endpoint::new("P".to_string(), 2)).unwrap();
    // the processor has no outgoing edge
    let r = Simulation::new(&dag3, &none, 1);
    assert!(matches!(r, Err(ExecutionError::MissingNodeOutput(h)) if h == "P"));
}

#[test]
fn test_cyclic_graph_never_settles() {
    // cycles are outside the DAG contract: the schema handshake chases
    // itself forever, so a bounded run exhausts its budget
    let mut dag = Dag::new();
    dag.add_node(source(vec![1]), "S".to_string());
    dag.add_node(processor(vec![1], vec![2]), "P1".to_string());
    dag.add_node(processor(vec![2], vec![3]), "P2".to_string());
    dag.connect(Endpoint::new("S".to_string(), 1), Endpoint::new("P1".to_string(), 1)).unwrap();
    dag.connect(Endpoint::new("P1".to_string(), 2), Endpoint::new("P2".to_string(), 2)).unwrap();
    dag.connect(Endpoint::new("P2".to_string(), 3), Endpoint::new("P1".to_string(), 1)).unwrap();

    let scripts = vec![SourceScript {
        handle: "S".to_string(),
        events: vec![(1, schema_update())],
    }];
    let mut sim = Simulation::new(&dag, &scripts, 2).unwrap();
    assert_eq!(sim.run(500).unwrap(), SimOutcome::OutOfFuel);
}

#[test]
fn test_unscripted_source_just_terminates() {
    let mut dag = Dag::new();
    dag.add_node(source(vec![1]), "S".to_string());
    dag.add_node(sink(vec![1]), "K".to_string());
    dag.connect(Endpoint::new("S".to_string(), 1), Endpoint::new("K".to_string(), 1)).unwrap();

    let none: Vec<SourceScript> = Vec::new();
    let mut sim = Simulation::new(&dag, &none, 3).unwrap();
    assert_eq!(sim.run(1_000).unwrap(), SimOutcome::Completed);
    assert_eq!(sim.sink_log(&"K".to_string()).unwrap().len(), 0);
}
