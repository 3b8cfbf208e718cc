use dozer_core::dag::{Dag, Edge, Endpoint, Node, NodeType, PortDirection, ProcessorNode, SinkNode,
    SourceNode};
use dozer_core::errors::ExecutionError;


fn source(ports: Vec<u16>) -> NodeType {
    NodeType::Source(SourceNode { output_ports: ports, stateful: false })
}

fn processor(input: Vec<u16>, output: Vec<u16>) -> NodeType {
    NodeType::Processor(ProcessorNode { input_ports: input, output_ports: output, stateful: false })
}

fn sink(ports: Vec<u16>) -> NodeType {
    NodeType::Sink(SinkNode { input_ports: ports, stateful: false })
}

#[test]
fn test_endpoint_and_edge_new() {
    let e = Endpoint::new("n".to_string(), 7);
    assert_eq!(e.node, "n");
    assert_eq!(e.port, 7);
    let edge = Edge::new(Endpoint::new("a".to_string(), 1), Endpoint::new("b".to_string(), 2));
    assert_eq!(edge.from.node, "a");
    assert_eq!(edge.to.port, 2);
}

#[test]
fn test_connect_ok() {
    let mut dag = Dag::new();
    dag.add_node(source(vec![1]), "src".to_string());
    dag.add_node(sink(vec![2]), "snk".to_string());
    let r = dag.connect(Endpoint::new("src".to_string(), 1), Endpoint::new("snk".to_string(), 2));
    assert_eq!(r, Ok(()));
    assert_eq!(dag.edges.len(), 1);
    assert_eq!(dag.edges[0].from.node, "src");
    assert_eq!(dag.edges[0].to.node, "snk");
}

#[test]
fn test_connect_unknown_nodes() {
    let mut dag = Dag::new();
    dag.add_node(source(vec![1]), "src".to_string());
    let r = dag.connect(Endpoint::new("ghost".to_string(), 1), Endpoint::new("src".to_string(), 1));
    assert_eq!(r, Err(ExecutionError::UnknownNode("ghost".to_string())));
    let r2 = dag.connect(Endpoint::new("src".to_string(), 1), Endpoint::new("ghost".to_string(), 1));
    assert_eq!(r2, Err(ExecutionError::UnknownNode("ghost".to_string())));
    assert_eq!(dag.edges.len(), 0);
}

#[test]
fn test_connect_invalid_direction() {
    let mut dag = Dag::new();
    dag.add_node(sink(vec![1]), "a".to_string());
    dag.add_node(sink(vec![1]), "b".to_string());
    // a sink has no output ports, so connecting out of one is refused
    let r = dag.connect(Endpoint::new("a".to_string(), 1), Endpoint::new("b".to_string(), 1));
    assert_eq!(r, Err(ExecutionError::InvalidPortDirection));
}

#[test]
fn test_connect_unknown_port() {
    let mut dag = Dag::new();
    dag.add_node(source(vec![1]), "src".to_string());
    dag.add_node(sink(vec![2]), "snk".to_string());
    let r = dag.connect(Endpoint::new("src".to_string(), 9), Endpoint::new("snk".to_string(), 2));
    assert_eq!(r, Err(ExecutionError::UnknownPort("src".to_string(), 9)));
    let r2 = dag.connect(Endpoint::new("src".to_string(), 1), Endpoint::new("snk".to_string(), 9));
    assert_eq!(r2, Err(ExecutionError::UnknownPort("snk".to_string(), 9)));
}

#[test]
fn test_add_node_replaces() {
    let mut dag = Dag::new();
    dag.add_node(source(vec![1]), "n".to_string());
    dag.add_node(source(vec![5]), "n".to_string());
    assert_eq!(dag.nodes.len(), 1);
    match &dag.nodes[0].t {
        NodeType::Source(s) => assert_eq!(s.output_ports, vec![5]),
        _ => panic!("expected a source"),
    }
}

#[test]
fn test_get_ports() {
    let dag = Dag::new();
    let p = processor(vec![1], vec![2]);
    assert_eq!(dag.get_ports(&p, PortDirection::Input), Ok(vec![1]));
    assert_eq!(dag.get_ports(&p, PortDirection::Output), Ok(vec![2]));
    let s = sink(vec![3]);
    assert_eq!(dag.get_ports(&s, PortDirection::Input), Ok(vec![3]));
    assert_eq!(dag.get_ports(&s, PortDirection::Output), Err(ExecutionError::InvalidPortDirection));
    let src = source(vec![4]);
    assert_eq!(dag.get_ports(&src, PortDirection::Output), Ok(vec![4]));
    assert_eq!(
        dag.get_ports(&src, PortDirection::Input),
        Err(ExecutionError::InvalidPortDirection)
    );
}

#[test]
fn test_merge_prefixes_handles_and_edges() {
    let mut inner = Dag::new();
    inner.add_node(source(vec![1]), "s".to_string());
    inner.add_node(sink(vec![1]), "k".to_string());
    inner
        .connect(Endpoint::new("s".to_string(), 1), Endpoint::new("k".to_string(), 1))
        .unwrap();

    let mut outer = Dag::new();
    outer.add_node(source(vec![9]), "top".to_string());
    outer.merge("ns".to_string(), inner).unwrap();

    let handles: Vec<&str> = outer.nodes.iter().map(|n: &Node| n.handle.as_str()).collect();
    assert!(handles.contains(&"top"));
    assert!(handles.contains(&"ns/s"));
    assert!(handles.contains(&"ns/k"));
    assert_eq!(outer.edges.len(), 1);
    assert_eq!(outer.edges[0].from.node, "ns/s");
    assert_eq!(outer.edges[0].to.node, "ns/k");
    assert_eq!(outer.edges[0].from.port, 1);
}

#[test]
fn test_merge_refuses_colliding_handles() {
    let mut inner = Dag::new();
    inner.add_node(source(vec![1]), "s".to_string());
    inner.add_node(sink(vec![1]), "k".to_string());
    inner
        .connect(Endpoint::new("s".to_string(), 1), Endpoint::new("k".to_string(), 1))
        .unwrap();

    let mut outer = Dag::new();
    outer.add_node(source(vec![9]), "ns/k".to_string());
    let node_count = outer.nodes.len();
    let edge_count = outer.edges.len();
    let r = outer.merge("ns".to_string(), inner);
    assert_eq!(r, Err(ExecutionError::DuplicateNodeHandle("ns/k".to_string())));
    // a refused merge changes nothing
    assert_eq!(outer.nodes.len(), node_count);
    assert_eq!(outer.edges.len(), edge_count);
}
