use vstd::prelude::*;
use vstd::string::StringExecFns;
use crate::errors::ExecutionError;

verus! {

/// A node's identifier, unique within a DAG. Namespaced merging prefixes
/// handles with `"<namespace>/"`.
pub type NodeHandle = String;

/// A port's identifier within a node.
pub type PortHandle = u16;

/// One end of an edge: a node and one of its ports.
#[verifier::ext_equal]
#[derive(Clone, Debug, PartialEq, Eq, Hash)]
pub struct Endpoint {
    pub node: NodeHandle,
    pub port: PortHandle,
}

impl Endpoint {
    pub fn new(node: NodeHandle, port: PortHandle) -> (r: Self)
        ensures
            r.node == node,
            r.port == port,
    {
        Self { node, port }
    }
}

/// A directed edge from an output port to an input port.
#[verifier::ext_equal]
#[derive(Clone, Debug, PartialEq, Eq, Hash)]
pub struct Edge {
    pub from: Endpoint,
    pub to: Endpoint,
}

impl Edge {
    pub fn new(from: Endpoint, to: Endpoint) -> (r: Self)
        ensures
            r.from == from,
            r.to == to,
    {
        Self { from, to }
    }
}

/// What a source declares to the executor: its output ports and whether
/// it keeps state in a storage environment.
#[verifier::ext_equal]
#[derive(Clone, Debug, PartialEq, Eq)]
pub struct SourceNode {
    pub output_ports: Vec<PortHandle>,
    pub stateful: bool,
}

/// What a processor declares: input ports, output ports, statefulness.
#[verifier::ext_equal]
#[derive(Clone, Debug, PartialEq, Eq)]
pub struct ProcessorNode {
    pub input_ports: Vec<PortHandle>,
    pub output_ports: Vec<PortHandle>,
    pub stateful: bool,
}

/// What a sink declares: its input ports and statefulness.
#[verifier::ext_equal]
#[derive(Clone, Debug, PartialEq, Eq)]
pub struct SinkNode {
    pub input_ports: Vec<PortHandle>,
    pub stateful: bool,
}

/// A node's kind. Each variant carries the static declarations that the
/// node's operator factory exposes; the operator instances themselves are
/// built and driven by the embedding program.
#[verifier::ext_equal]
#[derive(Clone, Debug, PartialEq, Eq)]
pub enum NodeType {
    Source(SourceNode),
    Processor(ProcessorNode),
    Sink(SinkNode),
}

/// A named node of the DAG.
#[verifier::ext_equal]
#[derive(Clone, Debug, PartialEq, Eq)]
pub struct Node {
    pub handle: NodeHandle,
    pub t: NodeType,
}

/// The direction of a port.
#[derive(Clone, Debug, PartialEq, Eq, Hash)]
pub enum PortDirection {
    Input,
    Output,
}

/// A directed graph of nodes and edges. The node list models a map from
/// handle to node kind: handles are kept unique by `add_node`.
pub struct Dag {
    pub nodes: Vec<Node>,
    pub edges: Vec<Edge>,
}

/// Handles are pairwise distinct, so the node list is a map.
pub open spec fn handles_unique(nodes: Seq<Node>) -> bool {
    forall|i: int, j: int|
        0 <= i < j < nodes.len() ==> (#[trigger] nodes[i]).handle@ != (#[trigger] nodes[j]).handle@
}

/// Some node of the list carries the handle `h`.
pub open spec fn has_node(nodes: Seq<Node>, h: Seq<char>) -> bool {
    exists|i: int| 0 <= i < nodes.len() && (#[trigger] nodes[i]).handle@ == h
}

/// The kind of the node carrying handle `h` (meaningful when `has_node`).
pub open spec fn node_at(nodes: Seq<Node>, h: Seq<char>) -> NodeType {
    nodes[choose|i: int| 0 <= i < nodes.len() && (#[trigger] nodes[i]).handle@ == h].t
}

/// The output ports a node kind declares; a sink declares none.
pub open spec fn output_ports_of(t: NodeType) -> Option<Seq<PortHandle>> {
    match t {
        NodeType::Source(s) => Some(s.output_ports@),
        NodeType::Processor(p) => Some(p.output_ports@),
        NodeType::Sink(_) => None,
    }
}

/// The input ports a node kind declares; a source declares none.
pub open spec fn input_ports_of(t: NodeType) -> Option<Seq<PortHandle>> {
    match t {
        NodeType::Source(_) => None,
        NodeType::Processor(p) => Some(p.input_ports@),
        NodeType::Sink(s) => Some(s.input_ports@),
    }
}

/// The ports a node kind declares in the given direction.
pub open spec fn ports_of(t: NodeType, d: PortDirection) -> Option<Seq<PortHandle>> {
    match d {
        PortDirection::Output => output_ports_of(t),
        PortDirection::Input => input_ports_of(t),
    }
}

/// Both endpoints of the candidate edge exist, with the named ports
/// declared in the right directions.
pub open spec fn connect_ok(nodes: Seq<Node>, from: Endpoint, to: Endpoint) -> bool {
    &&& has_node(nodes, from.node@)
    &&& has_node(nodes, to.node@)
    &&& (output_ports_of(node_at(nodes, from.node@)) matches Some(ops) && ops.contains(from.port))
    &&& (input_ports_of(node_at(nodes, to.node@)) matches Some(ips) && ips.contains(to.port))
}

/// The first failure `connect` reports when `connect_ok` does not hold.
pub open spec fn connect_err(nodes: Seq<Node>, from: Endpoint, to: Endpoint) -> ExecutionError {
    if !has_node(nodes, from.node@) {
        ExecutionError::UnknownNode(from.node)
    } else if !has_node(nodes, to.node@) {
        ExecutionError::UnknownNode(to.node)
    } else if output_ports_of(node_at(nodes, from.node@)) is None {
        ExecutionError::InvalidPortDirection
    } else if !output_ports_of(node_at(nodes, from.node@)).unwrap().contains(from.port) {
        ExecutionError::UnknownPort(from.node, from.port)
    } else if input_ports_of(node_at(nodes, to.node@)) is None {
        ExecutionError::InvalidPortDirection
    } else {
        ExecutionError::UnknownPort(to.node, to.port)
    }
}

/// An edge already in the DAG satisfies what `connect` checks.
pub open spec fn edge_valid(nodes: Seq<Node>, e: Edge) -> bool {
    connect_ok(nodes, e.from, e.to)
}

/// Every edge of the DAG is valid: its nodes exist, its ports are
/// declared, and the directions are correct.
pub open spec fn edges_valid(nodes: Seq<Node>, edges: Seq<Edge>) -> bool {
    forall|i: int| 0 <= i < edges.len() ==> edge_valid(nodes, #[trigger] edges[i])
}

/// The node found at a position is the node `node_at` denotes.
proof fn lemma_node_at(nodes: Seq<Node>, i: int)
    requires
        handles_unique(nodes),
        0 <= i < nodes.len(),
    ensures
        has_node(nodes, nodes[i].handle@),
        node_at(nodes, nodes[i].handle@) == nodes[i].t,
{
    let h = nodes[i].handle@;
    assert(has_node(nodes, h));
    let j = choose|j: int| 0 <= j < nodes.len() && (#[trigger] nodes[j]).handle@ == h;
    assert(nodes[j].handle@ == h);
    if i != j {
        assert(false);
    }
}

/// Appending a valid edge keeps every edge valid.
///
/// Law: a DAG whose edges are all valid stays that way across a
/// successful `connect`, whose new edge `connect` itself validated.
pub proof fn lemma_connect_preserves_edge_validity(nodes: Seq<Node>, edges: Seq<Edge>, e: Edge)
    requires
        edges_valid(nodes, edges),
        edge_valid(nodes, e),
    ensures
        edges_valid(nodes, edges.push(e)),
{
    let pushed = edges.push(e);
    assert forall|i: int| 0 <= i < pushed.len() implies edge_valid(nodes, #[trigger] pushed[i]) by {
        if i < edges.len() {
            assert(pushed[i] == edges[i]);
        } else {
            assert(pushed[i] == e);
        }
    }
}

/// Adding a node under a fresh handle keeps every edge valid.
///
/// Law: `add_node` cannot invalidate existing edges as long as the new
/// handle is not already in use (a replacement may change ports).
pub proof fn lemma_add_fresh_node_preserves_edge_validity(
    nodes: Seq<Node>,
    edges: Seq<Edge>,
    n: Node,
)
    requires
        handles_unique(nodes),
        edges_valid(nodes, edges),
        !has_node(nodes, n.handle@),
    ensures
        edges_valid(nodes.push(n), edges),
{
    let grown = nodes.push(n);
    assert forall|i: int| 0 <= i < edges.len() implies edge_valid(grown, #[trigger] edges[i]) by {
        let e = edges[i];
        assert(edge_valid(nodes, e));
        lemma_node_preserved(nodes, n, e.from.node@);
        lemma_node_preserved(nodes, n, e.to.node@);
    }
}

/// A handle already present keeps its node when a fresh node is pushed.
proof fn lemma_node_preserved(nodes: Seq<Node>, n: Node, h: Seq<char>)
    requires
        handles_unique(nodes),
        !has_node(nodes, n.handle@),
        has_node(nodes, h),
    ensures
        has_node(nodes.push(n), h),
        node_at(nodes.push(n), h) == node_at(nodes, h),
{
    let grown = nodes.push(n);
    let i = choose|i: int| 0 <= i < nodes.len() && (#[trigger] nodes[i]).handle@ == h;
    assert(grown[i].handle@ == h);
    assert(has_node(grown, h));
    let j = choose|j: int| 0 <= j < grown.len() && (#[trigger] grown[j]).handle@ == h;
    assert(grown[j].handle@ == h);
    if j == nodes.len() {
        assert(grown[j] == n);
        assert(nodes[i].handle@ == n.handle@);
        assert(false);
    }
    assert(grown[j] == nodes[j]);
    let k = choose|k: int| 0 <= k < nodes.len() && (#[trigger] nodes[k]).handle@ == h;
    assert(nodes[k].handle@ == h);
    if j != k {
        assert(false);
    }
}

/// Whether `ports` holds `p`; the executable mirror of `Seq::contains`.
pub fn contains_port(ports: &Vec<PortHandle>, p: PortHandle) -> (r: bool)
    ensures
        r == ports@.contains(p),
{
    let mut i: usize = 0;
    while i < ports.len()
        invariant
            i <= ports.len(),
            forall|j: int| 0 <= j < i ==> ports@[j] != p,
        decreases ports.len() - i,
    {
        if ports[i] == p {
            return true;
        }
        i = i + 1;
    }
    false
}

/// A copy of a port list.
pub fn copy_ports(ports: &Vec<PortHandle>) -> (r: Vec<PortHandle>)
    ensures
        r@ == ports@,
{
    let mut out: Vec<PortHandle> = Vec::new();
    let mut i: usize = 0;
    while i < ports.len()
        invariant
            i <= ports.len(),
            out@ == ports@.take(i as int),
        decreases ports.len() - i,
    {
        out.push(ports[i]);
        i = i + 1;
    }
    assert(out@ == ports@);
    out
}

/// The position of the node carrying `h`, if any.
fn find_node_index(nodes: &Vec<Node>, h: &NodeHandle) -> (r: Option<usize>)
    ensures
        match r {
            Some(i) => i < nodes@.len() && nodes@[i as int].handle@ == h@,
            None => !has_node(nodes@, h@),
        },
{
    let mut i: usize = 0;
    while i < nodes.len()
        invariant
            i <= nodes.len(),
            forall|j: int| 0 <= j < i ==> (#[trigger] nodes@[j]).handle@ != h@,
        decreases nodes.len() - i,
    {
        if nodes[i].handle == *h {
            return Some(i);
        }
        i = i + 1;
    }
    None
}

impl Dag {
    /// Handles are unique, so the node list is a well-defined map.
    pub open spec fn wf(self) -> bool {
        handles_unique(self.nodes@)
    }

    /// An empty DAG.
    pub fn new() -> (r: Self)
        ensures
            r.nodes@.len() == 0,
            r.edges@.len() == 0,
            r.wf(),
    {
        Self { nodes: Vec::new(), edges: Vec::new() }
    }

    /// Inserts the node under `handle`, replacing any node already
    /// registered there. No cross-validation happens here.
    pub fn add_node(&mut self, node_builder: NodeType, handle: NodeHandle)
        requires
            old(self).wf(),
        ensures
            final(self).wf(),
            final(self).edges == old(self).edges,
            has_node(final(self).nodes@, handle@),
            node_at(final(self).nodes@, handle@) == node_builder,
            forall|h: Seq<char>|
                h != handle@ ==> (has_node(final(self).nodes@, h) == has_node(
                    old(self).nodes@,
                    h,
                ) && (has_node(old(self).nodes@, h) ==> node_at(final(self).nodes@, h) == node_at(
                    old(self).nodes@,
                    h,
                ))),
    {
        let ghost old_nodes = self.nodes@;
        let n = Node { handle, t: node_builder };
        match find_node_index(&self.nodes, &n.handle) {
            Some(i) => {
                self.nodes.set(i, n);
                proof {
                    lemma_point_update(old_nodes, self.nodes@, i as int);
                }
            },
            None => {
                self.nodes.push(n);
                proof {
                    lemma_push_fresh(old_nodes, self.nodes@);
                }
            },
        }
    }
}

/// After replacing the node at `i` by one with the same handle, lookups
/// behave as a map update.
proof fn lemma_point_update(old_nodes: Seq<Node>, new_nodes: Seq<Node>, i: int)
    requires
        handles_unique(old_nodes),
        0 <= i < old_nodes.len(),
        new_nodes.len() == old_nodes.len(),
        new_nodes[i].handle@ == old_nodes[i].handle@,
        forall|j: int| 0 <= j < old_nodes.len() && j != i ==> new_nodes[j] == old_nodes[j],
    ensures
        handles_unique(new_nodes),
        has_node(new_nodes, new_nodes[i].handle@),
        node_at(new_nodes, new_nodes[i].handle@) == new_nodes[i].t,
        forall|h: Seq<char>|
            h != new_nodes[i].handle@ ==> (has_node(new_nodes, h) == has_node(old_nodes, h) && (
            has_node(old_nodes, h) ==> node_at(new_nodes, h) == node_at(old_nodes, h))),
{
    assert forall|a: int, b: int| 0 <= a < b < new_nodes.len() implies (#[trigger] new_nodes[a]).handle@
        != (#[trigger] new_nodes[b]).handle@ by {
        assert(new_nodes[a].handle@ == old_nodes[a].handle@);
        assert(new_nodes[b].handle@ == old_nodes[b].handle@);
    }
    lemma_node_at(new_nodes, i);
    assert forall|h: Seq<char>| h != new_nodes[i].handle@ implies (has_node(new_nodes, h)
        == has_node(old_nodes, h) && (has_node(old_nodes, h) ==> node_at(new_nodes, h) == node_at(
        old_nodes,
        h,
    ))) by {
        if has_node(old_nodes, h) {
            let j = choose|j: int|
                0 <= j < old_nodes.len() && (#[trigger] old_nodes[j]).handle@ == h;
            assert(j != i);
            assert(new_nodes[j].handle@ == h);
            assert(has_node(new_nodes, h));
            lemma_node_at(old_nodes, j);
            lemma_node_at(new_nodes, j);
        }
        if has_node(new_nodes, h) {
            let j = choose|j: int|
                0 <= j < new_nodes.len() && (#[trigger] new_nodes[j]).handle@ == h;
            assert(j != i);
            assert(old_nodes[j].handle@ == h);
            assert(has_node(old_nodes, h));
        }
    }
}

/// After pushing a node under a fresh handle, lookups behave as a map
/// insertion.
proof fn lemma_push_fresh(old_nodes: Seq<Node>, new_nodes: Seq<Node>)
    requires
        handles_unique(old_nodes),
        new_nodes.len() == old_nodes.len() + 1,
        forall|j: int| 0 <= j < old_nodes.len() ==> new_nodes[j] == old_nodes[j],
        !has_node(old_nodes, new_nodes[old_nodes.len() as int].handle@),
    ensures
        handles_unique(new_nodes),
        has_node(new_nodes, new_nodes[old_nodes.len() as int].handle@),
        node_at(new_nodes, new_nodes[old_nodes.len() as int].handle@)
            == new_nodes[old_nodes.len() as int].t,
        forall|h: Seq<char>|
            h != new_nodes[old_nodes.len() as int].handle@ ==> (has_node(new_nodes, h) == has_node(
                old_nodes,
                h,
            ) && (has_node(old_nodes, h) ==> node_at(new_nodes, h) == node_at(old_nodes, h))),
{
    let n = old_nodes.len() as int;
    assert forall|a: int, b: int| 0 <= a < b < new_nodes.len() implies (#[trigger] new_nodes[a]).handle@
        != (#[trigger] new_nodes[b]).handle@ by {
        if b < n {
            assert(new_nodes[a] == old_nodes[a]);
            assert(new_nodes[b] == old_nodes[b]);
        } else {
            assert(new_nodes[a] == old_nodes[a]);
            if new_nodes[a].handle@ == new_nodes[b].handle@ {
                assert(has_node(old_nodes, new_nodes[b].handle@));
            }
        }
    }
    lemma_node_at(new_nodes, n);
    assert forall|h: Seq<char>| h != new_nodes[n].handle@ implies (has_node(new_nodes, h)
        == has_node(old_nodes, h) && (has_node(old_nodes, h) ==> node_at(new_nodes, h) == node_at(
        old_nodes,
        h,
    ))) by {
        if has_node(old_nodes, h) {
            let j = choose|j: int|
                0 <= j < old_nodes.len() && (#[trigger] old_nodes[j]).handle@ == h;
            assert(new_nodes[j].handle@ == h);
            assert(has_node(new_nodes, h));
            lemma_node_at(old_nodes, j);
            lemma_node_at(new_nodes, j);
        }
        if has_node(new_nodes, h) {
            let j = choose|j: int|
                0 <= j < new_nodes.len() && (#[trigger] new_nodes[j]).handle@ == h;
            assert(j != n);
            assert(old_nodes[j].handle@ == h);
            assert(has_node(old_nodes, h));
        }
    }
}

impl Dag {
    /// The ports of `n` in direction `d`; `InvalidPortDirection` when the
    /// kind has no ports in that direction.
    pub fn get_ports(&self, n: &NodeType, d: PortDirection) -> (r: Result<
        Vec<PortHandle>,
        ExecutionError,
    >)
        ensures
            ports_of(*n, d) matches Some(s) ==> (r matches Ok(v) && v@ == s),
            ports_of(*n, d) is None ==> r == Err::<Vec<PortHandle>, ExecutionError>(
                ExecutionError::InvalidPortDirection,
            ),
    {
        match n {
            NodeType::Processor(p) => {
                if matches!(d, PortDirection::Output) {
                    Ok(copy_ports(&p.output_ports))
                } else {
                    Ok(copy_ports(&p.input_ports))
                }
            },
            NodeType::Sink(s) => {
                if matches!(d, PortDirection::Output) {
                    Err(ExecutionError::InvalidPortDirection)
                } else {
                    Ok(copy_ports(&s.input_ports))
                }
            },
            NodeType::Source(s) => {
                if matches!(d, PortDirection::Output) {
                    Ok(copy_ports(&s.output_ports))
                } else {
                    Err(ExecutionError::InvalidPortDirection)
                }
            },
        }
    }

    /// Validates both endpoints and appends the edge.
    ///
    /// Succeeds exactly when both nodes exist, `from.port` is an output
    /// port of `from.node` and `to.port` an input port of `to.node`;
    /// otherwise reports the first failure and leaves the DAG unchanged.
    pub fn connect(&mut self, from: Endpoint, to: Endpoint) -> (r: Result<(), ExecutionError>)
        requires
            old(self).wf(),
        ensures
            final(self).wf(),
            r matches Ok(v) <==> connect_ok(old(self).nodes@, from, to),
            r is Ok ==> final(self).nodes == old(self).nodes && final(self).edges@ == old(
                self,
            ).edges@.push(Edge { from: from, to: to }),
            r matches Err(e) ==> *final(self) == *old(self) && e == connect_err(
                old(self).nodes@,
                from,
                to,
            ),
    {
        let src_idx = match find_node_index(&self.nodes, &from.node) {
            Some(i) => i,
            None => {
                return Err(ExecutionError::UnknownNode(from.node));
            },
        };
        let dst_idx = match find_node_index(&self.nodes, &to.node) {
            Some(i) => i,
            None => {
                return Err(ExecutionError::UnknownNode(to.node));
            },
        };
        proof {
            lemma_node_at(self.nodes@, src_idx as int);
            lemma_node_at(self.nodes@, dst_idx as int);
        }
        let src_output_ports = match self.get_ports_at(src_idx, PortDirection::Output) {
            Ok(v) => v,
            Err(_) => {
                return Err(ExecutionError::InvalidPortDirection);
            },
        };
        if !contains_port(&src_output_ports, from.port) {
            return Err(ExecutionError::UnknownPort(from.node, from.port));
        }
        let dst_input_ports = match self.get_ports_at(dst_idx, PortDirection::Input) {
            Ok(v) => v,
            Err(_) => {
                return Err(ExecutionError::InvalidPortDirection);
            },
        };
        if !contains_port(&dst_input_ports, to.port) {
            return Err(ExecutionError::UnknownPort(to.node, to.port));
        }
        self.edges.push(Edge::new(from, to));
        Ok(())
    }

    /// `get_ports` on the node stored at `i`.
    fn get_ports_at(&self, i: usize, d: PortDirection) -> (r: Result<
        Vec<PortHandle>,
        ExecutionError,
    >)
        requires
            i < self.nodes@.len(),
        ensures
            ports_of(self.nodes@[i as int].t, d) matches Some(s) ==> (r matches Ok(v) && v@ == s),
            ports_of(self.nodes@[i as int].t, d) is None ==> r == Err::<
                Vec<PortHandle>,
                ExecutionError,
            >(ExecutionError::InvalidPortDirection),
    {
        let node = &self.nodes[i];
        self.get_ports(&node.t, d)
    }
}

/// The handle `h` rewritten into `namespace`: `"<namespace>/<h>"`.
pub open spec fn prefixed(ns: Seq<char>, h: Seq<char>) -> Seq<char> {
    ns + "/"@ + h
}

/// Prefixing with one namespace never makes distinct handles collide.
pub proof fn lemma_prefixed_injective(ns: Seq<char>, a: Seq<char>, b: Seq<char>)
    requires
        prefixed(ns, a) == prefixed(ns, b),
    ensures
        a == b,
{
    let la = (ns + "/"@).len() as int;
    assert(prefixed(ns, a).skip(la) =~= a);
    assert(prefixed(ns, b).skip(la) =~= b);
}

/// Builds `"<namespace>/<handle>"`.
fn prefix_handle(namespace: &String, handle: &String) -> (r: String)
    ensures
        r@ == prefixed(namespace@, handle@),
{
    let mut h = namespace.clone();
    h.append("/");
    h.append(handle.as_str());
    proof {
        assert(h@ =~= prefixed(namespace@, handle@));
    }
    h
}

/// The two kinds agree variant for variant on their declared ports and
/// statefulness.
pub open spec fn kind_eq(a: NodeType, b: NodeType) -> bool {
    match (a, b) {
        (NodeType::Source(x), NodeType::Source(y)) => x.output_ports@ == y.output_ports@
            && x.stateful == y.stateful,
        (NodeType::Processor(x), NodeType::Processor(y)) => x.input_ports@ == y.input_ports@
            && x.output_ports@ == y.output_ports@ && x.stateful == y.stateful,
        (NodeType::Sink(x), NodeType::Sink(y)) => x.input_ports@ == y.input_ports@ && x.stateful
            == y.stateful,
        _ => false,
    }
}

/// A structural copy of a node kind.
fn copy_node_type(t: &NodeType) -> (r: NodeType)
    ensures
        kind_eq(r, *t),
{
    match t {
        NodeType::Source(s) => NodeType::Source(
            SourceNode { output_ports: copy_ports(&s.output_ports), stateful: s.stateful },
        ),
        NodeType::Processor(p) => NodeType::Processor(
            ProcessorNode {
                input_ports: copy_ports(&p.input_ports),
                output_ports: copy_ports(&p.output_ports),
                stateful: p.stateful,
            },
        ),
        NodeType::Sink(s) => NodeType::Sink(
            SinkNode { input_ports: copy_ports(&s.input_ports), stateful: s.stateful },
        ),
    }
}

impl Dag {
    /// Rewrites every handle of `other` to `"<namespace>/<handle>"` and
    /// unions the nodes and edges into this DAG. A rewritten handle
    /// that collides with an existing one fails the merge before
    /// anything is changed.
    pub fn merge(&mut self, namespace: String, other: Dag) -> (r: Result<(), ExecutionError>)
        requires
            old(self).wf(),
            other.wf(),
        ensures
            final(self).wf(),
            r is Ok <==> (forall|g: int|
                0 <= g < other.nodes@.len() ==> !has_node(
                    old(self).nodes@,
                    prefixed(namespace@, (#[trigger] other.nodes@[g]).handle@),
                )),
            r matches Err(e) ==> *final(self) == *old(self) && (e
                matches ExecutionError::DuplicateNodeHandle(h) && exists|g: int|
                0 <= g < other.nodes@.len() && h@ == prefixed(
                    namespace@,
                    (#[trigger] other.nodes@[g]).handle@,
                ) && has_node(old(self).nodes@, h@)),
            r is Ok ==> final(self).edges@.len() == old(self).edges@.len() + other.edges@.len(),
            r is Ok ==> forall|i: int|
                0 <= i < old(self).edges@.len() ==> final(self).edges@[i] == old(self).edges@[i],
            r is Ok ==> forall|i: int|
                0 <= i < other.edges@.len() ==> {
                    let e = #[trigger] other.edges@[i];
                    let f = final(self).edges@[old(self).edges@.len() + i];
                    &&& f.from.node@ == prefixed(namespace@, e.from.node@)
                    &&& f.from.port == e.from.port
                    &&& f.to.node@ == prefixed(namespace@, e.to.node@)
                    &&& f.to.port == e.to.port
                },
            r is Ok ==> forall|h: Seq<char>|
                has_node(other.nodes@, h) ==> has_node(
                    final(self).nodes@,
                    prefixed(namespace@, h),
                ) && kind_eq(
                    node_at(final(self).nodes@, prefixed(namespace@, h)),
                    node_at(other.nodes@, h),
                ),
            r is Ok ==> forall|h: Seq<char>|
                (has_node(old(self).nodes@, h) && !(exists|g: Seq<char>|
                    has_node(other.nodes@, g) && h == prefixed(namespace@, g))) ==> has_node(
                    final(self).nodes@,
                    h,
                ) && node_at(final(self).nodes@, h) == node_at(old(self).nodes@, h),
    {
        let mut g: usize = 0;
        while g < other.nodes.len()
            invariant
                g <= other.nodes@.len(),
                self.wf(),
                forall|j: int|
                    0 <= j < g ==> !has_node(
                        self.nodes@,
                        prefixed(namespace@, (#[trigger] other.nodes@[j]).handle@),
                    ),
                *self == *old(self),
            decreases other.nodes@.len() - g,
        {
            let h = prefix_handle(&namespace, &other.nodes[g].handle);
            match find_node_index(&self.nodes, &h) {
                Some(ix) => {
                    proof {
                        assert(has_node(self.nodes@, h@));
                    }
                    return Err(ExecutionError::DuplicateNodeHandle(h));
                },
                None => {},
            }
            g = g + 1;
        }
        let ghost old_self = *old(self);
        let mut i: usize = 0;
        while i < other.nodes.len()
            invariant
                self.wf(),
                other.wf(),
                i <= other.nodes@.len(),
                self.edges == old_self.edges,
                forall|j: int|
                    0 <= j < i ==> {
                        let g = (#[trigger] other.nodes@[j]).handle@;
                        &&& has_node(self.nodes@, prefixed(namespace@, g))
                        &&& kind_eq(
                            node_at(self.nodes@, prefixed(namespace@, g)),
                            node_at(other.nodes@, g),
                        )
                    },
                forall|h: Seq<char>|
                    !(exists|g: Seq<char>|
                        has_node(other.nodes@, g) && h == prefixed(namespace@, g)) ==> (has_node(
                        self.nodes@,
                        h,
                    ) == has_node(old_self.nodes@, h) && (has_node(old_self.nodes@, h)
                        ==> node_at(self.nodes@, h) == node_at(old_self.nodes@, h))),
            decreases other.nodes@.len() - i,
        {
            let node = &other.nodes[i];
            let h = prefix_handle(&namespace, &node.handle);
            let t = copy_node_type(&node.t);
            proof {
                lemma_node_at(other.nodes@, i as int);
            }
            self.add_node(t, h);
            proof {
                assert forall|j: int| 0 <= j < i + 1 implies {
                    let g = (#[trigger] other.nodes@[j]).handle@;
                    &&& has_node(self.nodes@, prefixed(namespace@, g))
                    &&& kind_eq(
                        node_at(self.nodes@, prefixed(namespace@, g)),
                        node_at(other.nodes@, g),
                    )
                } by {
                    let g = other.nodes@[j].handle@;
                    if j < i {
                        if prefixed(namespace@, g) != prefixed(namespace@, node.handle@) {
                        } else {
                            lemma_prefixed_injective(namespace@, g, node.handle@);
                            assert(g == node.handle@);
                            lemma_node_at(other.nodes@, j);
                        }
                    } else {
                        lemma_node_at(other.nodes@, i as int);
                    }
                }
            }
            i = i + 1;
        }
        let ghost mid_edges = self.edges@;
        let ghost mid_nodes = self.nodes@;
        let mut k: usize = 0;
        while k < other.edges.len()
            invariant
                self.wf(),
                k <= other.edges@.len(),
                self.nodes@ == mid_nodes,
                self.edges@.len() == mid_edges.len() + k,
                forall|j: int| 0 <= j < mid_edges.len() ==> self.edges@[j] == mid_edges[j],
                forall|j: int|
                    0 <= j < k ==> {
                        let e = #[trigger] other.edges@[j];
                        let f = self.edges@[mid_edges.len() + j];
                        &&& f.from.node@ == prefixed(namespace@, e.from.node@)
                        &&& f.from.port == e.from.port
                        &&& f.to.node@ == prefixed(namespace@, e.to.node@)
                        &&& f.to.port == e.to.port
                    },
                handles_unique(self.nodes@),
            decreases other.edges@.len() - k,
        {
            let edge = &other.edges[k];
            let from = Endpoint::new(prefix_handle(&namespace, &edge.from.node), edge.from.port);
            let to = Endpoint::new(prefix_handle(&namespace, &edge.to.node), edge.to.port);
            self.edges.push(Edge::new(from, to));
            k = k + 1;
        }
        Ok(())
    }
}

impl Default for Dag {
    /// An empty DAG.
    fn default() -> (r: Self)
        ensures
            r.nodes@.len() == 0,
            r.edges@.len() == 0,
            r.wf(),
    {
        Self::new()
    }
}

} // verus!
