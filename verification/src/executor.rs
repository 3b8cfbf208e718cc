use vstd::prelude::*;
use crate::dag::{Dag, NodeHandle, PortHandle, PortDirection, NodeType, SourceNode, ProcessorNode,
    SinkNode, kind_eq, copy_ports};
use crate::errors::ExecutionError;
use crate::types::{Record, Schema, Operation};

verus! {

/// Indexes a schema seen during development: the node, the port, and
/// whether the schema entered or left there.
#[derive(Clone, Debug, PartialEq, Eq, Hash)]
pub struct SchemaKey {
    pub node_handle: NodeHandle,
    pub port_handle: PortHandle,
    pub direction: PortDirection,
}

impl SchemaKey {
    pub fn new(node_handle: NodeHandle, port_handle: PortHandle, direction: PortDirection) -> (r:
        Self)
        ensures
            r.node_handle == node_handle,
            r.port_handle == port_handle,
            r.direction == direction,
    {
        Self { node_handle, port_handle, direction }
    }
}

/// The reserved sentinel port of operators that declare no named ports.
pub const DEFAULT_PORT_HANDLE: u16 = 0xffff;

/// The message an edge's channel carries: a data operation tagged with
/// its source sequence number, a schema update, or the terminate
/// signal.
#[derive(Clone, Debug, PartialEq)]
pub enum ExecutorOperation {
    Delete { seq: u64, old: Record },
    Insert { seq: u64, new: Record },
    Update { seq: u64, old: Record, new: Record },
    SchemaUpdate { new: Schema },
    Terminate,
}

impl ExecutorOperation {
    /// The name of the message's kind.
    pub fn kind_name(&self) -> (r: String)
        ensures
            self is Delete ==> r@ == "Delete"@,
            self is Update ==> r@ == "Update"@,
            self is Insert ==> r@ == "Insert"@,
            self is SchemaUpdate ==> r@ == "SchemaUpdate"@,
            self is Terminate ==> r@ == "Terminate"@,
    {
        let type_str = match self {
            ExecutorOperation::Delete { .. } => "Delete",
            ExecutorOperation::Update { .. } => "Update",
            ExecutorOperation::Insert { .. } => "Insert",
            ExecutorOperation::SchemaUpdate { .. } => "SchemaUpdate",
            ExecutorOperation::Terminate => "Terminate",
        };
        type_str.to_owned()
    }
}

/// Indexes one side of the edge list: per endpoint, the positions into
/// `dag.edges` of the edges that use it.
pub type EndpointIndex = Vec<((NodeHandle, PortHandle), Vec<usize>)>;

/// The endpoint a key function reads from an edge.
pub type EdgeKeyFn = spec_fn(crate::dag::Edge) -> (Seq<char>, u16);

/// The `from` endpoint of an edge.
pub open spec fn from_key() -> EdgeKeyFn {
    |e: crate::dag::Edge| (e.from.node@, e.from.port)
}

/// The `to` endpoint of an edge.
pub open spec fn to_key() -> EdgeKeyFn {
    |e: crate::dag::Edge| (e.to.node@, e.to.port)
}

/// The positions among the first `n` edges whose `kf` endpoint is
/// `key`, in edge order.
pub open spec fn spec_edges_matching(
    edges: Seq<crate::dag::Edge>,
    key: (Seq<char>, u16),
    n: int,
    kf: EdgeKeyFn,
) -> Seq<int>
    decreases n,
{
    if n <= 0 {
        Seq::empty()
    } else {
        let prev = spec_edges_matching(edges, key, n - 1, kf);
        if kf(edges[n - 1]) == key {
            prev.push(n - 1)
        } else {
            prev
        }
    }
}

/// If none of the first `n` edges uses `key`, nothing matches it.
proof fn lemma_matching_empty(
    edges: Seq<crate::dag::Edge>,
    key: (Seq<char>, u16),
    n: int,
    kf: EdgeKeyFn,
)
    requires
        0 <= n <= edges.len(),
        forall|j: int| 0 <= j < n ==> kf(#[trigger] edges[j]) != key,
    ensures
        spec_edges_matching(edges, key, n, kf) =~= Seq::<int>::empty(),
    decreases n,
{
    if n > 0 {
        lemma_matching_empty(edges, key, n - 1, kf);
    }
}

/// All indices are distinct.
pub open spec fn indices_distinct(v: Seq<usize>) -> bool {
    forall|a: int, b: int| 0 <= a < b < v.len() ==> v[a] != v[b]
}

/// All indices fall below `n`.
pub open spec fn indices_below(v: Seq<usize>, n: int) -> bool {
    forall|a: int| 0 <= a < v.len() ==> (#[trigger] v[a]) < n
}

/// Matching edge positions are strictly increasing and in range.
proof fn lemma_matching_bounds(
    edges: Seq<crate::dag::Edge>,
    key: (Seq<char>, u16),
    n: int,
    kf: EdgeKeyFn,
)
    requires
        n >= 0,
    ensures
        forall|k: int|
            0 <= k < spec_edges_matching(edges, key, n, kf).len() ==> 0 <= (
            #[trigger] spec_edges_matching(edges, key, n, kf)[k]) < n,
        forall|a: int, b: int|
            0 <= a < b < spec_edges_matching(edges, key, n, kf).len() ==> spec_edges_matching(
                edges,
                key,
                n,
                kf,
            )[a] < spec_edges_matching(edges, key, n, kf)[b],
    decreases n,
{
    if n > 0 {
        lemma_matching_bounds(edges, key, n - 1, kf);
        let prev = spec_edges_matching(edges, key, n - 1, kf);
        let cur = spec_edges_matching(edges, key, n, kf);
        assert forall|k: int| 0 <= k < cur.len() implies 0 <= (#[trigger] cur[k]) < n by {
            if k < prev.len() {
                assert(cur[k] == prev[k]);
            }
        }
        assert forall|a: int, b: int| 0 <= a < b < cur.len() implies cur[a] < cur[b] by {
            if b < prev.len() {
                assert(cur[a] == prev[a] && cur[b] == prev[b]);
            } else {
                assert(cur[a] == prev[a]);
                assert(prev[a] < n - 1);
            }
        }
    }
}

/// Bounds and distinctness carried over to an index vector whose
/// mapped view is a matching list.
proof fn lemma_matching_vec(v: Seq<usize>, edges: Seq<crate::dag::Edge>, key: (Seq<char>, u16), n: int, kf: EdgeKeyFn)
    requires
        n >= 0,
        v.map_values(|x: usize| x as int) == spec_edges_matching(edges, key, n, kf),
    ensures
        indices_below(v, n),
        indices_distinct(v),
{
    lemma_matching_bounds(edges, key, n, kf);
    let m = spec_edges_matching(edges, key, n, kf);
    assert(v.len() == m.len());
    assert forall|a: int| 0 <= a < v.len() implies (#[trigger] v[a]) < n by {
        assert(m[a] == v[a] as int);
    }
    assert forall|a: int, b: int| 0 <= a < b < v.len() implies v[a] != v[b] by {
        assert(m[a] == v[a] as int);
        assert(m[b] == v[b] as int);
    }
}

/// Something among the first `n` edges matches `key` exactly when the
/// matching list is nonempty.
proof fn lemma_matching_nonempty(
    edges: Seq<crate::dag::Edge>,
    key: (Seq<char>, u16),
    n: int,
    kf: EdgeKeyFn,
)
    requires
        0 <= n <= edges.len(),
    ensures
        spec_edges_matching(edges, key, n, kf).len() > 0 <==> exists|j: int|
            0 <= j < n && kf(#[trigger] edges[j]) == key,
    decreases n,
{
    if n > 0 {
        lemma_matching_nonempty(edges, key, n - 1, kf);
        if kf(edges[n - 1]) == key {
            assert(kf(edges[n - 1]) == key);
        }
    }
}

/// A key of the endpoint index: node and port.
pub open spec fn index_key(e: ((NodeHandle, PortHandle), Vec<usize>)) -> (Seq<char>, u16) {
    (e.0.0@, e.0.1)
}

/// The endpoint index is sound and complete for the first `n` edges
/// under key function `kf`: each entry lists exactly the matching edge
/// positions in edge order, keys are distinct, and every edge's
/// endpoint has an entry.
pub open spec fn index_exact(
    idx: Seq<((NodeHandle, PortHandle), Vec<usize>)>,
    edges: Seq<crate::dag::Edge>,
    n: int,
    kf: EdgeKeyFn,
) -> bool {
    &&& forall|a: int|
        0 <= a < idx.len() ==> (#[trigger] idx[a]).1@.map_values(|x: usize| x as int)
            == spec_edges_matching(edges, index_key(idx[a]), n, kf)
    &&& forall|a: int, b: int|
        0 <= a < b < idx.len() ==> index_key(#[trigger] idx[a]) != index_key(#[trigger] idx[b])
    &&& forall|j: int|
        0 <= j < n ==> exists|a: int|
            0 <= a < idx.len() && index_key(#[trigger] idx[a]) == kf(#[trigger] edges[j])
}

/// Appends edge position `i`, whose `kf` endpoint is `(h, p)`, to the
/// index, opening a new entry when the endpoint has none yet.
fn index_insert(
    idx: &mut EndpointIndex,
    h: &NodeHandle,
    p: PortHandle,
    i: usize,
    Ghost(edges): Ghost<Seq<crate::dag::Edge>>,
    Ghost(kf): Ghost<EdgeKeyFn>,
)
    requires
        (i as int) < edges.len(),
        kf(edges[i as int]) == (h@, p),
        index_exact(old(idx)@, edges, i as int, kf),
    ensures
        index_exact(final(idx)@, edges, i as int + 1, kf),
{
    let ghost pre = idx@;
    let mut a: usize = 0;
    while a < idx.len()
        invariant
            a <= idx@.len(),
            idx@ == pre,
            (i as int) < edges.len(),
            kf(edges[i as int]) == (h@, p),
            index_exact(pre, edges, i as int, kf),
            forall|j: int| 0 <= j < a ==> index_key(#[trigger] idx@[j]) != (h@, p),
        decreases idx@.len() - a,
    {
        if idx[a].0.0 == *h && idx[a].0.1 == p {
            proof {
                assert(index_key(pre[a as int]) == (h@, p));
            }
            let entry = idx.remove(a);
            let key = entry.0;
            let mut list = entry.1;
            list.push(i);
            idx.insert(a, (key, list));
            proof {
                assert(idx@.len() == pre.len());
                assert forall|j: int| 0 <= j < pre.len() && j != a implies idx@[j] == pre[j] by {
                    if j < a {
                        assert(idx@[j] == pre.remove(a as int)[j]);
                    } else {
                        assert(idx@[j] == pre.remove(a as int)[j - 1]);
                        assert(pre.remove(a as int)[j - 1] == pre[j]);
                    }
                }
                assert(idx@[a as int].0 == pre[a as int].0);
                assert(idx@[a as int].1@ == pre[a as int].1@.push(i));
                assert forall|b: int| 0 <= b < idx@.len() implies (#[trigger] idx@[b]).1@.map_values(
                    |x: usize| x as int,
                ) == spec_edges_matching(edges, index_key(idx@[b]), i as int + 1, kf) by {
                    if b == a {
                        assert(idx@[b].1@.map_values(|x: usize| x as int) =~= pre[b].1@.map_values(
                            |x: usize| x as int,
                        ).push(i as int));
                    } else {
                        assert(idx@[b] == pre[b]);
                        assert(index_key(pre[b]) != (h@, p));
                    }
                }
                assert forall|j: int| 0 <= j < i as int + 1 implies exists|c: int|
                    0 <= c < idx@.len() && index_key(#[trigger] idx@[c]) == kf(
                        #[trigger] edges[j],
                    ) by {
                    if j < i as int {
                        let c = choose|c: int|
                            0 <= c < pre.len() && index_key(#[trigger] pre[c]) == kf(edges[j]);
                        assert(index_key(idx@[c]) == index_key(pre[c]));
                    } else {
                        assert(index_key(idx@[a as int]) == kf(edges[i as int]));
                    }
                }
            }
            return ;
        }
        a = a + 1;
    }
    proof {
        assert forall|j: int| 0 <= j < i as int implies kf(#[trigger] edges[j]) != (h@, p) by {
            let c = choose|c: int| 0 <= c < pre.len() && index_key(#[trigger] pre[c]) == kf(edges[j]);
        }
        lemma_matching_empty(edges, (h@, p), i as int, kf);
    }
    let mut list: Vec<usize> = Vec::new();
    list.push(i);
    idx.push(((h.clone(), p), list));
    proof {
        let m = pre.len() as int;
        assert(idx@.len() == pre.len() + 1);
        assert(forall|j: int| 0 <= j < pre.len() ==> idx@[j] == pre[j]);
        assert(index_key(idx@[m]) == (h@, p));
        assert(idx@[m].1@.map_values(|x: usize| x as int) =~= seq![i as int]);
        assert forall|b: int| 0 <= b < idx@.len() implies (#[trigger] idx@[b]).1@.map_values(
            |x: usize| x as int,
        ) == spec_edges_matching(edges, index_key(idx@[b]), i as int + 1, kf) by {
            if b == m {
                assert(spec_edges_matching(edges, (h@, p), i as int + 1, kf)
                    =~= seq![i as int]);
            } else {
                assert(idx@[b] == pre[b]);
                assert(index_key(pre[b]) != (h@, p));
            }
        }
        assert forall|j: int| 0 <= j < i as int + 1 implies exists|c: int|
            0 <= c < idx@.len() && index_key(#[trigger] idx@[c]) == kf(#[trigger] edges[j]) by {
            if j < i as int {
                let c = choose|c: int|
                    0 <= c < pre.len() && index_key(#[trigger] pre[c]) == kf(edges[j]);
                assert(index_key(idx@[c]) == index_key(pre[c]));
            } else {
                assert(index_key(idx@[m]) == kf(edges[i as int]));
            }
        }
    }
}

/// The positions of the edges that leave port `p` of node `h`.
pub fn edges_from(dag: &Dag, h: &NodeHandle, p: PortHandle) -> (r: Vec<usize>)
    ensures
        r@.map_values(|x: usize| x as int) == spec_edges_matching(
            dag.edges@,
            (h@, p),
            dag.edges@.len() as int,
            from_key(),
        ),
        indices_below(r@, dag.edges@.len() as int),
        indices_distinct(r@),
        r@.len() > 0 <==> exists|j: int|
            0 <= j < dag.edges@.len() && (#[trigger] dag.edges@[j]).from.node@ == h@
                && dag.edges@[j].from.port == p,
{
    let mut out: Vec<usize> = Vec::new();
    let mut i: usize = 0;
    proof {
        assert(out@.map_values(|x: usize| x as int) =~= spec_edges_matching(
            dag.edges@,
            (h@, p),
            0,
            from_key(),
        ));
    }
    while i < dag.edges.len()
        invariant
            i <= dag.edges@.len(),
            out@.map_values(|x: usize| x as int) == spec_edges_matching(
                dag.edges@,
                (h@, p),
                i as int,
                from_key(),
            ),
        decreases dag.edges@.len() - i,
    {
        let e = &dag.edges[i];
        proof {
            assert(from_key()(dag.edges@[i as int]) == (
                dag.edges@[i as int].from.node@,
                dag.edges@[i as int].from.port,
            ));
        }
        if e.from.node == *h && e.from.port == p {
            out.push(i);
            proof {
                assert(out@.map_values(|x: usize| x as int) =~= spec_edges_matching(
                    dag.edges@,
                    (h@, p),
                    i as int + 1,
                    from_key(),
                ));
            }
        }
        i = i + 1;
    }
    proof {
        lemma_matching_vec(out@, dag.edges@, (h@, p), dag.edges@.len() as int, from_key());
        lemma_matching_nonempty(dag.edges@, (h@, p), dag.edges@.len() as int, from_key());
        assert forall|j: int|
            0 <= j < dag.edges@.len() implies (from_key()(#[trigger] dag.edges@[j]) == (h@, p))
            == (dag.edges@[j].from.node@ == h@ && dag.edges@[j].from.port == p) by {}
    }
    out
}

/// The positions of the edges that arrive at port `p` of node `h`.
pub fn edges_into(dag: &Dag, h: &NodeHandle, p: PortHandle) -> (r: Vec<usize>)
    ensures
        r@.map_values(|x: usize| x as int) == spec_edges_matching(
            dag.edges@,
            (h@, p),
            dag.edges@.len() as int,
            to_key(),
        ),
        indices_below(r@, dag.edges@.len() as int),
        indices_distinct(r@),
        r@.len() > 0 <==> exists|j: int|
            0 <= j < dag.edges@.len() && (#[trigger] dag.edges@[j]).to.node@ == h@
                && dag.edges@[j].to.port == p,
{
    let mut out: Vec<usize> = Vec::new();
    let mut i: usize = 0;
    proof {
        assert(out@.map_values(|x: usize| x as int) =~= spec_edges_matching(
            dag.edges@,
            (h@, p),
            0,
            to_key(),
        ));
    }
    while i < dag.edges.len()
        invariant
            i <= dag.edges@.len(),
            out@.map_values(|x: usize| x as int) == spec_edges_matching(
                dag.edges@,
                (h@, p),
                i as int,
                to_key(),
            ),
        decreases dag.edges@.len() - i,
    {
        let e = &dag.edges[i];
        proof {
            assert(to_key()(dag.edges@[i as int]) == (
                dag.edges@[i as int].to.node@,
                dag.edges@[i as int].to.port,
            ));
        }
        if e.to.node == *h && e.to.port == p {
            out.push(i);
            proof {
                assert(out@.map_values(|x: usize| x as int) =~= spec_edges_matching(
                    dag.edges@,
                    (h@, p),
                    i as int + 1,
                    to_key(),
                ));
            }
        }
        i = i + 1;
    }
    proof {
        lemma_matching_vec(out@, dag.edges@, (h@, p), dag.edges@.len() as int, to_key());
        lemma_matching_nonempty(dag.edges@, (h@, p), dag.edges@.len() as int, to_key());
        assert forall|j: int|
            0 <= j < dag.edges@.len() implies (to_key()(#[trigger] dag.edges@[j]) == (h@, p)) == (
            dag.edges@[j].to.node@ == h@ && dag.edges@[j].to.port == p) by {}
    }
    out
}

/// The index entry for `(h, p)`, if present.
pub fn index_lookup<'x>(idx: &'x EndpointIndex, h: &NodeHandle, p: PortHandle) -> (r: Option<
    &'x Vec<usize>,
>)
    ensures
        match r {
            Some(v) => exists|a: int|
                0 <= a < idx@.len() && index_key(#[trigger] idx@[a]) == (h@, p) && idx@[a].1@
                    == v@,
            None => forall|a: int| 0 <= a < idx@.len() ==> index_key(#[trigger] idx@[a]) != (h@, p),
        },
{
    let mut a: usize = 0;
    while a < idx.len()
        invariant
            a <= idx@.len(),
            forall|j: int| 0 <= j < a ==> index_key(#[trigger] idx@[j]) != (h@, p),
        decreases idx@.len() - a,
    {
        if idx[a].0.0 == *h && idx[a].0.1 == p {
            proof {
                assert(index_key(idx@[a as int]) == (h@, p));
            }
            return Some(&idx[a].1);
        }
        a = a + 1;
    }
    None
}

/// The executor: one worker per node, one bounded channel per edge.
/// This verified core computes the edge indexes and drives the
/// per-worker state machines; the embedding program owns the threads
/// and channels.
pub struct MultiThreadedDagExecutor {
    channel_buf_sz: usize,
}

impl MultiThreadedDagExecutor {
    /// The configured per-edge channel capacity.
    pub closed spec fn buf_sz(&self) -> usize {
        self.channel_buf_sz
    }

    pub fn new(channel_buf_sz: usize) -> (r: Self)
        ensures
            r.buf_sz() == channel_buf_sz,
    {
        Self { channel_buf_sz }
    }

    /// The channel capacity, for the embedding program.
    pub fn channel_capacity(&self) -> (r: usize)
        ensures
            r == self.buf_sz(),
    {
        self.channel_buf_sz
    }

    /// Splits a data message into its sequence number and the operation
    /// handed to the operator; a control-plane message is an error that
    /// names its kind.
    pub fn map_to_op(op: ExecutorOperation) -> (r: Result<(u64, Operation), ExecutionError>)
        ensures
            op matches ExecutorOperation::Delete { seq, old } ==> r == Ok::<
                (u64, Operation),
                ExecutionError,
            >((seq, Operation::Delete { old })),
            op matches ExecutorOperation::Insert { seq, new } ==> r == Ok::<
                (u64, Operation),
                ExecutionError,
            >((seq, Operation::Insert { new })),
            op matches ExecutorOperation::Update { seq, old, new } ==> r == Ok::<
                (u64, Operation),
                ExecutionError,
            >((seq, Operation::Update { old, new })),
            op is SchemaUpdate ==> (r matches Err(ExecutionError::InvalidOperation(s)) && s@
                == "SchemaUpdate"@),
            op is Terminate ==> (r matches Err(ExecutionError::InvalidOperation(s)) && s@
                == "Terminate"@),
    {
        match op {
            ExecutorOperation::Delete { seq, old } => Ok((seq, Operation::Delete { old })),
            ExecutorOperation::Insert { seq, new } => Ok((seq, Operation::Insert { new })),
            ExecutorOperation::Update { seq, old, new } => Ok(
                (seq, Operation::Update { old, new }),
            ),
            _ => Err(ExecutionError::InvalidOperation(op.kind_name())),
        }
    }

    /// Partitions the DAG's nodes into sources, processors and sinks,
    /// each list in node order with the declarations its factories
    /// expose.
    pub fn get_node_types(&self, dag: &Dag) -> (r: (
        Vec<(NodeHandle, SourceNode)>,
        Vec<(NodeHandle, ProcessorNode)>,
        Vec<(NodeHandle, SinkNode)>,
    ))
        ensures
            ({
                let srcs = dag.nodes@.filter(|n: crate::dag::Node| n.t is Source);
                &&& r.0@.len() == srcs.len()
                &&& forall|k: int|
                    0 <= k < r.0@.len() ==> (#[trigger] r.0@[k]).0@ == srcs[k].handle@ && kind_eq(
                        NodeType::Source(r.0@[k].1),
                        srcs[k].t,
                    )
            }),
            ({
                let procs = dag.nodes@.filter(|n: crate::dag::Node| n.t is Processor);
                &&& r.1@.len() == procs.len()
                &&& forall|k: int|
                    0 <= k < r.1@.len() ==> (#[trigger] r.1@[k]).0@ == procs[k].handle@ && kind_eq(
                        NodeType::Processor(r.1@[k].1),
                        procs[k].t,
                    )
            }),
            ({
                let sinks = dag.nodes@.filter(|n: crate::dag::Node| n.t is Sink);
                &&& r.2@.len() == sinks.len()
                &&& forall|k: int|
                    0 <= k < r.2@.len() ==> (#[trigger] r.2@[k]).0@ == sinks[k].handle@ && kind_eq(
                        NodeType::Sink(r.2@[k].1),
                        sinks[k].t,
                    )
            }),
    {
        let ghost src_pred = |n: crate::dag::Node| n.t is Source;
        let ghost proc_pred = |n: crate::dag::Node| n.t is Processor;
        let ghost sink_pred = |n: crate::dag::Node| n.t is Sink;
        let mut sources: Vec<(NodeHandle, SourceNode)> = Vec::new();
        let mut processors: Vec<(NodeHandle, ProcessorNode)> = Vec::new();
        let mut sinks: Vec<(NodeHandle, SinkNode)> = Vec::new();
        proof {
            reveal(Seq::filter);
            assert(dag.nodes@.take(0) =~= Seq::<crate::dag::Node>::empty());
            assert(dag.nodes@.take(0).filter(src_pred) =~= Seq::<crate::dag::Node>::empty());
            assert(dag.nodes@.take(0).filter(proc_pred) =~= Seq::<crate::dag::Node>::empty());
            assert(dag.nodes@.take(0).filter(sink_pred) =~= Seq::<crate::dag::Node>::empty());
        }
        let mut i: usize = 0;
        while i < dag.nodes.len()
            invariant
                i <= dag.nodes@.len(),
                src_pred == (|n: crate::dag::Node| n.t is Source),
                proc_pred == (|n: crate::dag::Node| n.t is Processor),
                sink_pred == (|n: crate::dag::Node| n.t is Sink),
                ({
                    let srcs = dag.nodes@.take(i as int).filter(src_pred);
                    &&& sources@.len() == srcs.len()
                    &&& forall|k: int|
                        0 <= k < sources@.len() ==> (#[trigger] sources@[k]).0@ == srcs[k].handle@
                            && kind_eq(NodeType::Source(sources@[k].1), srcs[k].t)
                }),
                ({
                    let procs = dag.nodes@.take(i as int).filter(proc_pred);
                    &&& processors@.len() == procs.len()
                    &&& forall|k: int|
                        0 <= k < processors@.len() ==> (#[trigger] processors@[k]).0@
                            == procs[k].handle@ && kind_eq(
                            NodeType::Processor(processors@[k].1),
                            procs[k].t,
                        )
                }),
                ({
                    let snks = dag.nodes@.take(i as int).filter(sink_pred);
                    &&& sinks@.len() == snks.len()
                    &&& forall|k: int|
                        0 <= k < sinks@.len() ==> (#[trigger] sinks@[k]).0@ == snks[k].handle@
                            && kind_eq(NodeType::Sink(sinks@[k].1), snks[k].t)
                }),
            decreases dag.nodes@.len() - i,
        {
            let node = &dag.nodes[i];
            proof {
                reveal(Seq::filter);
                assert(dag.nodes@.take(i as int + 1).drop_last() =~= dag.nodes@.take(i as int));
                assert(dag.nodes@.take(i as int + 1).last() == dag.nodes@[i as int]);
            }
            match &node.t {
                NodeType::Source(s) => {
                    sources.push(
                        (
                            node.handle.clone(),
                            SourceNode {
                                output_ports: copy_ports(&s.output_ports),
                                stateful: s.stateful,
                            },
                        ),
                    );
                },
                NodeType::Processor(p) => {
                    processors.push(
                        (
                            node.handle.clone(),
                            ProcessorNode {
                                input_ports: copy_ports(&p.input_ports),
                                output_ports: copy_ports(&p.output_ports),
                                stateful: p.stateful,
                            },
                        ),
                    );
                },
                NodeType::Sink(s) => {
                    sinks.push(
                        (
                            node.handle.clone(),
                            SinkNode {
                                input_ports: copy_ports(&s.input_ports),
                                stateful: s.stateful,
                            },
                        ),
                    );
                },
            }
            i = i + 1;
        }
        proof {
            assert(dag.nodes@.take(dag.nodes@.len() as int) =~= dag.nodes@);
        }
        (sources, processors, sinks)
    }

    /// Indexes the edge list by endpoint: every edge's position appears
    /// in the sender index under its `from` endpoint and in the
    /// receiver index under its `to` endpoint, each entry listing
    /// exactly the edges of its endpoint in edge order.
    pub fn index_edges(&self, dag: &Dag) -> (r: (EndpointIndex, EndpointIndex))
        ensures
            index_exact(r.0@, dag.edges@, dag.edges@.len() as int, from_key()),
            index_exact(r.1@, dag.edges@, dag.edges@.len() as int, to_key()),
    {
        let mut senders: EndpointIndex = Vec::new();
        let mut receivers: EndpointIndex = Vec::new();
        let mut i: usize = 0;
        while i < dag.edges.len()
            invariant
                i <= dag.edges@.len(),
                index_exact(senders@, dag.edges@, i as int, from_key()),
                index_exact(receivers@, dag.edges@, i as int, to_key()),
            decreases dag.edges@.len() - i,
        {
            let edge = &dag.edges[i];
            proof {
                assert(from_key()(dag.edges@[i as int]) == (
                    dag.edges@[i as int].from.node@,
                    dag.edges@[i as int].from.port,
                ));
                assert(to_key()(dag.edges@[i as int]) == (
                    dag.edges@[i as int].to.node@,
                    dag.edges@[i as int].to.port,
                ));
            }
            index_insert(
                &mut senders,
                &edge.from.node,
                edge.from.port,
                i,
                Ghost(dag.edges@),
                Ghost(from_key()),
            );
            index_insert(
                &mut receivers,
                &edge.to.node,
                edge.to.port,
                i,
                Ghost(dag.edges@),
                Ghost(to_key()),
            );
            i = i + 1;
        }
        (senders, receivers)
    }
}

} // verus!
