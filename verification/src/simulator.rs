use vstd::prelude::*;
use crate::channel::ChannelQueue;
use crate::dag::{Dag, NodeHandle, PortHandle, NodeType};
use crate::errors::ExecutionError;
use crate::executor::{ExecutorOperation, edges_from, edges_into, indices_distinct, indices_below};
use crate::types::{Field, Record, Schema, Operation};
use crate::worker::{ProcessorWorker, SinkWorker, ProcessorAction, SinkAction};

verus! {

/// Two messages carry the same value.
pub open spec fn xop_eq(a: ExecutorOperation, b: ExecutorOperation) -> bool {
    match (a, b) {
        (
            ExecutorOperation::Delete { seq: s1, old: o1 },
            ExecutorOperation::Delete { seq: s2, old: o2 },
        ) => s1 == s2 && o1.values@ == o2.values@,
        (
            ExecutorOperation::Insert { seq: s1, new: n1 },
            ExecutorOperation::Insert { seq: s2, new: n2 },
        ) => s1 == s2 && n1.values@ == n2.values@,
        (
            ExecutorOperation::Update { seq: s1, old: o1, new: n1 },
            ExecutorOperation::Update { seq: s2, old: o2, new: n2 },
        ) => s1 == s2 && o1.values@ == o2.values@ && n1.values@ == n2.values@,
        (ExecutorOperation::SchemaUpdate { new: n1 }, ExecutorOperation::SchemaUpdate { new: n2 })
            => n1@ == n2@,
        (ExecutorOperation::Terminate, ExecutorOperation::Terminate) => true,
        _ => false,
    }
}

/// A structural copy of a record.
pub fn clone_record(r: &Record) -> (c: Record)
    ensures
        c.values@ == r.values@,
{
    let mut values: Vec<Field> = Vec::new();
    let mut i: usize = 0;
    while i < r.values.len()
        invariant
            i <= r.values@.len(),
            values@ == r.values@.take(i as int),
        decreases r.values@.len() - i,
    {
        values.push(crate::types::copy_field(&r.values[i]));
        proof {
            assert(values@ =~= r.values@.take(i as int + 1));
        }
        i = i + 1;
    }
    proof {
        assert(r.values@.take(r.values@.len() as int) =~= r.values@);
    }
    Record { values }
}

/// A structural copy of a message.
pub fn clone_op(op: &ExecutorOperation) -> (c: ExecutorOperation)
    ensures
        xop_eq(c, *op),
{
    match op {
        ExecutorOperation::Delete { seq, old } => ExecutorOperation::Delete {
            seq: *seq,
            old: clone_record(old),
        },
        ExecutorOperation::Insert { seq, new } => ExecutorOperation::Insert {
            seq: *seq,
            new: clone_record(new),
        },
        ExecutorOperation::Update { seq, old, new } => ExecutorOperation::Update {
            seq: *seq,
            old: clone_record(old),
            new: clone_record(new),
        },
        ExecutorOperation::SchemaUpdate { new } => ExecutorOperation::SchemaUpdate {
            new: Schema::new(crate::checkpoint::copy_bytes(&new.repr)),
        },
        ExecutorOperation::Terminate => ExecutorOperation::Terminate,
    }
}

/// Every queue is well-formed with capacity `cap`.
pub open spec fn queues_wf(queues: Seq<ChannelQueue>, cap: usize) -> bool {
    forall|i: int|
        0 <= i < queues.len() ==> (#[trigger] queues[i]).wf() && queues[i].capacity() == cap
}

/// Every listed queue has room for one more message.
pub open spec fn targets_have_room(queues: Seq<ChannelQueue>, targets: Seq<usize>) -> bool {
    forall|a: int|
        0 <= a < targets.len() ==> (#[trigger] queues[targets[a] as int]).pending().len() < queues[
            targets[a] as int
        ].capacity()
}

/// Whether every listed queue has room for one more message.
fn check_room(queues: &Vec<ChannelQueue>, targets: &Vec<usize>) -> (r: bool)
    requires
        indices_below(targets@, queues@.len() as int),
    ensures
        r == targets_have_room(queues@, targets@),
{
    let mut a: usize = 0;
    while a < targets.len()
        invariant
            a <= targets@.len(),
            indices_below(targets@, queues@.len() as int),
            forall|x: int|
                0 <= x < a ==> (#[trigger] queues@[targets@[x] as int]).pending().len() < queues@[
                    targets@[x] as int
                ].capacity(),
        decreases targets@.len() - a,
    {
        let t = targets[a];
        if queues[t].len() >= queues[t].capacity_exec() {
            return false;
        }
        a = a + 1;
    }
    true
}

/// Pushes a message into the queue at `i`, leaving the others alone.
fn queue_push(queues: &mut Vec<ChannelQueue>, i: usize, m: ExecutorOperation)
    requires
        (i as int) < old(queues)@.len(),
        old(queues)@[i as int].wf(),
        old(queues)@[i as int].pending().len() < old(queues)@[i as int].capacity(),
    ensures
        final(queues)@.len() == old(queues)@.len(),
        forall|j: int|
            0 <= j < old(queues)@.len() && j != i ==> final(queues)@[j] == old(queues)@[j],
        final(queues)@[i as int].wf(),
        final(queues)@[i as int].capacity() == old(queues)@[i as int].capacity(),
        final(queues)@[i as int].history() == old(queues)@[i as int].history().push(m),
        final(queues)@[i as int].received() == old(queues)@[i as int].received(),
        final(queues)@[i as int].pending() == old(queues)@[i as int].pending().push(m),
{
    let ghost pre = queues@;
    let mut q = queues.remove(i);
    q.push(m);
    queues.insert(i, q);
    proof {
        assert(queues@.len() == pre.len());
        assert forall|j: int| 0 <= j < pre.len() && j != i implies queues@[j] == pre[j] by {
            if j < i {
                assert(queues@[j] == pre.remove(i as int)[j]);
            } else {
                assert(queues@[j] == pre.remove(i as int)[j - 1]);
                assert(pre.remove(i as int)[j - 1] == pre[j]);
            }
        }
    }
}

/// Pops the oldest message from the queue at `i`, leaving the others
/// alone.
fn queue_pop(queues: &mut Vec<ChannelQueue>, i: usize) -> (m: ExecutorOperation)
    requires
        (i as int) < old(queues)@.len(),
        old(queues)@[i as int].wf(),
        old(queues)@[i as int].pending().len() > 0,
    ensures
        final(queues)@.len() == old(queues)@.len(),
        forall|j: int|
            0 <= j < old(queues)@.len() && j != i ==> final(queues)@[j] == old(queues)@[j],
        final(queues)@[i as int].wf(),
        final(queues)@[i as int].capacity() == old(queues)@[i as int].capacity(),
        final(queues)@[i as int].history() == old(queues)@[i as int].history(),
        m == old(queues)@[i as int].history()[old(queues)@[i as int].received().len() as int],
        final(queues)@[i as int].received() == old(queues)@[i as int].received().push(m),
        final(queues)@[i as int].pending() == old(queues)@[i as int].pending().drop_first(),
{
    let ghost pre = queues@;
    let mut q = queues.remove(i);
    let m = q.pop();
    queues.insert(i, q);
    proof {
        assert(queues@.len() == pre.len());
        assert forall|j: int| 0 <= j < pre.len() && j != i implies queues@[j] == pre[j] by {
            if j < i {
                assert(queues@[j] == pre.remove(i as int)[j]);
            } else {
                assert(queues@[j] == pre.remove(i as int)[j - 1]);
                assert(pre.remove(i as int)[j - 1] == pre[j]);
            }
        }
    }
    m
}

/// Sends a copy of the message to every listed queue (fan-out over the
/// edges of one port, or of a whole node).
fn broadcast(queues: &mut Vec<ChannelQueue>, targets: &Vec<usize>, msg: &ExecutorOperation)
    requires
        indices_distinct(targets@),
        indices_below(targets@, old(queues)@.len() as int),
        targets_have_room(old(queues)@, targets@),
        forall|t: int| 0 <= t < old(queues)@.len() ==> (#[trigger] old(queues)@[t]).wf(),
    ensures
        final(queues)@.len() == old(queues)@.len(),
        forall|j: int|
            0 <= j < final(queues)@.len() ==> {
                let post = #[trigger] final(queues)@[j];
                post.wf() && post.capacity() == old(queues)@[j].capacity() && post.received()
                    == old(queues)@[j].received()
            },
        forall|j: usize|
            (j as int) < final(queues)@.len() && !targets@.contains(j) ==> {
                let post = final(queues)@[j as int];
                post == old(queues)@[j as int]
            },
        forall|j: usize|
            (j as int) < final(queues)@.len() && targets@.contains(j) ==> {
                let post = final(queues)@[j as int];
                post.history().len() == old(queues)@[j as int].history().len() + 1 && xop_eq(
                    post.history().last(),
                    *msg,
                ) && post.history().drop_last() == old(queues)@[j as int].history()
            },
{
    let ghost pre = queues@;
    let mut a: usize = 0;
    while a < targets.len()
        invariant
            a <= targets@.len(),
            indices_distinct(targets@),
            indices_below(targets@, pre.len() as int),
            targets_have_room(pre, targets@),
            queues@.len() == pre.len(),
            forall|j: int|
                0 <= j < queues@.len() ==> (#[trigger] queues@[j]).wf() && queues@[j].capacity()
                    == pre[j].capacity() && queues@[j].received() == pre[j].received(),
            forall|j: usize|
                (j as int) < queues@.len() && !targets@.take(a as int).contains(j) ==> queues@[j as int]
                    == pre[j as int],
            forall|j: usize|
                (j as int) < queues@.len() && targets@.take(a as int).contains(j) ==> {
                    let post = queues@[j as int];
                    post.history().len() == pre[j as int].history().len() + 1 && xop_eq(
                        post.history().last(),
                        *msg,
                    ) && post.history().drop_last() == pre[j as int].history()
                },
        decreases targets@.len() - a,
    {
        let t = targets[a];
        proof {
            if targets@.take(a as int).contains(t) {
                let x = choose|x: int|
                    0 <= x <= targets@.take(a as int).len() - 1 && targets@.take(a as int)[x] == t;
                assert(targets@[x] == targets@[a as int]);
                assert(false);
            }
            assert(queues@[t as int] == pre[t as int]);
        }
        queue_push(queues, t, clone_op(msg));
        proof {
            assert(targets@.take(a as int + 1).drop_last() =~= targets@.take(a as int));
            assert(targets@.take(a as int + 1).last() == targets@[a as int]);
            assert forall|j: usize|
                (j as int) < queues@.len() && !targets@.take(a as int + 1).contains(j) implies
                queues@[j as int] == pre[j as int] by {
                if targets@.take(a as int).contains(j) {
                    let g = targets@.take(a as int);
                    let x = choose|x: int| 0 <= x <= g.len() - 1 && g[x] == j;
                    assert(targets@.take(a as int + 1)[x] == j);
                    assert(false);
                }
                assert(j != t);
            }
            assert forall|j: usize|
                #![trigger targets@.take(a as int + 1).contains(j)]
                (j as int) < queues@.len() && targets@.take(a as int + 1).contains(j) implies {
                let post = queues@[j as int];
                post.history().len() == pre[j as int].history().len() + 1 && xop_eq(
                    post.history().last(),
                    *msg,
                ) && post.history().drop_last() == pre[j as int].history()
            } by {
                if j == t {
                } else {
                    let grown = targets@.take(a as int + 1);
                    let x = choose|x: int| 0 <= x <= grown.len() - 1 && grown[x] == j;
                    assert(grown[x] == j);
                    if x == a as int {
                        assert(targets@[a as int] == j);
                        assert(false);
                    }
                    assert(targets@.take(a as int)[x] == j);
                    assert(targets@.take(a as int).contains(j));
                }
            }
        }
        a = a + 1;
    }
    proof {
        assert(targets@.take(targets@.len() as int) =~= targets@);
    }
}

/// The position of the first listed receiver whose queue holds a
/// message.
fn find_ready(queues: &Vec<ChannelQueue>, edges: &Vec<usize>) -> (r: Option<usize>)
    requires
        indices_below(edges@, queues@.len() as int),
    ensures
        r matches Some(k) ==> (k as int) < edges@.len() && queues@[edges@[k as int] as int].pending().len() > 0,
{
    let mut k: usize = 0;
    while k < edges.len()
        invariant
            k <= edges@.len(),
            indices_below(edges@, queues@.len() as int),
        decreases edges@.len() - k,
    {
        let qi = edges[k];
        if !queues[qi].is_empty() {
            return Some(k);
        }
        k = k + 1;
    }
    None
}

/// The total number of messages all queues have delivered.
pub open spec fn total_received(queues: Seq<ChannelQueue>) -> nat
    decreases queues.len(),
{
    if queues.len() == 0 {
        0
    } else {
        total_received(queues.drop_last()) + queues.last().received().len()
    }
}

/// How far the sources have advanced: scripted events emitted plus
/// terminate rounds completed.
pub open spec fn total_emitted(sources: Seq<SimSource>) -> nat
    decreases sources.len(),
{
    if sources.len() == 0 {
        0
    } else {
        total_emitted(sources.drop_last()) + sources.last().pos as nat + sources.last().term_port as nat
    }
}

/// One more delivery at a single queue raises the total by one.
proof fn lemma_received_point_update(pre: Seq<ChannelQueue>, post: Seq<ChannelQueue>, i: int)
    requires
        pre.len() == post.len(),
        0 <= i < pre.len(),
        forall|j: int| 0 <= j < pre.len() && j != i ==> post[j] == pre[j],
        post[i].received().len() == pre[i].received().len() + 1,
    ensures
        total_received(post) == total_received(pre) + 1,
    decreases pre.len(),
{
    let n = pre.len() as int;
    if i == n - 1 {
        assert(post.drop_last() =~= pre.drop_last());
    } else {
        assert forall|j: int|
            0 <= j < n - 1 && j != i implies post.drop_last()[j] == pre.drop_last()[j] by {
            assert(post[j] == pre[j]);
        }
        lemma_received_point_update(pre.drop_last(), post.drop_last(), i);
        assert(post.last() == pre.last());
    }
}

/// Sends alone leave the delivery total unchanged.
proof fn lemma_received_preserved(pre: Seq<ChannelQueue>, post: Seq<ChannelQueue>)
    requires
        pre.len() == post.len(),
        forall|j: int| 0 <= j < pre.len() ==> (#[trigger] post[j]).received() == pre[j].received(),
    ensures
        total_received(post) == total_received(pre),
    decreases pre.len(),
{
    if pre.len() > 0 {
        let n = pre.len() as int;
        assert forall|j: int|
            0 <= j < n - 1 implies (#[trigger] post.drop_last()[j]).received()
            == pre.drop_last()[j].received() by {
            assert(post[j].received() == pre[j].received());
        }
        lemma_received_preserved(pre.drop_last(), post.drop_last());
        assert(post.last().received() == pre.last().received());
    }
}

/// One more emission at a single source raises the total by one.
proof fn lemma_emitted_point_update(pre: Seq<SimSource>, post: Seq<SimSource>, i: int)
    requires
        pre.len() == post.len(),
        0 <= i < pre.len(),
        forall|j: int| 0 <= j < pre.len() && j != i ==> post[j] == pre[j],
        post[i].pos + post[i].term_port == pre[i].pos + pre[i].term_port + 1,
    ensures
        total_emitted(post) == total_emitted(pre) + 1,
    decreases pre.len(),
{
    let n = pre.len() as int;
    if i == n - 1 {
        assert(post.drop_last() =~= pre.drop_last());
    } else {
        assert forall|j: int|
            0 <= j < n - 1 && j != i implies post.drop_last()[j] == pre.drop_last()[j] by {
            assert(post[j] == pre[j]);
        }
        lemma_emitted_point_update(pre.drop_last(), post.drop_last(), i);
        assert(post.last() == pre.last());
    }
}

/// Some edge arrives at one of the node's declared input ports.
pub open spec fn has_input_edge(edges: Seq<crate::dag::Edge>, h: Seq<char>, ports: Seq<u16>) -> bool {
    exists|i: int, k: int|
        0 <= i < edges.len() && 0 <= k < ports.len() && (#[trigger] edges[i]).to.node@ == h
            && edges[i].to.port == (#[trigger] ports[k])
}

/// Some edge leaves one of the node's declared output ports.
pub open spec fn has_output_edge(edges: Seq<crate::dag::Edge>, h: Seq<char>, ports: Seq<u16>) -> bool {
    exists|i: int, k: int|
        0 <= i < edges.len() && 0 <= k < ports.len() && (#[trigger] edges[i]).from.node@ == h
            && edges[i].from.port == (#[trigger] ports[k])
}

/// Whether the list holds the index.
fn contains_index(v: &Vec<usize>, x: usize) -> (r: bool)
    ensures
        r == v@.contains(x),
{
    let mut a: usize = 0;
    while a < v.len()
        invariant
            a <= v@.len(),
            forall|j: int| 0 <= j < a ==> v@[j] != x,
        decreases v@.len() - a,
    {
        if v[a] == x {
            return true;
        }
        a = a + 1;
    }
    proof {
        if v@.contains(x) {
            let j = choose|j: int| 0 <= j <= v@.len() - 1 && v@[j] == x;
            assert(false);
        }
    }
    false
}

/// The flattened receiver lists of a node: one entry per incoming edge,
/// pairing the input port with the edge's position.
fn build_receivers(dag: &Dag, h: &NodeHandle, ports: &Vec<PortHandle>) -> (r: (
    Vec<PortHandle>,
    Vec<usize>,
))
    ensures
        r.0@.len() == r.1@.len(),
        indices_below(r.1@, dag.edges@.len() as int),
        r.1@.len() > 0 <==> has_input_edge(dag.edges@, h@, ports@),
{
    let mut out_ports: Vec<PortHandle> = Vec::new();
    let mut out_edges: Vec<usize> = Vec::new();
    let mut k: usize = 0;
    while k < ports.len()
        invariant
            k <= ports@.len(),
            out_ports@.len() == out_edges@.len(),
            indices_below(out_edges@, dag.edges@.len() as int),
            out_edges@.len() > 0 <==> has_input_edge(dag.edges@, h@, ports@.take(k as int)),
        decreases ports@.len() - k,
    {
        let ts = edges_into(dag, h, ports[k]);
        let ghost pre_len = out_edges@.len();
        let mut j: usize = 0;
        while j < ts.len()
            invariant
                indices_below(ts@, dag.edges@.len() as int),
                out_ports@.len() == out_edges@.len(),
                indices_below(out_edges@, dag.edges@.len() as int),
                j <= ts@.len(),
                k < ports@.len(),
                out_edges@.len() == pre_len + j,
            decreases ts@.len() - j,
        {
            out_ports.push(ports[k]);
            out_edges.push(ts[j]);
            j = j + 1;
        }
        proof {
            lemma_port_scan_step_into(dag.edges@, h@, ports@, k as int, ts@.len() > 0);
        }
        k = k + 1;
    }
    proof {
        assert(ports@.take(ports@.len() as int) =~= ports@);
    }
    (out_ports, out_edges)
}

/// Extending the scanned ports by one preserves the edge-found account.
proof fn lemma_port_scan_step_into(
    edges: Seq<crate::dag::Edge>,
    h: Seq<char>,
    ports: Seq<u16>,
    k: int,
    found_here: bool,
)
    requires
        0 <= k < ports.len(),
        found_here <==> exists|i: int|
            0 <= i < edges.len() && (#[trigger] edges[i]).to.node@ == h && edges[i].to.port
                == ports[k],
    ensures
        has_input_edge(edges, h, ports.take(k + 1)) <==> (has_input_edge(edges, h, ports.take(k))
            || found_here),
{
    let grown = ports.take(k + 1);
    if has_input_edge(edges, h, grown) {
        let (i, x) = choose|i: int, x: int|
            0 <= i < edges.len() && 0 <= x < grown.len() && (#[trigger] edges[i]).to.node@ == h
                && edges[i].to.port == (#[trigger] grown[x]);
        if x < k {
            assert(ports.take(k)[x] == grown[x]);
            assert(has_input_edge(edges, h, ports.take(k)));
        } else {
            assert(grown[x] == ports[k]);
        }
    }
    if has_input_edge(edges, h, ports.take(k)) {
        let (i, x) = choose|i: int, x: int|
            0 <= i < edges.len() && 0 <= x < ports.take(k).len() && (#[trigger] edges[i]).to.node@
                == h && edges[i].to.port == (#[trigger] ports.take(k)[x]);
        assert(grown[x] == ports.take(k)[x]);
        assert(has_input_edge(edges, h, grown));
    }
    if found_here {
        let i = choose|i: int|
            0 <= i < edges.len() && (#[trigger] edges[i]).to.node@ == h && edges[i].to.port
                == ports[k];
        assert(grown[k] == ports[k]);
        assert(has_input_edge(edges, h, grown));
    }
}

/// Extending the scanned ports by one preserves the edge-found account.
proof fn lemma_port_scan_step_from(
    edges: Seq<crate::dag::Edge>,
    h: Seq<char>,
    ports: Seq<u16>,
    k: int,
    found_here: bool,
)
    requires
        0 <= k < ports.len(),
        found_here <==> exists|i: int|
            0 <= i < edges.len() && (#[trigger] edges[i]).from.node@ == h && edges[i].from.port
                == ports[k],
    ensures
        has_output_edge(edges, h, ports.take(k + 1)) <==> (has_output_edge(edges, h, ports.take(k))
            || found_here),
{
    let grown = ports.take(k + 1);
    if has_output_edge(edges, h, grown) {
        let (i, x) = choose|i: int, x: int|
            0 <= i < edges.len() && 0 <= x < grown.len() && (#[trigger] edges[i]).from.node@ == h
                && edges[i].from.port == (#[trigger] grown[x]);
        if x < k {
            assert(ports.take(k)[x] == grown[x]);
            assert(has_output_edge(edges, h, ports.take(k)));
        } else {
            assert(grown[x] == ports[k]);
        }
    }
    if has_output_edge(edges, h, ports.take(k)) {
        let (i, x) = choose|i: int, x: int|
            0 <= i < edges.len() && 0 <= x < ports.take(k).len() && (#[trigger] edges[i]).from.node@
                == h && edges[i].from.port == (#[trigger] ports.take(k)[x]);
        assert(grown[x] == ports.take(k)[x]);
        assert(has_output_edge(edges, h, grown));
    }
    if found_here {
        let i = choose|i: int|
            0 <= i < edges.len() && (#[trigger] edges[i]).from.node@ == h && edges[i].from.port
                == ports[k];
        assert(grown[k] == ports[k]);
        assert(has_output_edge(edges, h, grown));
    }
}

/// Every edge leaving any of the node's output ports, each position
/// once.
fn build_out_targets(dag: &Dag, h: &NodeHandle, ports: &Vec<PortHandle>) -> (r: Vec<usize>)
    ensures
        indices_distinct(r@),
        indices_below(r@, dag.edges@.len() as int),
        r@.len() > 0 <==> has_output_edge(dag.edges@, h@, ports@),
{
    let mut out: Vec<usize> = Vec::new();
    let mut k: usize = 0;
    while k < ports.len()
        invariant
            k <= ports@.len(),
            indices_distinct(out@),
            indices_below(out@, dag.edges@.len() as int),
            out@.len() > 0 <==> has_output_edge(dag.edges@, h@, ports@.take(k as int)),
        decreases ports@.len() - k,
    {
        let ts = edges_from(dag, h, ports[k]);
        let ghost pre_len = out@.len();
        let mut j: usize = 0;
        while j < ts.len()
            invariant
                indices_below(ts@, dag.edges@.len() as int),
                indices_distinct(out@),
                indices_below(out@, dag.edges@.len() as int),
                j <= ts@.len(),
                out@.len() >= pre_len,
                (pre_len > 0 || j > 0) ==> out@.len() > 0,
                out@.len() > 0 ==> (pre_len > 0 || j > 0),
            decreases ts@.len() - j,
        {
            if !contains_index(&out, ts[j]) {
                let ghost pre = out@;
                out.push(ts[j]);
                proof {
                    assert forall|a: int, b: int| 0 <= a < b < out@.len() implies out@[a]
                        != out@[b] by {
                        if b == out@.len() - 1 {
                            if pre.contains(out@[b]) {
                            } else {
                                assert(out@[a] == pre[a]);
                                if out@[a] == out@[b] {
                                    assert(pre.contains(out@[b])) by {
                                        assert(pre[a] == out@[b]);
                                    }
                                }
                            }
                        }
                    }
                }
            }
            j = j + 1;
        }
        proof {
            lemma_port_scan_step_from(dag.edges@, h@, ports@, k as int, ts@.len() > 0);
        }
        k = k + 1;
    }
    proof {
        assert(ports@.take(ports@.len() as int) =~= ports@);
    }
    out
}

/// The events of the first script for source `h`, or none.
pub open spec fn spec_script_events(scripts: Seq<SourceScript>, h: Seq<char>) -> Seq<
    (PortHandle, ExecutorOperation),
>
    decreases scripts.len(),
{
    if scripts.len() == 0 {
        Seq::empty()
    } else if scripts.first().handle@ == h {
        scripts.first().events@
    } else {
        spec_script_events(scripts.drop_first(), h)
    }
}

/// The two event lists agree pairwise: same ports, same messages.
pub open spec fn script_events_match(a: Seq<(PortHandle, ExecutorOperation)>, b: Seq<
    (PortHandle, ExecutorOperation),
>) -> bool {
    a.len() == b.len() && forall|k: int|
        0 <= k < a.len() ==> (#[trigger] a[k]).0 == b[k].0 && xop_eq(a[k].1, b[k].1)
}

/// A first script match at `ix` determines `spec_script_events`.
proof fn lemma_script_first(scripts: Seq<SourceScript>, h: Seq<char>, ix: int)
    requires
        0 <= ix < scripts.len(),
        scripts[ix].handle@ == h,
        forall|j: int| 0 <= j < ix ==> (#[trigger] scripts[j]).handle@ != h,
    ensures
        spec_script_events(scripts, h) == scripts[ix].events@,
    decreases ix,
{
    if ix > 0 {
        let rest = scripts.drop_first();
        assert(rest[ix - 1] == scripts[ix]);
        assert forall|j: int| 0 <= j < ix - 1 implies (#[trigger] rest[j]).handle@ != h by {
            assert(rest[j] == scripts[j + 1]);
        }
        lemma_script_first(rest, h, ix - 1);
    }
}

/// No script match anywhere determines `spec_script_events`.
proof fn lemma_script_none(scripts: Seq<SourceScript>, h: Seq<char>)
    requires
        forall|j: int| 0 <= j < scripts.len() ==> (#[trigger] scripts[j]).handle@ != h,
    ensures
        spec_script_events(scripts, h) == Seq::<(PortHandle, ExecutorOperation)>::empty(),
    decreases scripts.len(),
{
    if scripts.len() > 0 {
        let rest = scripts.drop_first();
        assert forall|j: int| 0 <= j < rest.len() implies (#[trigger] rest[j]).handle@ != h by {
            assert(rest[j] == scripts[j + 1]);
        }
        lemma_script_none(rest, h);
    }
}

/// A copy of the scripted events of the named source, or none.
fn find_script_events(scripts: &Vec<SourceScript>, h: &NodeHandle) -> (r: Vec<
    (PortHandle, ExecutorOperation),
>)
    ensures
        script_events_match(r@, spec_script_events(scripts@, h@)),
{
    let mut i: usize = 0;
    while i < scripts.len()
        invariant
            i <= scripts@.len(),
            forall|j: int| 0 <= j < i ==> (#[trigger] scripts@[j]).handle@ != h@,
        decreases scripts@.len() - i,
    {
        if scripts[i].handle == *h {
            proof {
                lemma_script_first(scripts@, h@, i as int);
            }
            let src = &scripts[i].events;
            let mut events: Vec<(PortHandle, ExecutorOperation)> = Vec::new();
            let mut j: usize = 0;
            while j < src.len()
                invariant
                    j <= src@.len(),
                    events@.len() == j,
                    forall|k: int|
                        0 <= k < j ==> (#[trigger] events@[k]).0 == src@[k].0 && xop_eq(
                            events@[k].1,
                            src@[k].1,
                        ),
                decreases src@.len() - j,
            {
                events.push((src[j].0, clone_op(&src[j].1)));
                j = j + 1;
            }
            return events;
        }
        i = i + 1;
    }
    proof {
        lemma_script_none(scripts@, h@);
    }
    Vec::new()
}

/// Removing an element and inserting another at the same position is a
/// point update.
proof fn lemma_remove_insert<T>(pre: Seq<T>, x: T, i: int)
    requires
        0 <= i < pre.len(),
    ensures
        pre.remove(i).insert(i, x) == pre.update(i, x),
{
    assert(pre.remove(i).insert(i, x) =~= pre.update(i, x));
}

/// The sequence number a data message carries.
pub open spec fn data_seq(m: ExecutorOperation) -> Option<u64> {
    match m {
        ExecutorOperation::Delete { seq, .. } => Some(seq),
        ExecutorOperation::Insert { seq, .. } => Some(seq),
        ExecutorOperation::Update { seq, .. } => Some(seq),
        _ => None,
    }
}

/// The sequence numbers of the data operations a script emits on one
/// output port, in emission order.
pub open spec fn port_seqs(events: Seq<(PortHandle, ExecutorOperation)>, p: u16) -> Seq<u64>
    decreases events.len(),
{
    if events.len() == 0 {
        Seq::empty()
    } else {
        let prev = port_seqs(events.drop_last(), p);
        if events.last().0 == p && data_seq(events.last().1) is Some {
            prev.push(data_seq(events.last().1).unwrap())
        } else {
            prev
        }
    }
}

/// Each element is smaller than every later one.
pub open spec fn strictly_increasing(s: Seq<u64>) -> bool {
    forall|i: int, j: int| 0 <= i < j < s.len() ==> s[i] < s[j]
}

/// `a` is an initial segment of `b`.
pub open spec fn seq_prefix_of(a: Seq<u64>, b: Seq<u64>) -> bool {
    a.len() <= b.len() && forall|i: int| 0 <= i < a.len() ==> a[i] == b[i]
}

/// What a script prefix emits on a port is a prefix of what the whole
/// script emits there.
proof fn lemma_port_seqs_prefix(events: Seq<(PortHandle, ExecutorOperation)>, p: u16, n: int)
    requires
        0 <= n <= events.len(),
    ensures
        seq_prefix_of(port_seqs(events.take(n), p), port_seqs(events, p)),
    decreases events.len(),
{
    if n == events.len() {
        assert(events.take(n) =~= events);
    } else {
        let shorter = events.drop_last();
        assert(events.take(n) =~= shorter.take(n));
        lemma_port_seqs_prefix(shorter, p, n);
    }
}

/// Law (sequence monotonicity at source): a source emits its script in
/// order, so when the script's data operations on an output port carry
/// strictly increasing sequence numbers — the source's obligation —
/// then at every moment of the run the operations emitted so far on
/// that port do too.
pub proof fn lemma_source_seqs_monotone(
    events: Seq<(PortHandle, ExecutorOperation)>,
    p: u16,
    n: int,
)
    requires
        0 <= n <= events.len(),
        strictly_increasing(port_seqs(events, p)),
    ensures
        strictly_increasing(port_seqs(events.take(n), p)),
{
    lemma_port_seqs_prefix(events, p, n);
}

/// The topology check made before any worker runs: a processor or sink
/// declares input ports and has an incoming edge, and a source or
/// processor has an outgoing edge.
pub open spec fn node_start_ok(dag: Dag, n: int) -> bool
    recommends
        0 <= n < dag.nodes@.len(),
{
    let node = dag.nodes@[n];
    match node.t {
        NodeType::Source(s) => has_output_edge(dag.edges@, node.handle@, s.output_ports@),
        NodeType::Processor(p) => p.input_ports@.len() > 0 && has_input_edge(
            dag.edges@,
            node.handle@,
            p.input_ports@,
        ) && has_output_edge(dag.edges@, node.handle@, p.output_ports@),
        NodeType::Sink(s) => s.input_ports@.len() > 0 && has_input_edge(
            dag.edges@,
            node.handle@,
            s.input_ports@,
        ),
    }
}

/// Every node of the DAG passes the pre-start topology check.
pub open spec fn start_ok(dag: Dag) -> bool {
    forall|n: int| 0 <= n < dag.nodes@.len() ==> #[trigger] node_start_ok(dag, n)
}

/// What one source will emit, in order: schema updates and data
/// operations, each on one of its output ports. The runtime broadcasts
/// the terminate signal on every output port after the script ends.
pub struct SourceScript {
    pub handle: NodeHandle,
    pub events: Vec<(PortHandle, ExecutorOperation)>,
}

/// A source mid-run: what it has emitted so far.
pub struct SimSource {
    pub handle: NodeHandle,
    pub output_ports: Vec<PortHandle>,
    pub events: Vec<(PortHandle, ExecutorOperation)>,
    pub pos: usize,
    pub term_port: usize,
}

/// A processor mid-run: its handshake state machine, its flattened
/// receiver lists, and the queues of all its outgoing edges.
pub struct SimProcessor {
    pub handle: NodeHandle,
    pub worker: ProcessorWorker,
    pub receiver_ports: Vec<PortHandle>,
    pub receiver_edges: Vec<usize>,
    pub out_targets: Vec<usize>,
}

/// A sink mid-run: its state machine, its receivers, and everything its
/// operator has been handed, in order.
pub struct SimSink {
    pub handle: NodeHandle,
    pub worker: SinkWorker,
    pub receiver_ports: Vec<PortHandle>,
    pub receiver_edges: Vec<usize>,
    pub received: Vec<(u64, Operation)>,
}

/// How a deterministic run ended.
#[derive(Debug, PartialEq, Eq, Structural)]
pub enum SimOutcome {
    /// Every source finished and terminated, every processor and sink
    /// exited, and every channel drained.
    Completed,
    /// No worker could take a step, yet something was still unfinished.
    Stalled,
    /// The step budget ran out first.
    OutOfFuel,
}

/// A deterministic, single-process execution of a DAG: the same worker
/// state machines and bounded channels as the threaded executor, driven
/// one step at a time. Sinks collect what they are handed. Processors
/// pass every message through to all of their outgoing edges.
pub struct Simulation<'a> {
    pub dag: &'a Dag,
    pub cap: usize,
    pub queues: Vec<ChannelQueue>,
    pub sources: Vec<SimSource>,
    pub procs: Vec<SimProcessor>,
    pub sinks: Vec<SimSink>,
    /// Which source gets the next turn: turns rotate, so every source
    /// emits its schemas before any source races ahead with data.
    pub next_source: usize,
}

impl<'a> Simulation<'a> {
    /// Queues are well-formed at the configured capacity, workers'
    /// ready flags are truthful, every stored edge index points at a
    /// queue, and source positions are in range.
    pub open spec fn wf(&self) -> bool {
        &&& self.cap >= 1
        &&& self.queues@.len() == self.dag.edges@.len()
        &&& queues_wf(self.queues@, self.cap)
        &&& forall|i: int|
            0 <= i < self.sources@.len() ==> {
                let s = #[trigger] self.sources@[i];
                s.pos <= s.events@.len() && s.term_port <= s.output_ports@.len()
            }
        &&& forall|i: int|
            0 <= i < self.procs@.len() ==> {
                let p = #[trigger] self.procs@[i];
                &&& p.worker.wf()
                &&& p.receiver_ports@.len() == p.receiver_edges@.len()
                &&& indices_below(p.receiver_edges@, self.queues@.len() as int)
                &&& indices_below(p.out_targets@, self.queues@.len() as int)
                &&& indices_distinct(p.out_targets@)
            }
        &&& forall|i: int|
            0 <= i < self.sinks@.len() ==> {
                let s = #[trigger] self.sinks@[i];
                &&& s.worker.wf()
                &&& s.receiver_ports@.len() == s.receiver_edges@.len()
                &&& indices_below(s.receiver_edges@, self.queues@.len() as int)
            }
    }

    /// Nothing is left to do: every source has emitted its whole script
    /// and terminated every output port, and every processor and sink
    /// has exited. A message still queued for a worker that already
    /// exited is abandoned, as it is when a real channel's receiver is
    /// dropped.
    pub open spec fn is_complete(&self) -> bool {
        &&& forall|i: int|
            0 <= i < self.sources@.len() ==> {
                let s = #[trigger] self.sources@[i];
                s.pos == s.events@.len() && s.term_port == s.output_ports@.len()
            }
        &&& forall|i: int| 0 <= i < self.procs@.len() ==> (#[trigger] self.procs@[i]).worker.terminated
        &&& forall|i: int| 0 <= i < self.sinks@.len() ==> (#[trigger] self.sinks@[i]).worker.terminated
    }

    /// One unit of work per step: the number of messages the queues
    /// have delivered plus the number of events the sources have
    /// emitted (terminate rounds included).
    pub open spec fn progress(&self) -> nat {
        total_received(self.queues@) + total_emitted(self.sources@)
    }

    /// Whether the run is complete.
    pub fn check_complete(&self) -> (r: bool)
        ensures
            r == self.is_complete(),
    {
        let mut i: usize = 0;
        while i < self.sources.len()
            invariant
                i <= self.sources@.len(),
                forall|j: int|
                    0 <= j < i ==> {
                        let s = #[trigger] self.sources@[j];
                        s.pos == s.events@.len() && s.term_port == s.output_ports@.len()
                    },
            decreases self.sources@.len() - i,
        {
            let s = &self.sources[i];
            if s.pos != s.events.len() || s.term_port != s.output_ports.len() {
                return false;
            }
            i = i + 1;
        }
        let mut i: usize = 0;
        while i < self.procs.len()
            invariant
                i <= self.procs@.len(),
                forall|j: int| 0 <= j < i ==> (#[trigger] self.procs@[j]).worker.terminated,
            decreases self.procs@.len() - i,
        {
            if !self.procs[i].worker.terminated {
                return false;
            }
            i = i + 1;
        }
        let mut i: usize = 0;
        while i < self.sinks.len()
            invariant
                i <= self.sinks@.len(),
                forall|j: int| 0 <= j < i ==> (#[trigger] self.sinks@[j]).worker.terminated,
            decreases self.sinks@.len() - i,
        {
            if !self.sinks[i].worker.terminated {
                return false;
            }
            i = i + 1;
        }
        true
    }

    /// Builds a simulation: one queue per edge, one worker per node.
    ///
    /// Validates the topology as the threaded executor's start does: a
    /// processor or sink without an incoming edge is `MissingNodeInput`,
    /// a source or processor without an outgoing edge is
    /// `MissingNodeOutput`. A source with no script just terminates.
    pub fn new(dag: &'a Dag, scripts: &Vec<SourceScript>, channel_buf_sz: usize) -> (r: Result<
        Simulation<'a>,
        ExecutionError,
    >)
        requires
            channel_buf_sz >= 1,
        ensures
            r matches Ok(sim) ==> sim.wf() && sim.cap == channel_buf_sz && sim.dag == dag,
            r is Ok <==> start_ok(*dag),
            r matches Err(e) ==> ((e matches ExecutionError::MissingNodeInput(h) && exists|n: int|
                0 <= n < dag.nodes@.len() && (#[trigger] dag.nodes@[n]).handle@ == h@
                    && !(dag.nodes@[n].t is Source) && !node_start_ok(*dag, n)) || (e
                matches ExecutionError::MissingNodeOutput(h) && exists|n: int|
                0 <= n < dag.nodes@.len() && (#[trigger] dag.nodes@[n]).handle@ == h@
                    && !(dag.nodes@[n].t is Sink) && !node_start_ok(*dag, n))),
            r matches Ok(sim) ==> {
                let srcs = dag.nodes@.filter(|n: crate::dag::Node| n.t is Source);
                &&& sim.sources@.len() == srcs.len()
                &&& forall|k: int|
                    0 <= k < sim.sources@.len() ==> (#[trigger] sim.sources@[k]).handle@
                        == srcs[k].handle@ && script_events_match(
                        sim.sources@[k].events@,
                        spec_script_events(scripts@, srcs[k].handle@),
                    )
            },
            r matches Ok(sim) ==> {
                let prcs = dag.nodes@.filter(|n: crate::dag::Node| n.t is Processor);
                &&& sim.procs@.len() == prcs.len()
                &&& forall|k: int|
                    0 <= k < sim.procs@.len() ==> (#[trigger] sim.procs@[k]).handle@
                        == prcs[k].handle@
            },
            r matches Ok(sim) ==> {
                let snks = dag.nodes@.filter(|n: crate::dag::Node| n.t is Sink);
                &&& sim.sinks@.len() == snks.len()
                &&& forall|k: int|
                    0 <= k < sim.sinks@.len() ==> (#[trigger] sim.sinks@[k]).handle@
                        == snks[k].handle@
            },
    {
        let ghost src_pred = |n: crate::dag::Node| n.t is Source;
        let ghost proc_pred = |n: crate::dag::Node| n.t is Processor;
        let ghost sink_pred = |n: crate::dag::Node| n.t is Sink;
        proof {
            reveal(Seq::filter);
            assert(dag.nodes@.take(0) =~= Seq::<crate::dag::Node>::empty());
            assert(dag.nodes@.take(0).filter(src_pred) =~= Seq::<crate::dag::Node>::empty());
            assert(dag.nodes@.take(0).filter(proc_pred) =~= Seq::<crate::dag::Node>::empty());
            assert(dag.nodes@.take(0).filter(sink_pred) =~= Seq::<crate::dag::Node>::empty());
        }
        let nq = dag.edges.len();
        let mut queues: Vec<ChannelQueue> = Vec::new();
        let mut q: usize = 0;
        while q < nq
            invariant
                q <= nq,
                nq == dag.edges@.len(),
                channel_buf_sz >= 1,
                queues@.len() == q,
                queues_wf(queues@, channel_buf_sz),
            decreases nq - q,
        {
            queues.push(ChannelQueue::new(channel_buf_sz));
            q = q + 1;
        }
        let mut sources: Vec<SimSource> = Vec::new();
        let mut procs: Vec<SimProcessor> = Vec::new();
        let mut sinks: Vec<SimSink> = Vec::new();
        let mut i: usize = 0;
        while i < dag.nodes.len()
            invariant
                i <= dag.nodes@.len(),
                queues@.len() == dag.edges@.len(),
                queues_wf(queues@, channel_buf_sz),
                channel_buf_sz >= 1,
                src_pred == (|n: crate::dag::Node| n.t is Source),
                proc_pred == (|n: crate::dag::Node| n.t is Processor),
                sink_pred == (|n: crate::dag::Node| n.t is Sink),
                forall|j: int| 0 <= j < i ==> #[trigger] node_start_ok(*dag, j),
                sources@.len() == dag.nodes@.take(i as int).filter(src_pred).len(),
                forall|k: int|
                    0 <= k < sources@.len() ==> (#[trigger] sources@[k]).handle@
                        == dag.nodes@.take(i as int).filter(src_pred)[k].handle@
                        && script_events_match(
                        sources@[k].events@,
                        spec_script_events(
                            scripts@,
                            dag.nodes@.take(i as int).filter(src_pred)[k].handle@,
                        ),
                    ),
                procs@.len() == dag.nodes@.take(i as int).filter(proc_pred).len(),
                forall|k: int|
                    0 <= k < procs@.len() ==> (#[trigger] procs@[k]).handle@
                        == dag.nodes@.take(i as int).filter(proc_pred)[k].handle@,
                sinks@.len() == dag.nodes@.take(i as int).filter(sink_pred).len(),
                forall|k: int|
                    0 <= k < sinks@.len() ==> (#[trigger] sinks@[k]).handle@
                        == dag.nodes@.take(i as int).filter(sink_pred)[k].handle@,
                forall|j: int|
                    0 <= j < sources@.len() ==> {
                        let s = #[trigger] sources@[j];
                        s.pos == 0 && s.term_port == 0
                    },
                forall|j: int|
                    0 <= j < procs@.len() ==> {
                        let p = #[trigger] procs@[j];
                        &&& p.worker.wf()
                        &&& !p.worker.terminated
                        &&& p.receiver_ports@.len() == p.receiver_edges@.len()
                        &&& indices_below(p.receiver_edges@, queues@.len() as int)
                        &&& indices_below(p.out_targets@, queues@.len() as int)
                        &&& indices_distinct(p.out_targets@)
                    },
                forall|j: int|
                    0 <= j < sinks@.len() ==> {
                        let s = #[trigger] sinks@[j];
                        &&& s.worker.wf()
                        &&& !s.worker.terminated
                        &&& s.receiver_ports@.len() == s.receiver_edges@.len()
                        &&& indices_below(s.receiver_edges@, queues@.len() as int)
                    },
            decreases dag.nodes@.len() - i,
        {
            let node = &dag.nodes[i];
            proof {
                reveal(Seq::filter);
                assert(dag.nodes@.take(i as int + 1).drop_last() =~= dag.nodes@.take(i as int));
                assert(dag.nodes@.take(i as int + 1).last() == dag.nodes@[i as int]);
            }
            match &node.t {
                NodeType::Sink(s) => {
                    if s.input_ports.len() == 0 {
                        proof {
                            assert(!node_start_ok(*dag, i as int));
                        }
                        return Err(ExecutionError::MissingNodeInput(node.handle.clone()));
                    }
                    let recv = build_receivers(dag, &node.handle, &s.input_ports);
                    if recv.1.len() == 0 {
                        proof {
                            assert(!node_start_ok(*dag, i as int));
                        }
                        return Err(ExecutionError::MissingNodeInput(node.handle.clone()));
                    }
                    proof {
                        assert(node_start_ok(*dag, i as int));
                    }
                    sinks.push(
                        SimSink {
                            handle: node.handle.clone(),
                            worker: SinkWorker::new(crate::dag::copy_ports(&s.input_ports)),
                            receiver_ports: recv.0,
                            receiver_edges: recv.1,
                            received: Vec::new(),
                        },
                    );
                },
                NodeType::Processor(p) => {
                    if p.input_ports.len() == 0 {
                        proof {
                            assert(!node_start_ok(*dag, i as int));
                        }
                        return Err(ExecutionError::MissingNodeInput(node.handle.clone()));
                    }
                    let recv = build_receivers(dag, &node.handle, &p.input_ports);
                    if recv.1.len() == 0 {
                        proof {
                            assert(!node_start_ok(*dag, i as int));
                        }
                        return Err(ExecutionError::MissingNodeInput(node.handle.clone()));
                    }
                    let outs = build_out_targets(dag, &node.handle, &p.output_ports);
                    if outs.len() == 0 {
                        proof {
                            assert(!node_start_ok(*dag, i as int));
                        }
                        return Err(ExecutionError::MissingNodeOutput(node.handle.clone()));
                    }
                    proof {
                        assert(node_start_ok(*dag, i as int));
                    }
                    procs.push(
                        SimProcessor {
                            handle: node.handle.clone(),
                            worker: ProcessorWorker::new(
                                crate::dag::copy_ports(&p.input_ports),
                                crate::dag::copy_ports(&p.output_ports),
                            ),
                            receiver_ports: recv.0,
                            receiver_edges: recv.1,
                            out_targets: outs,
                        },
                    );
                },
                NodeType::Source(s) => {
                    let outs = build_out_targets(dag, &node.handle, &s.output_ports);
                    if outs.len() == 0 {
                        proof {
                            assert(!node_start_ok(*dag, i as int));
                        }
                        return Err(ExecutionError::MissingNodeOutput(node.handle.clone()));
                    }
                    proof {
                        assert(node_start_ok(*dag, i as int));
                    }
                    let events = find_script_events(scripts, &node.handle);
                    sources.push(
                        SimSource {
                            handle: node.handle.clone(),
                            output_ports: crate::dag::copy_ports(&s.output_ports),
                            events,
                            pos: 0,
                            term_port: 0,
                        },
                    );
                },
            }
            i = i + 1;
        }
        proof {
            assert(dag.nodes@.take(dag.nodes@.len() as int) =~= dag.nodes@);
        }
        Ok(
            Simulation {
                dag,
                cap: channel_buf_sz,
                queues,
                sources,
                procs,
                sinks,
                next_source: 0,
            },
        )
    }

    /// Lets the sink at `i` absorb one waiting message, if any.
    fn step_sink(&mut self, i: usize) -> (r: Result<bool, ExecutionError>)
        requires
            old(self).wf(),
            (i as int) < old(self).sinks@.len(),
        ensures
            final(self).wf(),
            final(self).sinks@.len() == old(self).sinks@.len(),
            final(self).procs == old(self).procs,
            final(self).sources == old(self).sources,
            final(self).queues@.len() == old(self).queues@.len(),
            final(self).cap == old(self).cap,
            final(self).dag == old(self).dag,
            r == Ok::<bool, ExecutionError>(false) ==> *final(self) == *old(self),
            r == Ok::<bool, ExecutionError>(true) ==> final(self).progress() == old(self).progress()
                + 1,
    {
        if self.sinks[i].worker.terminated {
            return Ok(false);
        }
        let k = match find_ready(&self.queues, &self.sinks[i].receiver_edges) {
            None => {
                return Ok(false);
            },
            Some(k) => k,
        };
        let ghost pre_queues = self.queues@;
        let ghost pre_sinks = self.sinks@;
        let mut sk = self.sinks.remove(i);
        let qi = sk.receiver_edges[k];
        let msg = queue_pop(&mut self.queues, qi);
        proof {
            lemma_received_point_update(pre_queues, self.queues@, qi as int);
        }
        let res = sk.worker.on_message(sk.receiver_ports[k], msg);
        match res {
            Err(e) => {
                let ghost skv = sk;
                self.sinks.insert(i, sk);
                proof {
                    lemma_remove_insert(pre_sinks, skv, i as int);
                }
                Err(e)
            },
            Ok(action) => {
                match action {
                    SinkAction::Process { seq, op } => {
                        sk.received.push((seq, op));
                    },
                    _ => {},
                }
                let ghost skv = sk;
                self.sinks.insert(i, sk);
                proof {
                    lemma_remove_insert(pre_sinks, skv, i as int);
                }
                Ok(true)
            },
        }
    }


    /// Lets the processor at `i` absorb and forward one waiting
    /// message, when all its outgoing queues have room.
    fn step_proc(&mut self, i: usize) -> (r: Result<bool, ExecutionError>)
        requires
            old(self).wf(),
            (i as int) < old(self).procs@.len(),
        ensures
            final(self).wf(),
            final(self).procs@.len() == old(self).procs@.len(),
            final(self).sinks == old(self).sinks,
            final(self).sources == old(self).sources,
            final(self).queues@.len() == old(self).queues@.len(),
            final(self).cap == old(self).cap,
            final(self).dag == old(self).dag,
            r == Ok::<bool, ExecutionError>(false) ==> *final(self) == *old(self),
            r == Ok::<bool, ExecutionError>(true) ==> final(self).progress() == old(self).progress()
                + 1,
    {
        if self.procs[i].worker.terminated {
            return Ok(false);
        }
        if !check_room(&self.queues, &self.procs[i].out_targets) {
            return Ok(false);
        }
        let k = match find_ready(&self.queues, &self.procs[i].receiver_edges) {
            None => {
                return Ok(false);
            },
            Some(k) => k,
        };
        let ghost pre_queues = self.queues@;
        let ghost pre_procs = self.procs@;
        let mut pr = self.procs.remove(i);
        let qi = pr.receiver_edges[k];
        let msg = queue_pop(&mut self.queues, qi);
        proof {
            lemma_received_point_update(pre_queues, self.queues@, qi as int);
            assert forall|a: int|
                0 <= a < pr.out_targets@.len() implies (#[trigger] self.queues@[pr.out_targets@[a] as int]).pending().len()
                < self.queues@[pr.out_targets@[a] as int].capacity() by {
                if pr.out_targets@[a] != qi {
                }
            }
        }
        let res = pr.worker.on_message(pr.receiver_ports[k], msg);
        match res {
            Err(e) => {
                let ghost prv = pr;
                self.procs.insert(i, pr);
                proof {
                    lemma_remove_insert(pre_procs, prv, i as int);
                }
                Err(e)
            },
            Ok(action) => {
                let ghost mid_queues = self.queues@;
                match action {
                    ProcessorAction::RecordedSchema => {},
                    ProcessorAction::InitSchemas(s) => {
                        if s.len() > 0 {
                            let fwd = ExecutorOperation::SchemaUpdate {
                                new: Schema::new(crate::checkpoint::copy_bytes(&s[0].1.repr)),
                            };
                            broadcast(&mut self.queues, &pr.out_targets, &fwd);
                        }
                    },
                    ProcessorAction::Process { seq, op } => {
                        let fwd = match op {
                            Operation::Delete { old: o } => ExecutorOperation::Delete {
                                seq,
                                old: o,
                            },
                            Operation::Insert { new } => ExecutorOperation::Insert { seq, new },
                            Operation::Update { old: o, new } => ExecutorOperation::Update {
                                seq,
                                old: o,
                                new,
                            },
                        };
                        broadcast(&mut self.queues, &pr.out_targets, &fwd);
                    },
                    ProcessorAction::SendTermAndExit => {
                        let fwd = ExecutorOperation::Terminate;
                        broadcast(&mut self.queues, &pr.out_targets, &fwd);
                    },
                }
                proof {
                    lemma_received_preserved(mid_queues, self.queues@);
                }
                let ghost prv = pr;
                self.procs.insert(i, pr);
                proof {
                    lemma_remove_insert(pre_procs, prv, i as int);
                }
                Ok(true)
            },
        }
    }


    /// Lets the source at `i` emit its next scripted event, or a
    /// terminate signal once the script is exhausted, when the target
    /// queues have room.
    fn step_source(&mut self, i: usize) -> (r: Result<bool, ExecutionError>)
        requires
            old(self).wf(),
            (i as int) < old(self).sources@.len(),
        ensures
            final(self).wf(),
            final(self).sources@.len() == old(self).sources@.len(),
            final(self).sinks == old(self).sinks,
            final(self).procs == old(self).procs,
            final(self).queues@.len() == old(self).queues@.len(),
            final(self).cap == old(self).cap,
            final(self).dag == old(self).dag,
            r == Ok::<bool, ExecutionError>(false) ==> *final(self) == *old(self),
            r == Ok::<bool, ExecutionError>(true) ==> final(self).progress() == old(self).progress()
                + 1,
    {
        if self.sources[i].pos < self.sources[i].events.len() {
            let pos = self.sources[i].pos;
            let port = self.sources[i].events[pos].0;
            let targets = edges_from(self.dag, &self.sources[i].handle, port);
            if !check_room(&self.queues, &targets) {
                return Ok(false);
            }
            let msg = clone_op(&self.sources[i].events[pos].1);
            let ghost pre_queues = self.queues@;
            broadcast(&mut self.queues, &targets, &msg);
            let ghost pre_sources = self.sources@;
            let mut src = self.sources.remove(i);
            src.pos = src.pos + 1;
            let ghost srcv = src;
            self.sources.insert(i, src);
            proof {
                lemma_remove_insert(pre_sources, srcv, i as int);
                lemma_received_preserved(pre_queues, self.queues@);
                lemma_emitted_point_update(pre_sources, self.sources@, i as int);
            }
            return Ok(true);
        }
        if self.sources[i].term_port < self.sources[i].output_ports.len() {
            let tp = self.sources[i].term_port;
            let port = self.sources[i].output_ports[tp];
            let targets = edges_from(self.dag, &self.sources[i].handle, port);
            if !check_room(&self.queues, &targets) {
                return Ok(false);
            }
            let msg = ExecutorOperation::Terminate;
            let ghost pre_queues = self.queues@;
            broadcast(&mut self.queues, &targets, &msg);
            let ghost pre_sources = self.sources@;
            let mut src = self.sources.remove(i);
            src.term_port = src.term_port + 1;
            let ghost srcv = src;
            self.sources.insert(i, src);
            proof {
                lemma_remove_insert(pre_sources, srcv, i as int);
                lemma_received_preserved(pre_queues, self.queues@);
                lemma_emitted_point_update(pre_sources, self.sources@, i as int);
            }
            return Ok(true);
        }
        Ok(false)
    }

    /// Takes one step somewhere in the graph: a sink first, then a
    /// processor, then a source; reports whether anything moved. An
    /// idle step leaves the simulation exactly as it was; a moving step
    /// delivers one message or emits one event.
    pub fn step(&mut self) -> (r: Result<bool, ExecutionError>)
        requires
            old(self).wf(),
        ensures
            final(self).wf(),
            r == Ok::<bool, ExecutionError>(false) ==> *final(self) == *old(self),
            r == Ok::<bool, ExecutionError>(true) ==> final(self).progress() == old(self).progress()
                + 1,
    {
        let mut i: usize = 0;
        while i < self.sinks.len()
            invariant
                self.wf(),
                *self == *old(self),
            decreases self.sinks@.len() - i,
        {
            match self.step_sink(i) {
                Err(e) => {
                    return Err(e);
                },
                Ok(true) => {
                    return Ok(true);
                },
                Ok(false) => {},
            }
            i = i + 1;
        }
        let mut i: usize = 0;
        while i < self.procs.len()
            invariant
                self.wf(),
                *self == *old(self),
            decreases self.procs@.len() - i,
        {
            match self.step_proc(i) {
                Err(e) => {
                    return Err(e);
                },
                Ok(true) => {
                    return Ok(true);
                },
                Ok(false) => {},
            }
            i = i + 1;
        }
        let n = self.sources.len();
        if n == 0 {
            return Ok(false);
        }
        let base = self.next_source % n;
        let mut k: usize = 0;
        while k < n
            invariant
                self.wf(),
                *self == *old(self),
                n == self.sources@.len(),
                n > 0,
                base < n,
            decreases n - k,
        {
            let i = if k < n - base {
                base + k
            } else {
                k - (n - base)
            };
            match self.step_source(i) {
                Err(e) => {
                    return Err(e);
                },
                Ok(true) => {
                    self.next_source = if i + 1 < n {
                        i + 1
                    } else {
                        0
                    };
                    return Ok(true);
                },
                Ok(false) => {},
            }
            k = k + 1;
        }
        Ok(false)
    }

    /// Runs until nothing can move or the step budget runs out.
    ///
    /// Termination propagation, as far as a bounded run shows it: a
    /// completed run means every source has emitted its whole script
    /// and terminated every output port, and every processor and sink
    /// has exited; a stalled run means no step could move while
    /// something was still unfinished.
    pub fn run(&mut self, fuel: usize) -> (r: Result<SimOutcome, ExecutionError>)
        requires
            old(self).wf(),
        ensures
            final(self).wf(),
            r == Ok::<SimOutcome, ExecutionError>(SimOutcome::Completed) ==> final(self).is_complete(),
            r == Ok::<SimOutcome, ExecutionError>(SimOutcome::Stalled) ==> !final(self).is_complete(),
    {
        let mut f: usize = 0;
        while f < fuel
            invariant
                self.wf(),
            decreases fuel - f,
        {
            match self.step() {
                Err(e) => {
                    return Err(e);
                },
                Ok(true) => {},
                Ok(false) => {
                    if self.check_complete() {
                        return Ok(SimOutcome::Completed);
                    }
                    return Ok(SimOutcome::Stalled);
                },
            }
            f = f + 1;
        }
        Ok(SimOutcome::OutOfFuel)
    }

    /// What the sink with the given handle has been handed so far.
    pub fn sink_log(&self, handle: &NodeHandle) -> (r: Option<&Vec<(u64, Operation)>>)
        ensures
            match r {
                Some(v) => exists|i: int|
                    0 <= i < self.sinks@.len() && (#[trigger] self.sinks@[i]).handle@ == handle@
                        && v == self.sinks@[i].received,
                None => forall|i: int|
                    0 <= i < self.sinks@.len() ==> (#[trigger] self.sinks@[i]).handle@ != handle@,
            },
    {
        let mut i: usize = 0;
        while i < self.sinks.len()
            invariant
                i <= self.sinks@.len(),
                forall|j: int| 0 <= j < i ==> (#[trigger] self.sinks@[j]).handle@ != handle@,
            decreases self.sinks@.len() - i,
        {
            if self.sinks[i].handle == *handle {
                return Some(&self.sinks[i].received);
            }
            i = i + 1;
        }
        None
    }
}

} // verus!
