//! Cycle-level scheduling of a graph: when each node issues and finishes,
//! under the resource limits of the machine. No numeric work happens here.
use vstd::prelude::*;
use crate::ir::BlockMat;
use crate::lower::{
    bcast_id, class_of, col_count, is_perm, lemma_permutation_lowers_to_direct, lowered, resource_of,
    ExecKernelRef, NodeId, NodeType, Resource, SchedGraph, SchedNode,
};

verus! {

// ------------------------------------------------------------------
// Latency model
// ------------------------------------------------------------------
/// How the latency of a fan-out or fan-in of `k` grows with `k`.
#[derive(Debug, Clone, Copy, PartialEq, Eq, Structural)]
pub enum LatencyModel {
    /// A tree: `ceil(log2 k)`.
    Tree,
    /// A pipeline: `k`.
    Pipeline,
    /// A fixed value.
    Fixed(usize),
}

/// `ceil(log2 k)`, with `0` for `k <= 1`.
pub open spec fn ceil_log2(k: nat) -> nat
    decreases k,
{
    if k <= 1 {
        0
    } else {
        1 + ceil_log2(((k + 1) / 2) as nat)
    }
}

pub open spec fn spec_latency(model: LatencyModel, k: nat) -> nat {
    match model {
        LatencyModel::Tree => ceil_log2(k),
        LatencyModel::Pipeline => k,
        LatencyModel::Fixed(v) => v as nat,
    }
}

proof fn lemma_ceil_log2_bound(k: nat)
    ensures
        ceil_log2(k) <= k,
    decreases k,
{
    if k > 1 {
        lemma_ceil_log2_bound(((k + 1) / 2) as nat);
    }
}

/// Latency of a fan-out or fan-in of `k` under `model`.
pub fn latency(model: &LatencyModel, k: usize) -> (r: usize)
    ensures
        r == spec_latency(*model, k as nat),
{
    match model {
        LatencyModel::Tree => {
            let mut x: usize = k;
            let mut r: usize = 0;
            while x > 1
                invariant
                    ceil_log2(k as nat) == r + ceil_log2(x as nat),
                    r + x <= k || x <= 1,
                    r <= k,
                decreases x,
            {
                let next = x / 2 + x % 2;
                assert(next == ((x + 1) / 2) as nat);
                x = next;
                r = r + 1;
            }
            r
        },
        LatencyModel::Pipeline => k,
        LatencyModel::Fixed(v) => *v,
    }
}

// ------------------------------------------------------------------
// Scheduling parameters
// ------------------------------------------------------------------
/// The machine's cost parameters.
#[derive(Debug, Clone, Copy)]
pub struct SchedParams {
    /// `P`: parallel core slots.
    pub core_slots: usize,
    /// `B_ports`: broadcast ports.
    pub bcast_ports: usize,
    /// `R_ports`: reduction ports.
    pub reduce_ports: usize,
    /// `L_core`: latency of a general kernel.
    pub core_latency: usize,
    /// `L_scale`: latency of a scalar kernel.
    pub scale_latency: usize,
    /// Latency of a pass-through node.
    pub direct_latency: usize,
    /// `B_w`: parameter bus width (scalars per cycle).
    pub bw_params: usize,
    /// `W_out`: output write bandwidth (scalars per cycle).
    pub bw_writeback: usize,
    /// Broadcast latency model.
    pub bcast_model: LatencyModel,
    /// Reduction latency model.
    pub reduce_model: LatencyModel,
}

impl SchedParams {
    /// The phase-one defaults.
    pub fn default_phase1() -> (p: Self)
        ensures
            p.core_slots == 4,
            p.bcast_ports == 2,
            p.reduce_ports == 2,
            p.core_latency == 4,
            p.scale_latency == 1,
            p.direct_latency == 0,
            p.bw_params == 2,
            p.bw_writeback == 4,
            p.bcast_model == LatencyModel::Tree,
            p.reduce_model == LatencyModel::Tree,
    {
        SchedParams {
            core_slots: 4,
            bcast_ports: 2,
            reduce_ports: 2,
            core_latency: 4,
            scale_latency: 1,
            direct_latency: 0,
            bw_params: 2,
            bw_writeback: 4,
            bcast_model: LatencyModel::Tree,
            reduce_model: LatencyModel::Tree,
        }
    }

    /// The parameter-bus width of all core slots fits in a `usize`.
    pub open spec fn well_formed(&self) -> bool {
        self.core_slots * self.bw_params <= usize::MAX
    }

    /// How many nodes of a class may be busy at once; `None` for no limit.
    pub open spec fn capacity(&self, c: Resource) -> Option<nat> {
        match c {
            Resource::Input => Some(1),
            Resource::Load => Some(1),
            Resource::Core => Some(self.core_slots as nat),
            Resource::Bcast => Some(self.bcast_ports as nat),
            Resource::Reduce => Some(self.reduce_ports as nat),
            Resource::WriteBack => Some(1),
            Resource::Unmetered => None,
        }
    }
}

// ------------------------------------------------------------------
// Schedule
// ------------------------------------------------------------------
/// The nodes issued together in one pass of one cycle.
#[derive(Debug, Clone)]
pub struct Batch {
    pub cycle: usize,
    pub node_ids: Vec<NodeId>,
}

/// When one node issues and finishes.
#[derive(Debug, Clone, Copy)]
pub struct TimedNode {
    pub id: NodeId,
    pub start_cycle: usize,
    pub finish_cycle: usize,
}

/// The outcome of scheduling a graph.
#[derive(Debug, Clone)]
pub struct Schedule {
    pub topo_order: Vec<NodeId>,
    pub batches: Vec<Batch>,
    pub timed_nodes: Vec<TimedNode>,
    pub total_cycles: usize,
}

/// `ceil(a / b)`, and `0` when `b` is `0`.
pub open spec fn spec_ceil_div(a: nat, b: nat) -> nat {
    if b == 0 {
        0
    } else {
        ((a + b - 1) / (b as int)) as nat
    }
}

/// `ceil(a / b)`, and `0` when `b` is `0`.
pub fn ceil_div(a: usize, b: usize) -> (r: usize)
    ensures
        r == spec_ceil_div(a as nat, b as nat),
{
    if b == 0 {
        0
    } else {
        let q = a / b;
        let rem = a % b;
        proof {
            assert(a == b * q + rem) by (nonlinear_arith)
                requires
                    b > 0,
                    q == a / b,
                    rem == a % b,
            ;
            if rem == 0 {
                assert((a + b - 1) / (b as int) == q) by (nonlinear_arith)
                    requires
                        b > 0,
                        a == b * q,
            ;
            } else {
                assert((a + b - 1) / (b as int) == q + 1) by (nonlinear_arith)
                    requires
                        b > 0,
                        a == b * q + rem,
                        0 < rem < b,
            ;
                assert(q < a || q == 0) by (nonlinear_arith)
                    requires
                        b > 0,
                        a == b * q + rem,
                        0 < rem,
            ;
            }
        }
        if rem == 0 {
            q
        } else {
            q + 1
        }
    }
}

/// Latency of a node.
pub open spec fn spec_node_latency(params: SchedParams, node: SchedNode) -> nat {
    match node.node_type {
        NodeType::InputRead => spec_ceil_div(
            node.transfer_scalars as nat,
            params.bw_writeback as nat,
        ),
        NodeType::ParamLoad => spec_ceil_div(
            node.transfer_scalars as nat,
            (params.core_slots * params.bw_params) as nat,
        ),
        NodeType::Broadcast => spec_latency(
            params.bcast_model,
            if node.arity >= 1 {
                node.arity as nat
            } else {
                1
            },
        ),
        NodeType::Reduce => spec_latency(params.reduce_model, node.arity as nat),
        NodeType::ZeroFill => 1,
        NodeType::Direct => params.direct_latency as nat,
        NodeType::WriteBack => spec_ceil_div(
            node.transfer_scalars as nat,
            params.bw_writeback as nat,
        ),
        NodeType::Core(e) => match e {
            ExecKernelRef::Scalar(_) => params.scale_latency as nat,
            _ => params.core_latency as nat,
        },
    }
}

/// Latency of a node.
pub fn node_latency(params: &SchedParams, node: &SchedNode) -> (r: usize)
    requires
        params.well_formed(),
    ensures
        r == spec_node_latency(*params, *node),
{
    match &node.node_type {
        NodeType::InputRead => ceil_div(node.transfer_scalars, params.bw_writeback),
        NodeType::ParamLoad => ceil_div(
            node.transfer_scalars,
            params.core_slots * params.bw_params,
        ),
        NodeType::Broadcast => {
            let k = if node.arity >= 1 {
                node.arity
            } else {
                1
            };
            latency(&params.bcast_model, k)
        },
        NodeType::Reduce => latency(&params.reduce_model, node.arity),
        NodeType::ZeroFill => 1,
        NodeType::Direct => params.direct_latency,
        NodeType::WriteBack => ceil_div(node.transfer_scalars, params.bw_writeback),
        NodeType::Core(exec_ref) => match exec_ref {
            ExecKernelRef::Scalar(_) => params.scale_latency,
            _ => params.core_latency,
        },
    }
}

// ------------------------------------------------------------------
// Topological order (Kahn, smallest id first)
// ------------------------------------------------------------------
/// Node `u` can be emitted after `emitted`: it is not emitted yet, its
/// dependency list names no node twice, and every node it names is emitted.
/// (A node that names a dependency twice, or a node outside the graph, is
/// never emitted: its in-degree never drops to zero.)
pub open spec fn kahn_available(g: SchedGraph, emitted: Seq<NodeId>, u: int) -> bool {
    &&& 0 <= u < g.nodes@.len()
    &&& !emitted.contains(u as NodeId)
    &&& g.deps_of(u).no_duplicates()
    &&& forall|k: int| 0 <= k < g.deps_of(u).len() ==> emitted.contains(#[trigger] g.deps_of(u)[k])
}

/// `order` is what Kahn's algorithm emits when it always takes the smallest
/// available id: each element is the smallest node available after the
/// elements before it, and at the end no node is available.
pub open spec fn is_kahn_order(g: SchedGraph, order: Seq<NodeId>) -> bool {
    &&& forall|k: int|
        0 <= k < order.len() ==> kahn_available(g, order.take(k), #[trigger] order[k] as int)
    &&& forall|k: int, u: int|
        0 <= k < order.len() && 0 <= u < order[k] ==> !#[trigger] kahn_available(g, order.take(k), u)
    &&& forall|u: int| !kahn_available(g, order, u)
}

/// Number of positions of `s` that hold a node of `emitted` for the first
/// time in `s`.
pub open spec fn first_hits(s: Seq<NodeId>, emitted: Seq<NodeId>) -> nat
    decreases s.len(),
{
    if s.len() == 0 {
        0
    } else {
        first_hits(s.drop_last(), emitted) + if emitted.contains(s.last())
            && !s.drop_last().contains(s.last()) {
            1nat
        } else {
            0nat
        }
    }
}

proof fn lemma_first_hits_push(s: Seq<NodeId>, e: Seq<NodeId>, x: NodeId)
    requires
        !e.contains(x),
    ensures
        first_hits(s, e.push(x)) == first_hits(s, e) + if s.contains(x) {
            1nat
        } else {
            0nat
        },
    decreases s.len(),
{
    if s.len() > 0 {
        let p = s.drop_last();
        lemma_first_hits_push(p, e, x);
        lemma_push_contains(e, x, s.last());
        assert(s.contains(x) <==> (p.contains(x) || s.last() == x)) by {
            if s.contains(x) {
                let k = choose|k: int| 0 <= k < s.len() && s[k] == x;
                if k < s.len() - 1 {
                    assert(p[k] == x);
                }
            }
            if p.contains(x) {
                let k = choose|k: int| 0 <= k < p.len() && p[k] == x;
                assert(s[k] == x);
            }
        }
    }
}

proof fn lemma_first_hits_full(s: Seq<NodeId>, e: Seq<NodeId>)
    ensures
        first_hits(s, e) <= s.len(),
        first_hits(s, e) == s.len() <==> (s.no_duplicates() && forall|k: int|
            0 <= k < s.len() ==> e.contains(#[trigger] s[k])),
    decreases s.len(),
{
    if s.len() > 0 {
        let p = s.drop_last();
        lemma_first_hits_full(p, e);
        let y = s.last();
        if first_hits(s, e) == s.len() {
            assert(s.no_duplicates()) by {
                assert forall|i: int, j: int| 0 <= i < s.len() && 0 <= j < s.len() && i != j implies s[i]
                    != s[j] by {
                    if i < s.len() - 1 && j < s.len() - 1 {
                        assert(p[i] == s[i] && p[j] == s[j]);
                    } else if i == s.len() - 1 {
                        assert(p[j] == s[j]);
                    } else {
                        assert(p[i] == s[i]);
                    }
                }
            }
            assert forall|k: int| 0 <= k < s.len() implies e.contains(#[trigger] s[k]) by {
                if k < s.len() - 1 {
                    assert(p[k] == s[k]);
                }
            }
        }
        if s.no_duplicates() && forall|k: int| 0 <= k < s.len() ==> e.contains(#[trigger] s[k]) {
            assert(p.no_duplicates()) by {
                assert forall|i: int, j: int| 0 <= i < p.len() && 0 <= j < p.len() && i != j implies p[i]
                    != p[j] by {
                    assert(s[i] == p[i] && s[j] == p[j]);
                }
            }
            assert forall|k: int| 0 <= k < p.len() implies e.contains(#[trigger] p[k]) by {
                assert(s[k] == p[k]);
            }
            assert(e.contains(s[s.len() - 1]));
            assert(!p.contains(y)) by {
                if p.contains(y) {
                    let k = choose|k: int| 0 <= k < p.len() && p[k] == y;
                    assert(s[k] == s[s.len() - 1]);
                }
            }
        }
    }
}

/// Kahn's topological sort, always emitting the smallest available id.
/// Nodes on a cycle, nodes that name a dependency twice or a dependency
/// outside the graph, and their successors, are left out.
pub fn topo_sort(graph: &SchedGraph) -> (order: Vec<NodeId>)
    ensures
        is_kahn_order(*graph, order@),
        order@.no_duplicates(),
        forall|k: int| 0 <= k < order@.len() ==> #[trigger] order@[k] < graph.nodes@.len(),
{
    let n = graph.nodes.len();
    let ghost g = *graph;
    let mut indeg: Vec<usize> = Vec::new();
    let mut ready: Vec<bool> = Vec::new();
    let mut i: usize = 0;
    while i < n
        invariant
            n == graph.nodes@.len(),
            g == *graph,
            i <= n,
            indeg@.len() == i,
            ready@.len() == i,
            forall|j: int| 0 <= j < i ==> #[trigger] indeg@[j] == g.deps_of(j).len(),
            forall|j: int| 0 <= j < i ==> #[trigger] ready@[j] == (indeg@[j] == 0),
        decreases n - i,
    {
        let d = graph.nodes[i].deps.len();
        indeg.push(d);
        ready.push(d == 0);
        i = i + 1;
    }
    let mut order: Vec<NodeId> = Vec::new();
    proof {
        assert forall|j: int| 0 <= j < n implies #[trigger] indeg@[j] == g.deps_of(j).len()
            - first_hits(g.deps_of(j), order@) && (ready@[j] <==> kahn_available(g, order@, j)) by {
            lemma_first_hits_zero(g.deps_of(j), order@);
            lemma_first_hits_full(g.deps_of(j), order@);
        }
    }
    loop
        invariant
            n == graph.nodes@.len(),
            g == *graph,
            indeg@.len() == n,
            ready@.len() == n,
            order@.no_duplicates(),
            forall|k: int| 0 <= k < order@.len() ==> #[trigger] order@[k] < n,
            forall|j: int|
                0 <= j < n ==> #[trigger] indeg@[j] == g.deps_of(j).len() - first_hits(
                    g.deps_of(j),
                    order@,
                ),
            forall|j: int| 0 <= j < n ==> (#[trigger] ready@[j] <==> kahn_available(g, order@, j)),
            forall|k: int|
                0 <= k < order@.len() ==> kahn_available(g, order@.take(k), #[trigger] order@[k] as int),
            forall|k: int, u: int|
                0 <= k < order@.len() && 0 <= u < order@[k] ==> !#[trigger] kahn_available(g, order@.take(k), u),
        ensures
            is_kahn_order(g, order@),
            order@.no_duplicates(),
            forall|k: int| 0 <= k < order@.len() ==> #[trigger] order@[k] < n,
        decreases n - order@.len(),
    {
        // the smallest ready node, or `n` if none is ready
        let mut pick: usize = n;
        let mut j: usize = 0;
        while j < n
            invariant
                n == ready@.len(),
                j <= n,
                pick == n || (pick < j && ready@[pick as int]),
                pick == n ==> forall|q: int| 0 <= q < j ==> !#[trigger] ready@[q],
                pick < n ==> forall|q: int| 0 <= q < pick ==> !#[trigger] ready@[q],
            decreases n - j,
        {
            if pick == n && ready[j] {
                pick = j;
            }
            j = j + 1;
        }
        if pick == n {
            proof {
                assert forall|u: int| !kahn_available(g, order@, u) by {
                    if 0 <= u < n {
                        assert(!ready@[u]);
                    }
                }
            }
            break;
        }
        let ghost old_order = order@;
        let ghost old_indeg = indeg@;
        proof {
            assert(kahn_available(g, old_order, pick as int));
            lemma_distinct_bounded(old_order.push(pick), n as int);
        }
        ready.set(pick, false);
        order.push(pick);
        proof {
            assert forall|k: int| 0 <= k < old_order.len() implies #[trigger] order@.take(k)
                == old_order.take(k) by {
                assert(order@.take(k) =~= old_order.take(k));
            }
            assert(order@.take(old_order.len() as int) =~= old_order);
            assert forall|k: int|
                0 <= k < order@.len() implies kahn_available(g, order@.take(k), #[trigger] order@[k] as int) by {
                if k < old_order.len() {
                    assert(order@.take(k) == old_order.take(k));
                    assert(old_order.take(k) == old_order.take(k));
                }
            }
            assert forall|k: int, u: int|
                0 <= k < order@.len() && 0 <= u < order@[k] implies !#[trigger] kahn_available(g, order@.take(k), u) by {
                if k < old_order.len() {
                    assert(order@.take(k) == old_order.take(k));
                } else {
                    assert(!ready@[u]);
                }
            }
        }
        let mut q: usize = 0;
        while q < n
            invariant
                n == graph.nodes@.len(),
                g == *graph,
                q <= n,
                indeg@.len() == n,
                ready@.len() == n,
                order@ == old_order.push(pick),
                !old_order.contains(pick),
                kahn_available(g, old_order, pick as int),
                pick < n,
                forall|k: int|
                    0 <= k < old_order.len() ==> kahn_available(g, old_order.take(k), #[trigger] old_order[k] as int),
                forall|j: int|
                    0 <= j < n ==> #[trigger] old_indeg[j] == g.deps_of(j).len() - first_hits(
                        g.deps_of(j),
                        old_order,
                    ),
                forall|j: int|
                    0 <= j < q ==> #[trigger] indeg@[j] == g.deps_of(j).len() - first_hits(
                        g.deps_of(j),
                        order@,
                    ),
                forall|j: int| q <= j < n ==> #[trigger] indeg@[j] == old_indeg[j],
                forall|j: int|
                    0 <= j < q ==> (#[trigger] ready@[j] <==> kahn_available(g, order@, j)),
                forall|j: int|
                    q <= j < n ==> (#[trigger] ready@[j] <==> (j != pick && kahn_available(
                        g,
                        old_order,
                        j,
                    ))),
            decreases n - q,
        {
            let ghost dq = g.deps_of(q as int);
            proof {
                lemma_first_hits_push(dq, old_order, pick);
                lemma_first_hits_full(dq, old_order);
                lemma_first_hits_full(dq, order@);
                lemma_available_step(g, old_order, pick, q as int);
                if dq.contains(pick) {
                    // an emitted node has all its dependencies emitted, so `pick` is not one of them
                    if old_order.contains(q as NodeId) {
                        let k = choose|k: int| 0 <= k < old_order.len() && old_order[k] == q;
                        assert(kahn_available(g, old_order.take(k), old_order[k] as int));
                        let m = choose|m: int| 0 <= m < dq.len() && dq[m] == pick;
                        assert(old_order.take(k).contains(dq[m]));
                        let w = choose|w: int| 0 <= w < old_order.take(k).len() && old_order.take(k)[w] == dq[m];
                        assert(old_order[w] == pick);
                    }
                    if q == pick {
                        let m = choose|m: int| 0 <= m < dq.len() && dq[m] == pick;
                        assert(old_order.contains(dq[m]));
                    }
                    assert(!(dq.no_duplicates() && forall|k: int| 0 <= k < dq.len() ==> old_order.contains(#[trigger] dq[k]))) by {
                        let m = choose|m: int| 0 <= m < dq.len() && dq[m] == pick;
                        assert(!old_order.contains(dq[m]));
                    }
                }
            }
            let has = contains_id(&graph.nodes[q].deps, pick);
            if has {
                let d = indeg[q] - 1;
                indeg.set(q, d);
                if d == 0 {
                    ready.set(q, true);
                }
            }
            q = q + 1;
        }
    }
    order
}

/// Whether `xs` holds `x`.
fn contains_id(xs: &Vec<NodeId>, x: NodeId) -> (r: bool)
    ensures
        r <==> xs@.contains(x),
{
    let mut i: usize = 0;
    while i < xs.len()
        invariant
            i <= xs@.len(),
            forall|k: int| 0 <= k < i ==> xs@[k] != x,
        decreases xs@.len() - i,
    {
        if xs[i] == x {
            return true;
        }
        i = i + 1;
    }
    false
}

proof fn lemma_first_hits_zero(s: Seq<NodeId>, e: Seq<NodeId>)
    requires
        e.len() == 0,
    ensures
        first_hits(s, e) == 0,
    decreases s.len(),
{
    if s.len() > 0 {
        lemma_first_hits_zero(s.drop_last(), e);
    }
}

/// Membership in a sequence extended by one element.
proof fn lemma_push_contains(e: Seq<NodeId>, x: NodeId, y: NodeId)
    ensures
        e.push(x).contains(y) <==> (e.contains(y) || y == x),
{
    if e.push(x).contains(y) {
        let k = choose|k: int| 0 <= k < e.push(x).len() && e.push(x)[k] == y;
        if k < e.len() {
            assert(e[k] == y);
        }
    }
    if e.contains(y) {
        let k = choose|k: int| 0 <= k < e.len() && e[k] == y;
        assert(e.push(x)[k] == y);
    }
    if y == x {
        assert(e.push(x)[e.len() as int] == y);
    }
}

/// A duplicate-free sequence of numbers below `n` has at most `n` elements.
proof fn lemma_distinct_bounded(s: Seq<NodeId>, n: int)
    requires
        0 <= n <= usize::MAX,
        s.no_duplicates(),
        forall|k: int| 0 <= k < s.len() ==> #[trigger] s[k] < n,
    ensures
        s.len() <= n,
{
    let set = s.to_set();
    s.unique_seq_to_set();
    let full = Set::new(|x: NodeId| x < n);
    assert(set.subset_of(full));
    lemma_lt_set_len(n as nat);
    vstd::set_lib::lemma_len_subset(set, full);
}

proof fn lemma_lt_set_len(n: nat)
    requires
        n <= usize::MAX,
    ensures
        Set::new(|x: NodeId| x < n).finite(),
        Set::new(|x: NodeId| x < n).len() == n,
    decreases n,
{
    if n == 0 {
        assert(Set::new(|x: NodeId| x < n) =~= Set::empty());
    } else {
        lemma_lt_set_len((n - 1) as nat);
        let smaller = Set::new(|x: NodeId| x < n - 1);
        let x: NodeId = (n - 1) as NodeId;
        assert(Set::new(|y: NodeId| y < n) =~= smaller.insert(x));
    }
}

/// How availability of node `u` changes when `x` is emitted.
proof fn lemma_available_step(g: SchedGraph, e: Seq<NodeId>, x: NodeId, u: int)
    requires
        !e.contains(x),
        g.nodes@.len() <= usize::MAX,
    ensures
        !g.deps_of(u).contains(x) ==> (kahn_available(g, e.push(x), u) <==> (u != x
            && kahn_available(g, e, u))),
        kahn_available(g, e.push(x), u) <==> (0 <= u < g.nodes@.len() && u != x && !e.contains(
            u as NodeId,
        ) && g.deps_of(u).no_duplicates() && forall|k: int|
            0 <= k < g.deps_of(u).len() ==> e.push(x).contains(#[trigger] g.deps_of(u)[k])),
{
    if 0 <= u < g.nodes@.len() {
        let uu = u as NodeId;
        lemma_push_contains(e, x, uu);
        let d = g.deps_of(u);
        assert forall|k: int| 0 <= k < d.len() implies (e.push(x).contains(#[trigger] d[k]) <==> (
        e.contains(d[k]) || d[k] == x)) by {
            lemma_push_contains(e, x, d[k]);
        }
        let all_new = forall|k: int| 0 <= k < d.len() ==> e.push(x).contains(#[trigger] d[k]);
        let all_old = forall|k: int| 0 <= k < d.len() ==> e.contains(#[trigger] d[k]);
        assert(kahn_available(g, e.push(x), u) == (!e.push(x).contains(uu) && d.no_duplicates()
            && all_new));
        assert(kahn_available(g, e, u) == (!e.contains(uu) && d.no_duplicates() && all_old));
        if !d.contains(x) {
            assert(all_new == all_old) by {
                if all_new {
                    assert forall|k: int| 0 <= k < d.len() implies e.contains(#[trigger] d[k]) by {
                        assert(e.push(x).contains(d[k]));
                        if d[k] == x {
                            assert(d.contains(x));
                        }
                    }
                }
                if all_old {
                    assert forall|k: int| 0 <= k < d.len() implies e.push(x).contains(#[trigger] d[k]) by {
                        assert(e.contains(d[k]));
                    }
                }
            }
        }
    }
}

// ------------------------------------------------------------------
// What a schedule promises
// ------------------------------------------------------------------
/// Latency of node `u` of `g`.
pub open spec fn lat_of(g: SchedGraph, params: SchedParams, u: int) -> nat {
    spec_node_latency(params, g.nodes@[u])
}

/// Resource class of node `u` of `g`.
pub open spec fn class_at(g: SchedGraph, u: int) -> Resource {
    class_of(g.nodes@[u].node_type)
}

/// The largest latency among the first `k` nodes.
pub open spec fn max_latency_upto(g: SchedGraph, params: SchedParams, k: int) -> nat
    decreases k,
{
    if k <= 0 {
        0
    } else {
        let m = max_latency_upto(g, params, k - 1);
        let l = lat_of(g, params, k - 1);
        if l > m {
            l
        } else {
            m
        }
    }
}

/// The largest node latency of `g`.
pub open spec fn max_latency(g: SchedGraph, params: SchedParams) -> nat {
    max_latency_upto(g, params, g.nodes@.len() as int)
}

proof fn lemma_max_latency(g: SchedGraph, params: SchedParams, k: int, u: int)
    requires
        0 <= u < k,
    ensures
        lat_of(g, params, u) <= max_latency_upto(g, params, k),
    decreases k,
{
    if u < k - 1 {
        lemma_max_latency(g, params, k - 1, u);
    }
}

/// An entry occupies its resource at cycle `t`: it issued at `t`, or it
/// issued before `t` and finishes after `t`.
pub open spec fn busy_at(e: TimedNode, t: int) -> bool {
    e.start_cycle == t || (e.start_cycle < t && t < e.finish_cycle)
}

/// How many entries of `ts` of class `c` occupy their resource at cycle `t`.
pub open spec fn busy_count(g: SchedGraph, ts: Seq<TimedNode>, c: Resource, t: int) -> nat
    decreases ts.len(),
{
    if ts.len() == 0 {
        0
    } else {
        busy_count(g, ts.drop_last(), c, t) + if class_at(g, ts.last().id as int) == c && busy_at(
            ts.last(),
            t,
        ) {
            1nat
        } else {
            0nat
        }
    }
}

/// Node `d` has an entry in `ts` that finishes by cycle `t`.
pub open spec fn finished_by(ts: Seq<TimedNode>, d: NodeId, t: int) -> bool {
    exists|k: int| 0 <= k < ts.len() && (#[trigger] ts[k]).id == d && ts[k].finish_cycle <= t
}

/// Every dependency of node `u` has finished by cycle `t`.
pub open spec fn ready_in(g: SchedGraph, ts: Seq<TimedNode>, u: int, t: int) -> bool {
    forall|k: int| 0 <= k < g.deps_of(u).len() ==> finished_by(ts, #[trigger] g.deps_of(u)[k], t)
}

/// The resource of node `u` is full at cycle `t` (never, for `Direct`).
pub open spec fn saturated(
    g: SchedGraph,
    params: SchedParams,
    ts: Seq<TimedNode>,
    u: int,
    t: int,
) -> bool {
    match params.capacity(class_at(g, u)) {
        Some(cap) => busy_count(g, ts, class_at(g, u), t) >= cap,
        None => false,
    }
}

/// The ids of the entries, in order.
pub open spec fn timed_ids(ts: Seq<TimedNode>) -> Seq<NodeId> {
    ts.map_values(|e: TimedNode| e.id)
}

/// The ids of all batches, one batch after the other.
pub open spec fn batch_ids(bs: Seq<Batch>) -> Seq<NodeId>
    decreases bs.len(),
{
    if bs.len() == 0 {
        Seq::empty()
    } else {
        batch_ids(bs.drop_last()) + bs.last().node_ids@
    }
}

/// The cycle of each id of `batch_ids(bs)`.
pub open spec fn batch_cycles(bs: Seq<Batch>) -> Seq<usize>
    decreases bs.len(),
{
    if bs.len() == 0 {
        Seq::empty()
    } else {
        batch_cycles(bs.drop_last()) + Seq::new(
            bs.last().node_ids@.len(),
            |i: int| bs.last().cycle,
        )
    }
}

/// Entry `k` of `ts` has an earlier entry for node `d` that finishes by
/// entry `k`'s start.
pub open spec fn dep_done(ts: Seq<TimedNode>, k: int, d: NodeId) -> bool {
    exists|j: int| 0 <= j < k && (#[trigger] ts[j]).id == d && ts[j].finish_cycle <= ts[k].start_cycle
}

/// Number of the ids of `ids` below `u` whose node has class `c`.
pub open spec fn count_class_below(g: SchedGraph, ids: Seq<NodeId>, c: Resource, u: int) -> nat
    decreases ids.len(),
{
    if ids.len() == 0 {
        0
    } else {
        count_class_below(g, ids.drop_last(), c, u) + if ids.last() < u && class_at(g, ids.last() as int) == c {
            1nat
        } else {
            0nat
        }
    }
}

/// Node `u` has no entry in `ts` and each of its dependencies has an entry
/// of `ts` finished by cycle `t`.
pub open spec fn ready_before(g: SchedGraph, ts: Seq<TimedNode>, u: int, t: int) -> bool {
    !timed_ids(ts).contains(u as NodeId) && ready_in(g, ts, u, t)
}

/// `batch` is the greedy pass at cycle `t` after the entries `ts`: it issues
/// only nodes ready then, and every node ready then that it leaves out found
/// its resource full when its turn came (ready nodes take their turns by
/// increasing id, each issued one counting against its resource).
pub open spec fn greedy_pass(g: SchedGraph, params: SchedParams, ts: Seq<TimedNode>, t: int, batch: Seq<NodeId>) -> bool {
    &&& forall|j: int| 0 <= j < batch.len() ==> ready_before(g, ts, #[trigger] batch[j] as int, t)
    &&& forall|u: int|
        0 <= u < g.nodes@.len() && #[trigger] ready_before(g, ts, u, t) && !batch.contains(u as NodeId) ==> (
        params.capacity(class_at(g, u)) matches Some(cap) && busy_count(g, ts, class_at(g, u), t)
            + count_class_below(g, batch, class_at(g, u), u) >= cap)
}

/// Number of entries listed by the batches before batch `b`.
pub open spec fn batch_start(bs: Seq<Batch>, b: int) -> nat {
    batch_ids(bs.take(b)).len()
}

/// What `schedule_graph` can be asked for: a well-formed graph, a parameter
/// set with room for every class that occurs in it, and a horizon
/// (`nodes x (largest latency + 1)`) that fits in a `usize`.
pub open spec fn can_schedule(g: SchedGraph, params: SchedParams) -> bool {
    &&& g.well_formed()
    &&& params.well_formed()
    &&& forall|i: int|
        0 <= i < g.nodes@.len() ==> (params.capacity(#[trigger] class_at(g, i)) matches Some(c)
            ==> c >= 1)
    &&& g.nodes@.len() * (max_latency(g, params) + 1) <= usize::MAX
}

/// `s` is the greedy cycle-level schedule of `g` under `params`:
/// - every node issues exactly once, and finishes its latency later;
/// - entries are listed in issue order, so start cycles never decrease;
/// - a node issues only after every dependency has finished;
/// - a node of a metered class issues only while fewer than its capacity of
///   nodes of that class occupy the resource at that cycle;
/// - a node never waits for nothing: at every earlier cycle a dependency was
///   still running, or its resource was full;
/// - `total_cycles` is the last finish cycle (0 for an empty graph);
/// - the batches list the issued ids in issue order, each with its cycle;
/// - each batch is the greedy pass over the nodes ready at that point;
/// - `topo_order` is the smallest-id-first Kahn order.
pub open spec fn schedule_fits(g: SchedGraph, params: SchedParams, s: Schedule) -> bool {
    let ts = s.timed_nodes@;
    let n = g.nodes@.len();
    &&& ts.len() == n
    &&& timed_ids(ts).no_duplicates()
    &&& forall|k: int| 0 <= k < ts.len() ==> (#[trigger] ts[k]).id < n
    &&& forall|k: int|
        0 <= k < ts.len() ==> (#[trigger] ts[k]).finish_cycle == ts[k].start_cycle + lat_of(
            g,
            params,
            ts[k].id as int,
        )
    &&& forall|k: int, j: int| 0 <= k < j < ts.len() ==> #[trigger] ts[k].start_cycle <= #[trigger] ts[j].start_cycle
    &&& forall|k: int, q: int|
        0 <= k < ts.len() && 0 <= q < g.deps_of(ts[k].id as int).len() ==> dep_done(ts, k, #[trigger] g.deps_of(ts[k].id as int)[q])
    &&& forall|k: int|
        0 <= k < ts.len() ==> (params.capacity(class_at(g, (#[trigger] ts[k]).id as int)) matches Some(
            cap,
        ) ==> busy_count(g, ts.take(k), class_at(g, ts[k].id as int), ts[k].start_cycle as int)
            < cap)
    &&& forall|k: int, t: int|
        0 <= k < ts.len() && 0 <= t < ts[k].start_cycle ==> !#[trigger] ready_in(
            g,
            ts,
            ts[k].id as int,
            t,
        ) || saturated(g, params, ts, ts[k].id as int, t)
    &&& ts.len() == 0 ==> s.total_cycles == 0
    &&& forall|k: int| 0 <= k < ts.len() ==> (#[trigger] ts[k]).finish_cycle <= s.total_cycles
    &&& ts.len() > 0 ==> exists|k: int| 0 <= k < ts.len() && (#[trigger] ts[k]).finish_cycle == s.total_cycles
    &&& batch_ids(s.batches@) == timed_ids(ts)
    &&& batch_cycles(s.batches@) == ts.map_values(|e: TimedNode| e.start_cycle)
    &&& forall|b: int| 0 <= b < s.batches@.len() ==> (#[trigger] s.batches@[b]).node_ids@.len() > 0
    &&& forall|b: int|
        0 <= b < s.batches@.len() ==> greedy_pass(
            g,
            params,
            ts.take(batch_start(s.batches@, b) as int),
            (#[trigger] s.batches@[b]).cycle as int,
            s.batches@[b].node_ids@,
        )
    &&& is_kahn_order(g, s.topo_order@)
}

// ------------------------------------------------------------------
// Resource bookkeeping
// ------------------------------------------------------------------
/// Units in use per metered resource class during one cycle.
struct Usage {
    input: usize,
    load: usize,
    core: usize,
    bcast: usize,
    reduce: usize,
    writeback: usize,
}

impl Usage {
    spec fn get(&self, c: Resource) -> nat {
        match c {
            Resource::Input => self.input as nat,
            Resource::Load => self.load as nat,
            Resource::Core => self.core as nat,
            Resource::Bcast => self.bcast as nat,
            Resource::Reduce => self.reduce as nat,
            Resource::WriteBack => self.writeback as nat,
            Resource::Unmetered => 0,
        }
    }

    fn used(&self, c: Resource) -> (r: usize)
        ensures
            r == self.get(c),
    {
        match c {
            Resource::Input => self.input,
            Resource::Load => self.load,
            Resource::Core => self.core,
            Resource::Bcast => self.bcast,
            Resource::Reduce => self.reduce,
            Resource::WriteBack => self.writeback,
            Resource::Unmetered => 0,
        }
    }

    fn bump(&mut self, c: Resource)
        requires
            c != Resource::Unmetered,
            old(self).get(c) < usize::MAX,
        ensures
            final(self).get(c) == old(self).get(c) + 1,
            forall|o: Resource| o != c ==> final(self).get(o) == old(self).get(o),
    {
        match c {
            Resource::Input => self.input = self.input + 1,
            Resource::Load => self.load = self.load + 1,
            Resource::Core => self.core = self.core + 1,
            Resource::Bcast => self.bcast = self.bcast + 1,
            Resource::Reduce => self.reduce = self.reduce + 1,
            Resource::WriteBack => self.writeback = self.writeback + 1,
            Resource::Unmetered => {},
        }
    }
}

/// The capacity of a class, `None` for no limit.
fn capacity_of(params: &SchedParams, c: Resource) -> (r: Option<usize>)
    ensures
        r matches Some(v) ==> params.capacity(c) == Some(v as nat),
        r is None ==> params.capacity(c) is None,
{
    match c {
        Resource::Input => Some(1),
        Resource::Load => Some(1),
        Resource::Core => Some(params.core_slots),
        Resource::Bcast => Some(params.bcast_ports),
        Resource::Reduce => Some(params.reduce_ports),
        Resource::WriteBack => Some(1),
        Resource::Unmetered => None,
    }
}

/// Entries of class `c` that run at `t` in the sense `start <= t < finish`.
spec fn active_count(g: SchedGraph, ts: Seq<TimedNode>, c: Resource, t: int) -> nat
    decreases ts.len(),
{
    if ts.len() == 0 {
        0
    } else {
        active_count(g, ts.drop_last(), c, t) + if class_at(g, ts.last().id as int) == c
            && ts.last().start_cycle <= t < ts.last().finish_cycle {
            1nat
        } else {
            0nat
        }
    }
}

proof fn lemma_active_is_busy(g: SchedGraph, ts: Seq<TimedNode>, c: Resource, t: int)
    requires
        forall|k: int| 0 <= k < ts.len() ==> (#[trigger] ts[k]).start_cycle < t,
    ensures
        active_count(g, ts, c, t) == busy_count(g, ts, c, t),
    decreases ts.len(),
{
    if ts.len() > 0 {
        let p = ts.drop_last();
        assert forall|k: int| 0 <= k < p.len() implies (#[trigger] p[k]).start_cycle < t by {
            assert(p[k] == ts[k]);
        }
        lemma_active_is_busy(g, p, c, t);
        assert(ts[ts.len() - 1] == ts.last());
    }
}

proof fn lemma_busy_count_bounded(g: SchedGraph, ts: Seq<TimedNode>, c: Resource, t: int)
    ensures
        busy_count(g, ts, c, t) <= ts.len(),
    decreases ts.len(),
{
    if ts.len() > 0 {
        lemma_busy_count_bounded(g, ts.drop_last(), c, t);
    }
}

/// The resource use at cycle `now` of what has issued so far.
fn active_resource_usage(graph: &SchedGraph, timed: &Vec<TimedNode>, now: usize) -> (u: Usage)
    requires
        forall|k: int| 0 <= k < timed@.len() ==> (#[trigger] timed@[k]).id < graph.nodes@.len(),
    ensures
        forall|c: Resource| c != Resource::Unmetered ==> u.get(c) == active_count(*graph, timed@, c, now as int),
{
    let mut u = Usage { input: 0, load: 0, core: 0, bcast: 0, reduce: 0, writeback: 0 };
    let mut k: usize = 0;
    while k < timed.len()
        invariant
            k <= timed@.len(),
            forall|q: int| 0 <= q < timed@.len() ==> (#[trigger] timed@[q]).id < graph.nodes@.len(),
            forall|c: Resource|
                c != Resource::Unmetered ==> u.get(c) == active_count(
                    *graph,
                    timed@.take(k as int),
                    c,
                    now as int,
                ),
        decreases timed@.len() - k,
    {
        let t = timed[k];
        let ghost before = u;
        proof {
            assert(timed@.take(k + 1).drop_last() =~= timed@.take(k as int));
            assert forall|c: Resource| c != Resource::Unmetered implies active_count(*graph, timed@.take(k as int), c, now as int) <= k by {
                lemma_active_count_bounded(*graph, timed@.take(k as int), c, now as int);
            }
        }
        if t.start_cycle <= now && now < t.finish_cycle {
            let c = resource_of(&graph.nodes[t.id].node_type);
            if c != Resource::Unmetered {
                u.bump(c);
            }
        }
        k = k + 1;
    }
    proof {
        assert(timed@.take(timed@.len() as int) =~= timed@);
    }
    u
}

proof fn lemma_active_count_bounded(g: SchedGraph, ts: Seq<TimedNode>, c: Resource, t: int)
    ensures
        active_count(g, ts, c, t) <= ts.len(),
    decreases ts.len(),
{
    if ts.len() > 0 {
        lemma_active_count_bounded(g, ts.drop_last(), c, t);
    }
}

/// Ids below `graph.nodes.len()`, in increasing order, of the nodes that have
/// not issued and whose dependencies have all finished by `now`.
fn ready_nodes(graph: &SchedGraph, issued: &Vec<bool>, finish: &Vec<usize>, now: usize) -> (r: Vec<
    NodeId,
>)
    requires
        graph.ids_ok(),
        issued@.len() == graph.nodes@.len(),
        finish@.len() == graph.nodes@.len(),
    ensures
        forall|p: int, q: int| 0 <= p < q < r@.len() ==> r@[p] < r@[q],
        forall|p: int| 0 <= p < r@.len() ==> #[trigger] r@[p] < graph.nodes@.len(),
        forall|i: int|
            0 <= i < graph.nodes@.len() ==> (#[trigger] r@.contains(i as NodeId) <==> (!issued@[i]
                && forall|k: int|
                0 <= k < graph.deps_of(i).len() ==> issued@[#[trigger] graph.deps_of(i)[k] as int]
                    && finish@[graph.deps_of(i)[k] as int] <= now)),
{
    let n = graph.nodes.len();
    let mut r: Vec<NodeId> = Vec::new();
    let mut i: usize = 0;
    while i < n
        invariant
            n == graph.nodes@.len(),
            graph.ids_ok(),
            issued@.len() == n,
            finish@.len() == n,
            i <= n,
            forall|p: int, q: int| 0 <= p < q < r@.len() ==> r@[p] < r@[q],
            forall|p: int| 0 <= p < r@.len() ==> #[trigger] r@[p] < i,
            forall|j: int|
                0 <= j < i ==> (#[trigger] r@.contains(j as NodeId) <==> (!issued@[j] && forall|k: int|
                    0 <= k < graph.deps_of(j).len() ==> issued@[#[trigger] graph.deps_of(j)[k] as int]
                        && finish@[graph.deps_of(j)[k] as int] <= now)),
        decreases n - i,
    {
        let ok = if issued[i] {
            false
        } else {
            let deps = &graph.nodes[i].deps;
            let mut all = true;
            let mut k: usize = 0;
            while k < deps.len()
                invariant
                    *deps == graph.nodes@[i as int].deps,
                    graph.ids_ok(),
                    i < graph.nodes@.len(),
                    issued@.len() == graph.nodes@.len(),
                    finish@.len() == graph.nodes@.len(),
                    k <= deps@.len(),
                    all <==> forall|q: int|
                        0 <= q < k ==> issued@[#[trigger] deps@[q] as int] && finish@[deps@[q] as int]
                            <= now,
                decreases deps@.len() - k,
            {
                let d = deps[k];
                if !(issued[d] && finish[d] <= now) {
                    all = false;
                }
                k = k + 1;
            }
            proof {
                assert(deps@ == graph.deps_of(i as int));
                if all {
                    assert forall|k: int| 0 <= k < graph.deps_of(i as int).len() implies issued@[#[trigger] graph.deps_of(i as int)[k] as int]
                        && finish@[graph.deps_of(i as int)[k] as int] <= now by {
                        assert(deps@[k] == graph.deps_of(i as int)[k]);
                    }
                } else {
                    let q = choose|q: int| 0 <= q < deps@.len() && !(issued@[deps@[q] as int] && finish@[deps@[q] as int] <= now);
                    assert(graph.deps_of(i as int)[q] == deps@[q]);
                }
            }
            all
        };
        assert(ok <==> (!issued@[i as int] && forall|k: int|
            0 <= k < graph.deps_of(i as int).len() ==> issued@[#[trigger] graph.deps_of(i as int)[k] as int]
                && finish@[graph.deps_of(i as int)[k] as int] <= now));
        let ghost old_r = r@;
        if ok {
            r.push(i);
        }
        proof {
            assert forall|j: int| 0 <= j <= i implies (#[trigger] r@.contains(j as NodeId) <==> (!issued@[j]
                && forall|k: int|
                0 <= k < graph.deps_of(j).len() ==> issued@[#[trigger] graph.deps_of(j)[k] as int]
                    && finish@[graph.deps_of(j)[k] as int] <= now)) by {
                lemma_push_contains(old_r, i, j as NodeId);
                if j < i {
                    assert(old_r.contains(j as NodeId) <==> (!issued@[j] && forall|k: int|
                        0 <= k < graph.deps_of(j).len() ==> issued@[#[trigger] graph.deps_of(j)[k] as int]
                            && finish@[graph.deps_of(j)[k] as int] <= now));
                }
                if j == i {
                    if !ok && old_r.contains(j as NodeId) {
                        let p = choose|p: int| 0 <= p < old_r.len() && old_r[p] == j;
                        assert(old_r[p] < i);
                    }
                    if ok {
                        assert(r@[r@.len() - 1] == i);
                    }
                } else if !ok {
                } else {
                    if r@.contains(j as NodeId) {
                        let p = choose|p: int| 0 <= p < r@.len() && r@[p] == j;
                        if p < old_r.len() {
                            assert(old_r[p] == j);
                        }
                    }
                }
            }
        }
        i = i + 1;
    }
    r
}

/// Number of the ids in `ids` whose node has class `c`.
spec fn count_class(g: SchedGraph, ids: Seq<NodeId>, c: Resource) -> nat
    decreases ids.len(),
{
    if ids.len() == 0 {
        0
    } else {
        count_class(g, ids.drop_last(), c) + if class_at(g, ids.last() as int) == c {
            1nat
        } else {
            0nat
        }
    }
}

/// Room left under capacity `cap` once `used` is taken.
spec fn room(cap: nat, used: nat) -> nat {
    if used <= cap {
        (cap - used) as nat
    } else {
        0
    }
}

spec fn min_nat(a: nat, b: nat) -> nat {
    if a <= b {
        a
    } else {
        b
    }
}

/// The pass that starts from `used` issues position `p` of `ready`: its class
/// has no capacity limit, or the nodes of its class before it in `ready` still
/// leave room for it.
spec fn pass_accepts(g: SchedGraph, params: SchedParams, used: Usage, ready: Seq<NodeId>, p: int) -> bool {
    let c = class_at(g, ready[p] as int);
    match params.capacity(c) {
        None => true,
        Some(cap) => used.get(c) + count_class(g, ready.take(p), c) < cap,
    }
}

/// The nodes that the pass issues among the first `q` positions of `ready`,
/// in the order of `ready`.
spec fn pass_batch(g: SchedGraph, params: SchedParams, used: Usage, ready: Seq<NodeId>, q: int) -> Seq<NodeId>
    decreases q,
{
    if q <= 0 {
        Seq::empty()
    } else {
        let prev = pass_batch(g, params, used, ready, q - 1);
        if pass_accepts(g, params, used, ready, q - 1) {
            prev.push(ready[q - 1])
        } else {
            prev
        }
    }
}

/// `batch` is what the pass that starts from `used` issues from `ready`: the
/// accepted positions of `ready`, in its order, so that each class with a
/// capacity limit takes as many of its ready nodes as its room allows.
#[verifier::opaque]
spec fn issued_by_position(g: SchedGraph, params: SchedParams, used: Usage, ready: Seq<NodeId>, batch: Seq<NodeId>) -> bool {
    &&& batch == pass_batch(g, params, used, ready, ready.len() as int)
    &&& forall|c: Resource|
        #[trigger] params.capacity(c) matches Some(cap) ==> count_class(g, batch, c) == min_nat(
            count_class(g, ready, c),
            room(cap, used.get(c)),
        )
}

/// One greedy pass: scans the ready nodes in the order given and issues each
/// one whose resource still has room, counting it against that resource.
/// The issued nodes are those of `ready` in its order, where a class without
/// capacity limit takes all its nodes and any other class its first
/// `cap - used` nodes. When `ready` lists ids in increasing order, the pass
/// is also described by id, as the schedule states it.
fn issue_batch(graph: &SchedGraph, params: &SchedParams, ready: &Vec<NodeId>, usage: &mut Usage) -> (batch: Vec<NodeId>)
    requires
        forall|p: int| 0 <= p < ready@.len() ==> #[trigger] ready@[p] < graph.nodes@.len(),
    ensures
        issued_by_position(*graph, *params, *old(usage), ready@, batch@),
        forall|c: Resource|
            c != Resource::Unmetered ==> #[trigger] final(usage).get(c) == old(usage).get(c) + count_class(
                *graph,
                batch@,
                c,
            ),
        forall|p: int| 0 <= p < batch@.len() ==> ready@.contains(#[trigger] batch@[p]),
        forall|p: int|
            0 <= p < batch@.len() ==> (params.capacity(class_at(*graph, #[trigger] batch@[p] as int)) matches Some(
                cap,
            ) ==> old(usage).get(class_at(*graph, batch@[p] as int)) + count_class(
                *graph,
                batch@.take(p),
                class_at(*graph, batch@[p] as int),
            ) < cap),
        batch@.len() == 0 ==> forall|p: int|
            0 <= p < ready@.len() ==> (params.capacity(class_at(*graph, #[trigger] ready@[p] as int)) matches Some(
                cap,
            ) && old(usage).get(class_at(*graph, ready@[p] as int)) >= cap),
        (forall|p: int, q: int| 0 <= p < q < ready@.len() ==> ready@[p] < ready@[q]) ==> {
            &&& forall|p: int, q: int| 0 <= p < q < batch@.len() ==> batch@[p] < batch@[q]
            &&& forall|p: int|
                0 <= p < ready@.len() && !batch@.contains(#[trigger] ready@[p]) ==> (params.capacity(
                    class_at(*graph, ready@[p] as int),
                ) matches Some(cap) && old(usage).get(class_at(*graph, ready@[p] as int)) + count_class_below(
                    *graph,
                    batch@,
                    class_at(*graph, ready@[p] as int),
                    ready@[p] as int,
                ) >= cap)
        },
{
    let ghost start = *usage;
    let ghost sorted = forall|p: int, q: int| 0 <= p < q < ready@.len() ==> ready@[p] < ready@[q];
    let mut batch: Vec<NodeId> = Vec::new();
    let mut q: usize = 0;
    proof {
        assert(ready@.take(0) =~= Seq::<NodeId>::empty());
    }
    while q < ready.len()
        invariant
            q <= ready@.len(),
            forall|p: int| 0 <= p < ready@.len() ==> #[trigger] ready@[p] < graph.nodes@.len(),
            sorted == forall|p: int, r: int| 0 <= p < r < ready@.len() ==> ready@[p] < ready@[r],
            batch@ == pass_batch(*graph, *params, start, ready@, q as int),
            forall|c: Resource|
                #[trigger] params.capacity(c) matches Some(cap) ==> count_class(*graph, batch@, c) == min_nat(
                    count_class(*graph, ready@.take(q as int), c),
                    room(cap, start.get(c)),
                ),
            forall|p: int| 0 <= p < batch@.len() ==> ready@.take(q as int).contains(#[trigger] batch@[p]),
            sorted ==> forall|p: int, r: int| 0 <= p < r < batch@.len() ==> batch@[p] < batch@[r],
            sorted ==> (batch@.len() > 0 && q < ready@.len() ==> batch@.last() < ready@[q as int]),
            forall|p: int|
                0 <= p < batch@.len() ==> (params.capacity(class_at(*graph, #[trigger] batch@[p] as int)) matches Some(
                    cap,
                ) ==> start.get(class_at(*graph, batch@[p] as int)) + count_class(
                    *graph,
                    batch@.take(p),
                    class_at(*graph, batch@[p] as int),
                ) < cap),
            forall|c: Resource|
                c != Resource::Unmetered ==> #[trigger] usage.get(c) == start.get(c) + count_class(
                    *graph,
                    batch@,
                    c,
                ),
            batch@.len() == 0 ==> forall|p: int|
                0 <= p < q ==> (params.capacity(class_at(*graph, #[trigger] ready@[p] as int)) matches Some(
                    cap,
                ) && start.get(class_at(*graph, ready@[p] as int)) >= cap),
            sorted ==> forall|p: int|
                0 <= p < q && !batch@.contains(#[trigger] ready@[p]) ==> (params.capacity(
                    class_at(*graph, ready@[p] as int),
                ) matches Some(cap) && start.get(class_at(*graph, ready@[p] as int)) + count_class_below(
                    *graph,
                    batch@,
                    class_at(*graph, ready@[p] as int),
                    ready@[p] as int,
                ) >= cap),
        decreases ready@.len() - q,
    {
        let nid = ready[q];
        let c = resource_of(&graph.nodes[nid].node_type);
        let accepted = match capacity_of(params, c) {
            None => true,
            Some(cap) => usage.used(c) < cap,
        };
        let ghost old_batch = batch@;
        let ghost pre = *usage;
        proof {
            assert(ready@.take(q + 1) =~= ready@.take(q as int).push(nid));
            assert(ready@.take(q + 1).drop_last() =~= ready@.take(q as int));
            assert(accepted == pass_accepts(*graph, *params, start, ready@, q as int)) by {
                if let Some(cap) = params.capacity(c) {
                    assert(count_class(*graph, old_batch, c) == min_nat(
                        count_class(*graph, ready@.take(q as int), c),
                        room(cap, start.get(c)),
                    ));
                }
            }
        }
        if accepted {
            if c != Resource::Unmetered {
                usage.bump(c);
            }
            batch.push(nid);
        }
        proof {
            assert(batch@ == pass_batch(*graph, *params, start, ready@, q + 1));
            assert forall|c2: Resource| #[trigger] params.capacity(c2) is Some implies count_class(
                *graph,
                batch@,
                c2,
            ) == min_nat(count_class(*graph, ready@.take(q + 1), c2), room(params.capacity(c2)->0, start.get(c2))) by {
                if accepted {
                    assert(batch@.drop_last() =~= old_batch);
                }
            }
            assert forall|p: int| 0 <= p < batch@.len() implies ready@.take(q + 1).contains(#[trigger] batch@[p]) by {
                lemma_push_contains(ready@.take(q as int), nid, batch@[p]);
                if p < old_batch.len() {
                    assert(old_batch[p] == batch@[p]);
                }
            }
            if accepted {
                assert(batch@.drop_last() =~= old_batch);
                assert forall|p: int| 0 <= p < old_batch.len() implies #[trigger] batch@.take(p)
                    == old_batch.take(p) by {
                    assert(batch@.take(p) =~= old_batch.take(p));
                }
                assert(batch@.take(old_batch.len() as int) =~= old_batch);
                assert forall|c2: Resource| c2 != Resource::Unmetered implies #[trigger] usage.get(c2)
                    == start.get(c2) + count_class(*graph, batch@, c2) by {}
                assert forall|p: int|
                    0 <= p < batch@.len() implies (params.capacity(class_at(*graph, #[trigger] batch@[p] as int)) matches Some(
                        cap,
                    ) ==> start.get(class_at(*graph, batch@[p] as int)) + count_class(
                        *graph,
                        batch@.take(p),
                        class_at(*graph, batch@[p] as int),
                    ) < cap) by {
                    if p < old_batch.len() {
                        assert(batch@[p] == old_batch[p]);
                        assert(batch@.take(p) == old_batch.take(p));
                    }
                }
            }
            if sorted {
                assert forall|j: int| 0 <= j < old_batch.len() implies #[trigger] old_batch[j] < nid by {
                    if j < old_batch.len() - 1 {
                        assert(old_batch[j] < old_batch[old_batch.len() - 1]);
                    }
                }
                assert forall|p: int|
                    0 <= p < q + 1 && !batch@.contains(#[trigger] ready@[p]) implies (params.capacity(
                        class_at(*graph, ready@[p] as int),
                    ) matches Some(cap) && start.get(class_at(*graph, ready@[p] as int)) + count_class_below(
                        *graph,
                        batch@,
                        class_at(*graph, ready@[p] as int),
                        ready@[p] as int,
                    ) >= cap) by {
                    let cp = class_at(*graph, ready@[p] as int);
                    if p == q {
                        lemma_below_all(*graph, old_batch, cp, nid as int);
                        assert(!accepted);
                        assert(batch@ == old_batch);
                    } else {
                        assert(ready@[p] < nid);
                        if accepted {
                            lemma_push_contains(old_batch, nid, ready@[p]);
                            lemma_below_push(*graph, old_batch, nid, cp, ready@[p] as int);
                        }
                    }
                }
            }
        }
        q = q + 1;
    }
    proof {
        assert(ready@.take(ready@.len() as int) =~= ready@);
        reveal(issued_by_position);
    }
    batch
}

proof fn lemma_below_all(g: SchedGraph, ids: Seq<NodeId>, c: Resource, u: int)
    requires
        forall|k: int| 0 <= k < ids.len() ==> #[trigger] ids[k] < u,
    ensures
        count_class_below(g, ids, c, u) == count_class(g, ids, c),
    decreases ids.len(),
{
    if ids.len() > 0 {
        assert forall|k: int| 0 <= k < ids.drop_last().len() implies #[trigger] ids.drop_last()[k] < u by {
            assert(ids.drop_last()[k] == ids[k]);
        }
        lemma_below_all(g, ids.drop_last(), c, u);
        assert(ids[ids.len() - 1] < u);
    }
}

proof fn lemma_below_push(g: SchedGraph, ids: Seq<NodeId>, x: NodeId, c: Resource, u: int)
    requires
        x >= u,
    ensures
        count_class_below(g, ids.push(x), c, u) == count_class_below(g, ids, c, u),
{
    assert(ids.push(x).drop_last() =~= ids);
}

/// Number of `true` flags.
spec fn count_true(s: Seq<bool>) -> nat
    decreases s.len(),
{
    if s.len() == 0 {
        0
    } else {
        count_true(s.drop_last()) + if s.last() {
            1nat
        } else {
            0nat
        }
    }
}

proof fn lemma_count_true_set(s: Seq<bool>, i: int)
    requires
        0 <= i < s.len(),
        !s[i],
    ensures
        count_true(s.update(i, true)) == count_true(s) + 1,
    decreases s.len(),
{
    let t = s.update(i, true);
    if i < s.len() - 1 {
        assert(t.drop_last() =~= s.drop_last().update(i, true));
        lemma_count_true_set(s.drop_last(), i);
    } else {
        assert(t.drop_last() =~= s.drop_last());
    }
}

proof fn lemma_count_true_bound(s: Seq<bool>)
    ensures
        count_true(s) <= s.len(),
        count_true(s) < s.len() ==> exists|i: int| 0 <= i < s.len() && !s[i],
    decreases s.len(),
{
    if s.len() > 0 {
        lemma_count_true_bound(s.drop_last());
        if count_true(s) < s.len() {
            if !s.last() {
                assert(!s[s.len() - 1]);
            } else {
                let i = choose|i: int| 0 <= i < s.drop_last().len() && !s.drop_last()[i];
                assert(!s[i]);
            }
        }
    }
}

/// Some node that has not issued has every dependency issued.
proof fn lemma_unissued_source(g: SchedGraph, issued: Seq<bool>, rank: spec_fn(int) -> nat, u: int)
    requires
        g.ids_ok(),
        g.ranked_by(rank),
        issued.len() == g.nodes@.len(),
        0 <= u < g.nodes@.len(),
        !issued[u],
    ensures
        exists|w: int|
            0 <= w < g.nodes@.len() && !issued[w] && forall|k: int|
                0 <= k < g.deps_of(w).len() ==> issued[#[trigger] g.deps_of(w)[k] as int],
    decreases rank(u),
{
    if !(forall|k: int| 0 <= k < g.deps_of(u).len() ==> issued[#[trigger] g.deps_of(u)[k] as int]) {
        let k = choose|k: int| 0 <= k < g.deps_of(u).len() && !issued[g.deps_of(u)[k] as int];
        let d = g.deps_of(u)[k] as int;
        assert(g.nodes@[u].deps@[k] < g.nodes@.len());
        assert(rank(g.nodes@[u].deps@[k] as int) < rank(u));
        lemma_unissued_source(g, issued, rank, d);
    }
}

proof fn lemma_mul_mono(a: int, b: int, m: int)
    requires
        0 <= a <= b,
        0 <= m,
    ensures
        a * m <= b * m,
{
    assert(a * m <= b * m) by (nonlinear_arith)
        requires
            0 <= a <= b,
            0 <= m,
    ;
}

proof fn lemma_mul_succ(a: int, m: int)
    ensures
        (a + 1) * m == a * m + m,
{
    assert((a + 1) * m == a * m + m) by (nonlinear_arith);
}


// ------------------------------------------------------------------
// The scheduler
// ------------------------------------------------------------------
/// Bookkeeping: the flags and finish cycles match the entries, and each
/// node has at most one entry.
#[verifier::opaque]
spec fn book_inv(g: SchedGraph, ts: Seq<TimedNode>, issued: Seq<bool>, finish: Seq<usize>) -> bool {
    let n = g.nodes@.len();
    &&& issued.len() == n
    &&& finish.len() == n
    &&& timed_ids(ts).no_duplicates()
    &&& forall|k: int| 0 <= k < ts.len() ==> (#[trigger] ts[k]).id < n
    &&& forall|k: int|
        0 <= k < ts.len() ==> issued[(#[trigger] ts[k]).id as int] && finish[ts[k].id as int]
            == ts[k].finish_cycle
    &&& forall|i: int|
        0 <= i < n && #[trigger] issued[i] ==> exists|k: int| 0 <= k < ts.len() && (#[trigger] ts[k]).id == i
    &&& count_true(issued) == ts.len()
}

/// Timing: each entry finishes its latency after it starts, and entries are
/// listed by start cycle.
#[verifier::opaque]
spec fn time_inv(g: SchedGraph, params: SchedParams, ts: Seq<TimedNode>) -> bool {
    &&& forall|k: int|
        0 <= k < ts.len() ==> (#[trigger] ts[k]).finish_cycle == ts[k].start_cycle + lat_of(
            g,
            params,
            ts[k].id as int,
        )
    &&& forall|k: int, j: int| 0 <= k < j < ts.len() ==> #[trigger] ts[k].start_cycle <= #[trigger] ts[j].start_cycle
}

/// Dependencies: every dependency of an entry has an earlier entry that
/// finishes by the entry's start.
#[verifier::opaque]
spec fn dep_inv(g: SchedGraph, ts: Seq<TimedNode>) -> bool {
    forall|k: int, q: int|
        0 <= k < ts.len() && 0 <= q < g.deps_of(ts[k].id as int).len() ==> dep_done(ts, k, #[trigger] g.deps_of(ts[k].id as int)[q])
}

/// Capacity: each entry of a metered class issued while its resource had room.
#[verifier::opaque]
spec fn cap_inv(g: SchedGraph, params: SchedParams, ts: Seq<TimedNode>) -> bool {
    forall|k: int|
        0 <= k < ts.len() ==> (params.capacity(class_at(g, (#[trigger] ts[k]).id as int)) matches Some(
            cap,
        ) ==> busy_count(g, ts.take(k), class_at(g, ts[k].id as int), ts[k].start_cycle as int)
            < cap)
}

/// What holds of the entries issued so far, whatever the cycle.
#[verifier::opaque]
spec fn core_inv(
    g: SchedGraph,
    params: SchedParams,
    ts: Seq<TimedNode>,
    issued: Seq<bool>,
    finish: Seq<usize>,
) -> bool {
    &&& book_inv(g, ts, issued, finish)
    &&& time_inv(g, params, ts)
    &&& dep_inv(g, ts)
    &&& cap_inv(g, params, ts)
}

/// No node has waited for nothing before cycle `now`.
#[verifier::opaque]
spec fn wc_inv(
    g: SchedGraph,
    params: SchedParams,
    ts: Seq<TimedNode>,
    issued: Seq<bool>,
    now: int,
) -> bool {
    &&& forall|k: int, t: int|
        0 <= k < ts.len() && 0 <= t < ts[k].start_cycle ==> !#[trigger] ready_in(
            g,
            ts,
            ts[k].id as int,
            t,
        ) || saturated(g, params, ts, ts[k].id as int, t)
    &&& forall|u: int, t: int|
        0 <= u < g.nodes@.len() && !issued[u] && 0 <= t < now ==> !#[trigger] ready_in(g, ts, u, t)
            || saturated(g, params, ts, u, t)
}

proof fn lemma_finished_by_push(ts: Seq<TimedNode>, e: TimedNode, d: NodeId, t: int)
    requires
        e.finish_cycle > t,
    ensures
        finished_by(ts.push(e), d, t) <==> finished_by(ts, d, t),
{
    if finished_by(ts.push(e), d, t) {
        let k = choose|k: int| 0 <= k < ts.push(e).len() && (#[trigger] ts.push(e)[k]).id == d && ts.push(e)[k].finish_cycle <= t;
        assert(k < ts.len());
        assert(ts[k] == ts.push(e)[k]);
    }
    if finished_by(ts, d, t) {
        let k = choose|k: int| 0 <= k < ts.len() && (#[trigger] ts[k]).id == d && ts[k].finish_cycle <= t;
        assert(ts.push(e)[k] == ts[k]);
    }
}

proof fn lemma_ready_in_push(g: SchedGraph, ts: Seq<TimedNode>, e: TimedNode, u: int, t: int)
    requires
        e.finish_cycle > t,
    ensures
        ready_in(g, ts.push(e), u, t) <==> ready_in(g, ts, u, t),
{
    assert forall|k: int| 0 <= k < g.deps_of(u).len() implies (finished_by(ts.push(e), #[trigger] g.deps_of(u)[k], t)
        <==> finished_by(ts, g.deps_of(u)[k], t)) by {
        lemma_finished_by_push(ts, e, g.deps_of(u)[k], t);
    }
}

/// Issuing node `u` keeps the bookkeeping.
proof fn lemma_issue_book(
    g: SchedGraph,
    ts: Seq<TimedNode>,
    issued: Seq<bool>,
    finish: Seq<usize>,
    e: TimedNode,
)
    requires
        g.nodes@.len() <= usize::MAX,
        book_inv(g, ts, issued, finish),
        e.id < g.nodes@.len(),
        !issued[e.id as int],
    ensures
        ts.len() < g.nodes@.len(),
        book_inv(g, ts.push(e), issued.update(e.id as int, true), finish.update(e.id as int, e.finish_cycle)),
{
    reveal(book_inv);
    let u = e.id as int;
    lemma_count_true_bound(issued);
    lemma_count_true_set(issued, u);
    lemma_count_true_bound(issued.update(u, true));
    let ts2 = ts.push(e);
    let issued2 = issued.update(u, true);
    let finish2 = finish.update(u, e.finish_cycle);
    let n = g.nodes@.len();
    assert(ts2.drop_last() =~= ts);
    assert forall|k: int| 0 <= k < ts.len() implies (#[trigger] ts[k]).id != u by {
        assert(issued[ts[k].id as int]);
    }
    assert(timed_ids(ts2).no_duplicates()) by {
        assert forall|i: int, j: int| 0 <= i < timed_ids(ts2).len() && 0 <= j < timed_ids(ts2).len() && i != j implies timed_ids(ts2)[i]
            != timed_ids(ts2)[j] by {
            assert(timed_ids(ts2)[i] == ts2[i].id);
            assert(timed_ids(ts2)[j] == ts2[j].id);
            if j == ts.len() {
                assert(ts2[i] == ts[i]);
                assert(ts[i].id != u);
            } else if i == ts.len() {
                assert(ts2[j] == ts[j]);
                assert(ts[j].id != u);
            } else {
                assert(ts2[i] == ts[i] && ts2[j] == ts[j]);
                assert(timed_ids(ts)[i] == ts[i].id && timed_ids(ts)[j] == ts[j].id);
                assert(timed_ids(ts)[i] != timed_ids(ts)[j]);
            }
        }
    }
    assert forall|k: int| 0 <= k < ts2.len() implies issued2[(#[trigger] ts2[k]).id as int] && finish2[ts2[k].id as int]
        == ts2[k].finish_cycle by {
        if k < ts.len() {
            assert(ts2[k] == ts[k]);
            assert(ts[k].id != u);
            assert(issued[ts[k].id as int] && finish[ts[k].id as int] == ts[k].finish_cycle);
        } else {
            assert(ts2[k] == e);
        }
    }
    assert forall|i: int| 0 <= i < n && #[trigger] issued2[i] implies exists|k: int| 0 <= k < ts2.len() && (#[trigger] ts2[k]).id == i by {
        if i == u {
            assert(ts2[ts.len() as int].id == i);
        } else {
            let k = choose|k: int| 0 <= k < ts.len() && (#[trigger] ts[k]).id == i;
            assert(ts2[k].id == i);
        }
    }
    assert forall|k: int| 0 <= k < ts2.len() implies (#[trigger] ts2[k]).id < n by {
        if k < ts.len() {
            assert(ts2[k] == ts[k]);
        }
    }
}

/// An entry that starts no earlier than the others keeps the timing.
proof fn lemma_issue_time(g: SchedGraph, params: SchedParams, ts: Seq<TimedNode>, e: TimedNode)
    requires
        time_inv(g, params, ts),
        forall|k: int| 0 <= k < ts.len() ==> (#[trigger] ts[k]).start_cycle <= e.start_cycle,
        e.finish_cycle == e.start_cycle + lat_of(g, params, e.id as int),
    ensures
        time_inv(g, params, ts.push(e)),
{
    reveal(time_inv);
    let ts2 = ts.push(e);
    assert forall|k: int, j: int| 0 <= k < j < ts2.len() implies #[trigger] ts2[k].start_cycle <= #[trigger] ts2[j].start_cycle by {
        if j < ts.len() {
            assert(ts2[k] == ts[k] && ts2[j] == ts[j]);
        } else {
            assert(ts2[k] == ts[k]);
        }
    }
    assert forall|k: int| 0 <= k < ts2.len() implies (#[trigger] ts2[k]).finish_cycle == ts2[k].start_cycle
        + lat_of(g, params, ts2[k].id as int) by {
        if k < ts.len() {
            assert(ts2[k] == ts[k]);
        }
    }
}

/// An entry whose dependencies all have entries finishing by its start keeps
/// the dependency order.
proof fn lemma_issue_dep(
    g: SchedGraph,
    ts: Seq<TimedNode>,
    issued: Seq<bool>,
    finish: Seq<usize>,
    e: TimedNode,
)
    requires
        g.ids_ok(),
        dep_inv(g, ts),
        book_inv(g, ts, issued, finish),
        e.id < g.nodes@.len(),
        forall|k: int|
            0 <= k < g.deps_of(e.id as int).len() ==> issued[#[trigger] g.deps_of(e.id as int)[k] as int]
                && finish[g.deps_of(e.id as int)[k] as int] <= e.start_cycle,
    ensures
        dep_inv(g, ts.push(e)),
{
    reveal(dep_inv);
    reveal(book_inv);
    let ts2 = ts.push(e);
    let u = e.id as int;
    assert forall|k: int, q: int|
        0 <= k < ts2.len() && 0 <= q < g.deps_of(ts2[k].id as int).len() implies dep_done(ts2, k, #[trigger] g.deps_of(ts2[k].id as int)[q]) by {
        let d = g.deps_of(ts2[k].id as int)[q];
        if k < ts.len() {
            assert(ts2[k] == ts[k]);
            assert(dep_done(ts, k, d));
            let j = choose|j: int| 0 <= j < k && (#[trigger] ts[j]).id == d && ts[j].finish_cycle <= ts[k].start_cycle;
            assert(ts2[j] == ts[j]);
        } else {
            assert(ts2[k] == e);
            assert(g.nodes@[u].deps@[q] < g.nodes@.len());
            assert(issued[d as int] && finish[d as int] <= e.start_cycle);
            let j = choose|j: int| 0 <= j < ts.len() && (#[trigger] ts[j]).id == d as int;
            assert(ts2[j] == ts[j]);
            assert(finish[ts[j].id as int] == ts[j].finish_cycle);
        }
    }
}

/// An entry issued while its resource had room keeps the capacity record.
proof fn lemma_issue_cap(g: SchedGraph, params: SchedParams, ts: Seq<TimedNode>, e: TimedNode)
    requires
        cap_inv(g, params, ts),
        params.capacity(class_at(g, e.id as int)) matches Some(cap) ==> busy_count(g, ts, class_at(g, e.id as int), e.start_cycle as int)
            < cap,
    ensures
        cap_inv(g, params, ts.push(e)),
{
    reveal(cap_inv);
    let ts2 = ts.push(e);
    assert forall|k: int|
        0 <= k < ts2.len() implies (params.capacity(class_at(g, (#[trigger] ts2[k]).id as int)) matches Some(
            cap,
        ) ==> busy_count(g, ts2.take(k), class_at(g, ts2[k].id as int), ts2[k].start_cycle as int)
            < cap) by {
        if k < ts.len() {
            assert(ts2.take(k) =~= ts.take(k));
            assert(ts2[k] == ts[k]);
        } else {
            assert(ts2.take(k) =~= ts);
        }
    }
}

/// Issuing node `u` at cycle `now` keeps the bookkeeping invariant.
proof fn lemma_issue_core(
    g: SchedGraph,
    params: SchedParams,
    ts: Seq<TimedNode>,
    issued: Seq<bool>,
    finish: Seq<usize>,
    now: int,
    u: int,
)
    requires
        g.ids_ok(),
        g.nodes@.len() <= usize::MAX,
        core_inv(g, params, ts, issued, finish),
        forall|k: int| 0 <= k < ts.len() ==> (#[trigger] ts[k]).start_cycle <= now,
        0 <= u < g.nodes@.len(),
        !issued[u],
        0 <= now,
        now + lat_of(g, params, u) <= usize::MAX,
        forall|k: int|
            0 <= k < g.deps_of(u).len() ==> issued[#[trigger] g.deps_of(u)[k] as int]
                && finish[g.deps_of(u)[k] as int] <= now,
        params.capacity(class_at(g, u)) matches Some(cap) ==> busy_count(g, ts, class_at(g, u), now)
            < cap,
    ensures
        ts.len() < g.nodes@.len(),
        core_inv(
            g,
            params,
            ts.push(TimedNode { id: u as NodeId, start_cycle: now as usize, finish_cycle: (now + lat_of(g, params, u)) as usize }),
            issued.update(u, true),
            finish.update(u, (now + lat_of(g, params, u)) as usize),
        ),
{
    reveal(core_inv);
    let e = TimedNode {
        id: u as NodeId,
        start_cycle: now as usize,
        finish_cycle: (now + lat_of(g, params, u)) as usize,
    };
    lemma_issue_book(g, ts, issued, finish, e);
    lemma_issue_time(g, params, ts, e);
    lemma_issue_dep(g, ts, issued, finish, e);
    lemma_issue_cap(g, params, ts, e);
}

/// Issuing node `u` at cycle `now` keeps the waiting invariant.
proof fn lemma_issue_wc(
    g: SchedGraph,
    params: SchedParams,
    ts: Seq<TimedNode>,
    issued: Seq<bool>,
    now: int,
    u: int,
)
    requires
        wc_inv(g, params, ts, issued, now),
        issued.len() == g.nodes@.len(),
        g.nodes@.len() <= usize::MAX,
        forall|k: int| 0 <= k < ts.len() ==> (#[trigger] ts[k]).start_cycle <= now,
        0 <= u < g.nodes@.len(),
        !issued[u],
        0 <= now,
        now + lat_of(g, params, u) <= usize::MAX,
    ensures
        wc_inv(
            g,
            params,
            ts.push(TimedNode { id: u as NodeId, start_cycle: now as usize, finish_cycle: (now + lat_of(g, params, u)) as usize }),
            issued.update(u, true),
            now,
        ),
{
    reveal(wc_inv);
    let e = TimedNode {
        id: u as NodeId,
        start_cycle: now as usize,
        finish_cycle: (now + lat_of(g, params, u)) as usize,
    };
    let ts2 = ts.push(e);
    assert(ts2.drop_last() =~= ts);
    // waiting facts concern cycles before `now`; the new entry runs from `now` on
    assert forall|w: int, t: int| 0 <= t < now implies (#[trigger] ready_in(g, ts2, w, t) <==> ready_in(
        g,
        ts,
        w,
        t,
    )) && (saturated(g, params, ts2, w, t) <==> saturated(g, params, ts, w, t)) by {
        lemma_ready_in_push(g, ts, e, w, t);
    }
    assert forall|k: int, t: int|
        0 <= k < ts2.len() && 0 <= t < ts2[k].start_cycle implies !#[trigger] ready_in(
            g,
            ts2,
            ts2[k].id as int,
            t,
        ) || saturated(g, params, ts2, ts2[k].id as int, t) by {
        lemma_ready_in_push(g, ts, e, ts2[k].id as int, t);
        if k < ts.len() {
            assert(ts2[k] == ts[k]);
            assert(ts[k].start_cycle <= now);
            assert(!ready_in(g, ts, ts[k].id as int, t) || saturated(g, params, ts, ts[k].id as int, t));
        } else {
            assert(ts2[k] == e);
            assert(!ready_in(g, ts, u, t) || saturated(g, params, ts, u, t));
        }
    }
    let issued2 = issued.update(u, true);
    assert forall|w: int, t: int|
        0 <= w < g.nodes@.len() && !issued2[w] && 0 <= t < now implies !#[trigger] ready_in(g, ts2, w, t)
            || saturated(g, params, ts2, w, t) by {
        lemma_ready_in_push(g, ts, e, w, t);
        assert(!issued[w]);
        assert(!ready_in(g, ts, w, t) || saturated(g, params, ts, w, t));
    }
}

/// After the last pass of cycle `now` found nothing to issue, no waiting
/// node was ready with room left at `now`.
proof fn lemma_close_cycle(
    g: SchedGraph,
    params: SchedParams,
    ts: Seq<TimedNode>,
    issued: Seq<bool>,
    finish: Seq<usize>,
    now: int,
)
    requires
        core_inv(g, params, ts, issued, finish),
        wc_inv(g, params, ts, issued, now),
        forall|u: int|
            0 <= u < g.nodes@.len() && !issued[u] && (forall|k: int|
                0 <= k < g.deps_of(u).len() ==> issued[#[trigger] g.deps_of(u)[k] as int]
                    && finish[g.deps_of(u)[k] as int] <= now) ==> saturated(g, params, ts, u, now),
    ensures
        wc_inv(g, params, ts, issued, now + 1),
{
    reveal(core_inv);
    reveal(book_inv);
    reveal(wc_inv);
    assert forall|u: int, t: int|
        0 <= u < g.nodes@.len() && !issued[u] && 0 <= t < now + 1 implies !#[trigger] ready_in(g, ts, u, t)
            || saturated(g, params, ts, u, t) by {
        if t == now && ready_in(g, ts, u, t) {
            assert forall|k: int| 0 <= k < g.deps_of(u).len() implies issued[#[trigger] g.deps_of(u)[k] as int]
                && finish[g.deps_of(u)[k] as int] <= now by {
                assert(finished_by(ts, g.deps_of(u)[k], t));
                let j = choose|j: int| 0 <= j < ts.len() && (#[trigger] ts[j]).id == g.deps_of(u)[k] && ts[j].finish_cycle <= t;
            }
        }
    }
}

/// Sizes that the invariant fixes.
proof fn lemma_core_sizes(
    g: SchedGraph,
    params: SchedParams,
    ts: Seq<TimedNode>,
    issued: Seq<bool>,
    finish: Seq<usize>,
)
    requires
        core_inv(g, params, ts, issued, finish),
    ensures
        issued.len() == g.nodes@.len(),
        finish.len() == g.nodes@.len(),
        ts.len() <= g.nodes@.len(),
        ts.len() < g.nodes@.len() ==> exists|i: int| 0 <= i < issued.len() && !issued[i],
        forall|i: int| 0 <= i < issued.len() && !issued[i] ==> ts.len() < g.nodes@.len(),
        forall|k: int| 0 <= k < ts.len() ==> (#[trigger] ts[k]).id < g.nodes@.len(),
{
    reveal(core_inv);
    reveal(book_inv);
    lemma_count_true_bound(issued);
    assert forall|i: int| 0 <= i < issued.len() && !issued[i] implies ts.len() < g.nodes@.len() by {
        lemma_count_true_set(issued, i);
        lemma_count_true_bound(issued.update(i, true));
    }
}

/// Nothing issued yet.
proof fn lemma_core_init(g: SchedGraph, params: SchedParams, issued: Seq<bool>, finish: Seq<usize>)
    requires
        issued.len() == g.nodes@.len(),
        finish.len() == g.nodes@.len(),
        forall|i: int| 0 <= i < issued.len() ==> !#[trigger] issued[i],
    ensures
        core_inv(g, params, Seq::empty(), issued, finish),
        wc_inv(g, params, Seq::empty(), issued, 0),
{
    reveal(core_inv);
    reveal(book_inv);
    reveal(time_inv);
    reveal(dep_inv);
    reveal(cap_inv);
    reveal(wc_inv);
    lemma_count_true_false(issued, issued.len() as int);
    assert(issued.take(issued.len() as int) =~= issued);
    assert(timed_ids(Seq::<TimedNode>::empty()) =~= Seq::<NodeId>::empty());
}

/// At a cycle at which nothing runs any more, while some node is still
/// waiting, some waiting node is ready and has room.
proof fn lemma_stuck(
    g: SchedGraph,
    params: SchedParams,
    ts: Seq<TimedNode>,
    issued: Seq<bool>,
    finish: Seq<usize>,
    rank: spec_fn(int) -> nat,
    now: int,
)
    requires
        g.ids_ok(),
        g.ranked_by(rank),
        g.nodes@.len() <= usize::MAX,
        forall|i: int|
            0 <= i < g.nodes@.len() ==> (params.capacity(#[trigger] class_at(g, i)) matches Some(c)
                ==> c >= 1),
        core_inv(g, params, ts, issued, finish),
        ts.len() < g.nodes@.len(),
        forall|k: int| 0 <= k < ts.len() ==> (#[trigger] ts[k]).start_cycle < now && ts[k].finish_cycle <= now,
    ensures
        exists|u: int|
            0 <= u < g.nodes@.len() && !issued[u] && (forall|k: int|
                0 <= k < g.deps_of(u).len() ==> issued[#[trigger] g.deps_of(u)[k] as int]
                    && finish[g.deps_of(u)[k] as int] <= now) && !saturated(g, params, ts, u, now),
{
    lemma_core_sizes(g, params, ts, issued, finish);
    reveal(core_inv);
    reveal(book_inv);
    let w0 = choose|i: int| 0 <= i < issued.len() && !issued[i];
    lemma_unissued_source(g, issued, rank, w0);
    let w = choose|w: int|
        0 <= w < g.nodes@.len() && !issued[w] && forall|k: int|
            0 <= k < g.deps_of(w).len() ==> issued[#[trigger] g.deps_of(w)[k] as int];
    assert forall|k: int| 0 <= k < g.deps_of(w).len() implies issued[#[trigger] g.deps_of(w)[k] as int]
        && finish[g.deps_of(w)[k] as int] <= now by {
        let d = g.deps_of(w)[k] as int;
        assert(g.nodes@[w].deps@[k] < g.nodes@.len());
        assert(issued[d]);
        let j = choose|j: int| 0 <= j < ts.len() && (#[trigger] ts[j]).id == d;
        assert(finish[ts[j].id as int] == ts[j].finish_cycle);
    }
    lemma_nothing_busy(g, ts, class_at(g, w), now);
    assert(!saturated(g, params, ts, w, now));
}

proof fn lemma_final_parts(g: SchedGraph, params: SchedParams, ts: Seq<TimedNode>, issued: Seq<bool>, finish: Seq<usize>)
    requires
        core_inv(g, params, ts, issued, finish),
    ensures
        timed_ids(ts).no_duplicates(),
        forall|k: int| 0 <= k < ts.len() ==> (#[trigger] ts[k]).id < g.nodes@.len(),
        time_inv(g, params, ts),
        dep_inv(g, ts),
        cap_inv(g, params, ts),
{
    reveal(core_inv);
    reveal(book_inv);
}

proof fn lemma_final_time(g: SchedGraph, params: SchedParams, ts: Seq<TimedNode>)
    requires
        time_inv(g, params, ts),
    ensures
        forall|k: int|
            0 <= k < ts.len() ==> (#[trigger] ts[k]).finish_cycle == ts[k].start_cycle + lat_of(
                g,
                params,
                ts[k].id as int,
            ),
        forall|k: int, j: int| 0 <= k < j < ts.len() ==> #[trigger] ts[k].start_cycle <= #[trigger] ts[j].start_cycle,
{
    reveal(time_inv);
}

proof fn lemma_final_dep(g: SchedGraph, ts: Seq<TimedNode>)
    requires
        dep_inv(g, ts),
    ensures
        forall|k: int, q: int|
        0 <= k < ts.len() && 0 <= q < g.deps_of(ts[k].id as int).len() ==> dep_done(ts, k, #[trigger] g.deps_of(ts[k].id as int)[q]),
{
    reveal(dep_inv);
}

proof fn lemma_final_cap(g: SchedGraph, params: SchedParams, ts: Seq<TimedNode>)
    requires
        cap_inv(g, params, ts),
    ensures
        forall|k: int|
            0 <= k < ts.len() ==> (params.capacity(class_at(g, (#[trigger] ts[k]).id as int)) matches Some(
                cap,
            ) ==> busy_count(g, ts.take(k), class_at(g, ts[k].id as int), ts[k].start_cycle as int)
                < cap),
{
    reveal(cap_inv);
}

proof fn lemma_final_wc(g: SchedGraph, params: SchedParams, ts: Seq<TimedNode>, issued: Seq<bool>, now: int)
    requires
        wc_inv(g, params, ts, issued, now),
    ensures
        forall|k: int, t: int|
            0 <= k < ts.len() && 0 <= t < ts[k].start_cycle ==> !#[trigger] ready_in(
                g,
                ts,
                ts[k].id as int,
                t,
            ) || saturated(g, params, ts, ts[k].id as int, t),
{
    reveal(wc_inv);
}

/// The invariants at the end give the promised schedule.
proof fn lemma_final(
    g: SchedGraph,
    params: SchedParams,
    s: Schedule,
    issued: Seq<bool>,
    finish: Seq<usize>,
    now: int,
)
    requires
        core_inv(g, params, s.timed_nodes@, issued, finish),
        wc_inv(g, params, s.timed_nodes@, issued, now),
        s.timed_nodes@.len() == g.nodes@.len(),
        s.timed_nodes@.len() == 0 ==> s.total_cycles == 0,
        forall|k: int| 0 <= k < s.timed_nodes@.len() ==> (#[trigger] s.timed_nodes@[k]).finish_cycle <= s.total_cycles,
        s.timed_nodes@.len() > 0 ==> exists|k: int| 0 <= k < s.timed_nodes@.len() && (#[trigger] s.timed_nodes@[k]).finish_cycle == s.total_cycles,
        batch_ids(s.batches@) == timed_ids(s.timed_nodes@),
        batch_cycles(s.batches@) == s.timed_nodes@.map_values(|e: TimedNode| e.start_cycle),
        forall|b: int| 0 <= b < s.batches@.len() ==> (#[trigger] s.batches@[b]).node_ids@.len() > 0,
        forall|b: int|
            0 <= b < s.batches@.len() ==> greedy_pass(
                g,
                params,
                s.timed_nodes@.take(batch_start(s.batches@, b) as int),
                (#[trigger] s.batches@[b]).cycle as int,
                s.batches@[b].node_ids@,
            ),
        is_kahn_order(g, s.topo_order@),
    ensures
        schedule_fits(g, params, s),
{
    let ts = s.timed_nodes@;
    lemma_final_parts(g, params, ts, issued, finish);
    lemma_final_time(g, params, ts);
    lemma_final_dep(g, ts);
    lemma_final_cap(g, params, ts);
    lemma_final_wc(g, params, ts, issued, now);
}


/// Whether a node is ready, read off the flags and finish cycles, is whether
/// it is ready after the entries.
proof fn lemma_ready_bridge(g: SchedGraph, ts: Seq<TimedNode>, issued: Seq<bool>, finish: Seq<usize>, u: int, t: int)
    requires
        book_inv(g, ts, issued, finish),
        g.ids_ok(),
        0 <= u < g.nodes@.len(),
    ensures
        (!issued[u] && forall|k: int|
            0 <= k < g.deps_of(u).len() ==> issued[#[trigger] g.deps_of(u)[k] as int] && finish[g.deps_of(u)[k] as int]
                <= t) <==> ready_before(g, ts, u, t),
{
    reveal(book_inv);
    assert(issued[u] <==> timed_ids(ts).contains(u as NodeId)) by {
        if issued[u] {
            let k = choose|k: int| 0 <= k < ts.len() && (#[trigger] ts[k]).id == u;
            assert(timed_ids(ts)[k] == u as NodeId);
        }
        if timed_ids(ts).contains(u as NodeId) {
            let k = choose|k: int| 0 <= k < timed_ids(ts).len() && timed_ids(ts)[k] == u as NodeId;
            assert(ts[k].id == u);
        }
    }
    assert forall|k: int| 0 <= k < g.deps_of(u).len() implies (issued[#[trigger] g.deps_of(u)[k] as int]
        && finish[g.deps_of(u)[k] as int] <= t) == finished_by(ts, g.deps_of(u)[k], t) by {
        let d = g.deps_of(u)[k];
        assert(g.nodes@[u].deps@[k] < g.nodes@.len());
        if issued[d as int] && finish[d as int] <= t {
            let j = choose|j: int| 0 <= j < ts.len() && (#[trigger] ts[j]).id == d as int;
            assert(finish[ts[j].id as int] == ts[j].finish_cycle);
        }
        if finished_by(ts, d, t) {
            let j = choose|j: int| 0 <= j < ts.len() && (#[trigger] ts[j]).id == d && ts[j].finish_cycle <= t;
            assert(issued[ts[j].id as int]);
        }
    }
}

proof fn lemma_batch_ids_prefix(bs: Seq<Batch>, b: int)
    requires
        0 <= b <= bs.len(),
    ensures
        batch_ids(bs.take(b)).len() <= batch_ids(bs).len(),
    decreases bs.len(),
{
    if b < bs.len() {
        assert(bs.take(b) =~= bs.drop_last().take(b));
        lemma_batch_ids_prefix(bs.drop_last(), b);
    } else {
        assert(bs.take(b) =~= bs);
    }
}

/// Recording a pass keeps the earlier passes greedy and adds the new one.
proof fn lemma_greedy_keep(
    g: SchedGraph,
    params: SchedParams,
    ts_old: Seq<TimedNode>,
    ts_new: Seq<TimedNode>,
    bs: Seq<Batch>,
    x: Batch,
)
    requires
        batch_ids(bs) == timed_ids(ts_old),
        ts_old.len() <= ts_new.len(),
        ts_new.take(ts_old.len() as int) == ts_old,
        forall|b: int|
            0 <= b < bs.len() ==> greedy_pass(
                g,
                params,
                ts_old.take(batch_start(bs, b) as int),
                (#[trigger] bs[b]).cycle as int,
                bs[b].node_ids@,
            ),
        greedy_pass(g, params, ts_old, x.cycle as int, x.node_ids@),
    ensures
        forall|b: int|
            0 <= b < bs.push(x).len() ==> greedy_pass(
                g,
                params,
                ts_new.take(batch_start(bs.push(x), b) as int),
                (#[trigger] bs.push(x)[b]).cycle as int,
                bs.push(x)[b].node_ids@,
            ),
{
    let bs2 = bs.push(x);
    assert forall|b: int|
        0 <= b < bs2.len() implies greedy_pass(
            g,
            params,
            ts_new.take(batch_start(bs2, b) as int),
            (#[trigger] bs2[b]).cycle as int,
            bs2[b].node_ids@,
        ) by {
        if b < bs.len() {
            assert(bs2.take(b) =~= bs.take(b));
            assert(bs2[b] == bs[b]);
            lemma_batch_ids_prefix(bs, b);
            let st = batch_start(bs, b) as int;
            assert(ts_new.take(st) =~= ts_old.take(st)) by {
                assert forall|i: int| 0 <= i < st implies ts_new.take(st)[i] == ts_old.take(st)[i] by {
                    assert(ts_new.take(ts_old.len() as int)[i] == ts_old[i]);
                }
            }
        } else {
            assert(bs2.take(b) =~= bs);
            assert(timed_ids(ts_old).len() == ts_old.len());
        }
    }
}

/// Records the nodes of one pass as issued at cycle `now`, in order.
#[verifier::rlimit(100)]
fn record_batch(
    graph: &SchedGraph,
    params: &SchedParams,
    batch: &Vec<NodeId>,
    now: usize,
    timed: &mut Vec<TimedNode>,
    issued: &mut Vec<bool>,
    finish: &mut Vec<usize>,
)
    requires
        can_schedule(*graph, *params),
        core_inv(*graph, *params, old(timed)@, old(issued)@, old(finish)@),
        wc_inv(*graph, *params, old(timed)@, old(issued)@, now as int),
        forall|k: int| 0 <= k < old(timed)@.len() ==> (#[trigger] old(timed)@[k]).start_cycle <= now,
        now + max_latency(*graph, *params) <= usize::MAX,
        forall|j: int| 0 <= j < batch@.len() ==> #[trigger] batch@[j] < graph.nodes@.len(),
        forall|j: int| 0 <= j < batch@.len() ==> !old(issued)@[#[trigger] batch@[j] as int],
        forall|j: int, q: int| 0 <= j < q < batch@.len() ==> batch@[j] < batch@[q],
        forall|j: int, k: int|
            #![trigger graph.deps_of(batch@[j] as int)[k]]
            0 <= j < batch@.len() && 0 <= k < graph.deps_of(batch@[j] as int).len() ==> old(issued)@[graph.deps_of(
                    batch@[j] as int,
                )[k] as int] && old(finish)@[graph.deps_of(batch@[j] as int)[k] as int] <= now,
        forall|j: int|
            0 <= j < batch@.len() ==> (params.capacity(class_at(*graph, #[trigger] batch@[j] as int)) matches Some(
                cap,
            ) ==> busy_count(*graph, old(timed)@, class_at(*graph, batch@[j] as int), now as int) + count_class(
                *graph,
                batch@.take(j),
                class_at(*graph, batch@[j] as int),
            ) < cap),
    ensures
        core_inv(*graph, *params, final(timed)@, final(issued)@, final(finish)@),
        wc_inv(*graph, *params, final(timed)@, final(issued)@, now as int),
        final(timed)@.len() == old(timed)@.len() + batch@.len(),
        final(timed)@.take(old(timed)@.len() as int) == old(timed)@,
        timed_ids(final(timed)@) == timed_ids(old(timed)@) + batch@,
        final(timed)@.map_values(|e: TimedNode| e.start_cycle) == old(timed)@.map_values(|e: TimedNode| e.start_cycle) + Seq::new(batch@.len(), |i: int| now),
        forall|k: int| old(timed)@.len() <= k < final(timed)@.len() ==> (#[trigger] final(timed)@[k]).start_cycle == now
            && final(timed)@[k].finish_cycle <= now + max_latency(*graph, *params),
        forall|c: Resource|
            c != Resource::Unmetered ==> #[trigger] busy_count(*graph, final(timed)@, c, now as int)
                == busy_count(*graph, old(timed)@, c, now as int) + count_class(*graph, batch@, c),
{
    let n = graph.nodes.len();
    let ghost g = *graph;
    let ghost ts_pass = timed@;
    proof {
        assert(batch@.take(0) =~= Seq::<NodeId>::empty());
        assert(timed@.take(ts_pass.len() as int) =~= ts_pass);
        assert forall|u: int| 0 <= u < g.nodes@.len() implies lat_of(g, *params, u) <= max_latency(g, *params) by {
            lemma_max_latency(g, *params, g.nodes@.len() as int, u);
        }
        lemma_core_sizes(g, *params, timed@, issued@, finish@);
    }
    let mut p: usize = 0;
    while p < batch.len()
        invariant
            g == *graph,
            n == g.nodes@.len(),
            can_schedule(g, *params),
            forall|u: int| 0 <= u < g.nodes@.len() ==> lat_of(g, *params, u) <= max_latency(g, *params),
            now + max_latency(g, *params) <= usize::MAX,
            core_inv(g, *params, timed@, issued@, finish@),
            wc_inv(g, *params, timed@, issued@, now as int),
            issued@.len() == g.nodes@.len(),
            finish@.len() == g.nodes@.len(),
            p <= batch@.len(),
            timed@.len() == ts_pass.len() + p,
            ts_pass == timed@.take(ts_pass.len() as int),
            forall|j: int| 0 <= j < p ==> (#[trigger] timed@[ts_pass.len() + j]).id == batch@[j]
                && timed@[ts_pass.len() + j].start_cycle == now
                && timed@[ts_pass.len() + j].finish_cycle <= now + max_latency(g, *params),
            forall|j: int| p <= j < batch@.len() ==> !issued@[#[trigger] batch@[j] as int],
            forall|j: int| 0 <= j < batch@.len() ==> #[trigger] batch@[j] < g.nodes@.len(),
            forall|j: int, q: int| 0 <= j < q < batch@.len() ==> batch@[j] < batch@[q],
            forall|j: int, k: int|
                #![trigger g.deps_of(batch@[j] as int)[k]]
                p <= j < batch@.len() && 0 <= k < g.deps_of(batch@[j] as int).len() ==> issued@[g.deps_of(
                        batch@[j] as int,
                    )[k] as int] && finish@[g.deps_of(batch@[j] as int)[k] as int] <= now,
            forall|j: int|
                0 <= j < batch@.len() ==> (params.capacity(class_at(g, #[trigger] batch@[j] as int)) matches Some(
                    cap,
                ) ==> busy_count(g, ts_pass, class_at(g, batch@[j] as int), now as int) + count_class(
                    g,
                    batch@.take(j),
                    class_at(g, batch@[j] as int),
                ) < cap),
            forall|c: Resource|
                c != Resource::Unmetered ==> #[trigger] busy_count(g, timed@, c, now as int)
                    == busy_count(g, ts_pass, c, now as int) + count_class(g, batch@.take(p as int), c),
            forall|k: int| 0 <= k < timed@.len() ==> (#[trigger] timed@[k]).start_cycle <= now,
        decreases batch@.len() - p,
    {
        let nid = batch[p];
        let lat = node_latency(params, &graph.nodes[nid]);
        proof {
            assert(batch@.take(p as int + 1) =~= batch@.take(p as int).push(nid));
            lemma_core_sizes(g, *params, timed@, issued@, finish@);
            assert(lat_of(g, *params, nid as int) <= max_latency(g, *params));
            if params.capacity(class_at(g, nid as int)) is Some {
                assert(busy_count(g, timed@, class_at(g, nid as int), now as int)
                    == busy_count(g, ts_pass, class_at(g, nid as int), now as int) + count_class(g, batch@.take(p as int), class_at(g, nid as int)));
            }
            lemma_issue_core(g, *params, timed@, issued@, finish@, now as int, nid as int);
            lemma_issue_wc(g, *params, timed@, issued@, now as int, nid as int);
        }
        let f = now + lat;
        let ghost old_timed = timed@;
        timed.push(TimedNode { id: nid, start_cycle: now, finish_cycle: f });
        finish.set(nid, f);
        issued.set(nid, true);
        proof {
            assert(timed@.drop_last() == old_timed);
            assert(timed@.take(ts_pass.len() as int) =~= ts_pass);
            assert forall|j: int| 0 <= j < p + 1 implies (#[trigger] timed@[ts_pass.len() + j]).id == batch@[j]
                && timed@[ts_pass.len() + j].start_cycle == now
                && timed@[ts_pass.len() + j].finish_cycle <= now + max_latency(g, *params) by {
                if j < p {
                    assert(timed@[ts_pass.len() + j] == old_timed[ts_pass.len() + j]);
                }
            }
            assert forall|k: int| 0 <= k < timed@.len() implies (#[trigger] timed@[k]).start_cycle <= now by {
                if k < old_timed.len() {
                    assert(timed@[k] == old_timed[k]);
                }
            }
            assert(batch@.take(p as int + 1).drop_last() == batch@.take(p as int));
            assert(timed@.last() == TimedNode { id: nid, start_cycle: now, finish_cycle: f });
            assert forall|c: Resource|
                c != Resource::Unmetered implies #[trigger] busy_count(g, timed@, c, now as int)
                    == busy_count(g, ts_pass, c, now as int) + count_class(g, batch@.take(p as int + 1), c) by {
                assert(busy_count(g, timed@, c, now as int) == busy_count(g, old_timed, c, now as int)
                    + if class_at(g, nid as int) == c { 1nat } else { 0nat });
                assert(count_class(g, batch@.take(p as int + 1), c) == count_class(g, batch@.take(p as int), c)
                    + if class_at(g, nid as int) == c { 1nat } else { 0nat });
            }
        }
        p = p + 1;
    }
    proof {
        assert(batch@.take(batch@.len() as int) =~= batch@);
        let ids_new = timed_ids(timed@);
        assert(ids_new =~= timed_ids(ts_pass) + batch@) by {
            assert forall|j: int| 0 <= j < ids_new.len() implies ids_new[j] == (timed_ids(ts_pass) + batch@)[j] by {
                if j < ts_pass.len() {
                    assert(timed@[j] == ts_pass[j]);
                } else {
                    assert(timed@[ts_pass.len() + (j - ts_pass.len())].id == batch@[j - ts_pass.len()]);
                }
            }
        }
        let st_new = timed@.map_values(|e: TimedNode| e.start_cycle);
        assert(st_new =~= ts_pass.map_values(|e: TimedNode| e.start_cycle) + Seq::new(batch@.len(), |i: int| now)) by {
            assert forall|j: int| 0 <= j < st_new.len() implies st_new[j] == (ts_pass.map_values(|e: TimedNode| e.start_cycle) + Seq::new(batch@.len(), |i: int| now))[j] by {
                if j < ts_pass.len() {
                    assert(timed@[j] == ts_pass[j]);
                } else {
                    assert(timed@[ts_pass.len() + (j - ts_pass.len())].start_cycle == now);
                }
            }
        }
        assert forall|k: int| ts_pass.len() <= k < timed@.len() implies (#[trigger] timed@[k]).start_cycle == now
            && timed@[k].finish_cycle <= now + max_latency(g, *params) by {
            assert(timed@[ts_pass.len() + (k - ts_pass.len())] == timed@[k]);
        }
    }
}

/// The greedy cycle-level scheduler.
///
/// Each cycle, ready nodes (not yet issued, every dependency finished) are
/// scanned in id order and issued while their resource has room; scanning is
/// repeated within the cycle until a pass issues nothing (a node of latency
/// zero can make others ready in the same cycle). Then the clock advances.
#[verifier::rlimit(100)]
pub fn schedule_graph(graph: &SchedGraph, params: &SchedParams) -> (s: Schedule)
    requires
        can_schedule(*graph, *params),
    ensures
        schedule_fits(*graph, *params, s),
{
    let topo = topo_sort(graph);
    let n = graph.nodes.len();
    let ghost g = *graph;
    let ghost m: int = max_latency(g, *params) as int + 1;
    let ghost rank = choose|rank: spec_fn(int) -> nat| g.ranked_by(rank);
    let mut issued: Vec<bool> = Vec::new();
    let mut finish: Vec<usize> = Vec::new();
    let mut i: usize = 0;
    while i < n
        invariant
            i <= n,
            issued@.len() == i,
            finish@.len() == i,
            forall|j: int| 0 <= j < i ==> !#[trigger] issued@[j],
        decreases n - i,
    {
        issued.push(false);
        finish.push(0);
        i = i + 1;
    }
    proof {
        lemma_core_init(g, *params, issued@, finish@);
        assert forall|u: int| 0 <= u < n implies lat_of(g, *params, u) <= max_latency(g, *params) by {
            lemma_max_latency(g, *params, n as int, u);
        }
    }
    let mut count: usize = 0;
    let mut batches: Vec<Batch> = Vec::new();
    let mut timed: Vec<TimedNode> = Vec::new();
    let mut now: usize = 0;
    let ghost mut maxfin: int = 0;
    proof {
        assert(timed@ =~= Seq::<TimedNode>::empty());
        assert(batch_ids(batches@) =~= timed_ids(timed@));
        assert(batch_cycles(batches@) =~= timed@.map_values(|e: TimedNode| e.start_cycle));
    }
    while count < n
        invariant
            n == graph.nodes@.len(),
            g == *graph,
            can_schedule(g, *params),
            g.ranked_by(rank),
            m == max_latency(g, *params) + 1,
            forall|u: int| 0 <= u < n ==> lat_of(g, *params, u) <= max_latency(g, *params),
            is_kahn_order(g, topo@),
            core_inv(g, *params, timed@, issued@, finish@),
            wc_inv(g, *params, timed@, issued@, now as int),
            issued@.len() == n,
            finish@.len() == n,
            count == timed@.len(),
            count <= n,
            forall|k: int| 0 <= k < timed@.len() ==> (#[trigger] timed@[k]).start_cycle < now,
            batch_ids(batches@) == timed_ids(timed@),
            batch_cycles(batches@) == timed@.map_values(|e: TimedNode| e.start_cycle),
            forall|b: int| 0 <= b < batches@.len() ==> (#[trigger] batches@[b]).node_ids@.len() > 0,
            forall|b: int|
                0 <= b < batches@.len() ==> greedy_pass(
                    g,
                    *params,
                    timed@.take(batch_start(batches@, b) as int),
                    (#[trigger] batches@[b]).cycle as int,
                    batches@[b].node_ids@,
                ),
            now <= timed@.len() * m,
            forall|k: int| 0 <= k < timed@.len() ==> (#[trigger] timed@[k]).finish_cycle <= maxfin,
            maxfin <= timed@.len() * m,
            0 <= maxfin,
            now <= maxfin + 1,
        decreases n - count, maxfin + 1 - now,
    {
        let ghost count0 = count;
        let ghost ts0 = timed@;
        let ghost maxfin0 = maxfin;
        proof {
            lemma_core_sizes(g, *params, timed@, issued@, finish@);
        }
        let mut usage = active_resource_usage(graph, &timed, now);
        proof {
            assert forall|c: Resource| c != Resource::Unmetered implies #[trigger] usage.get(c) == busy_count(g, timed@, c, now as int) by {
                lemma_active_is_busy(g, timed@, c, now as int);
            }
            lemma_mul_mono(ts0.len() as int, n as int, m);
            assert(timed@.take(count0 as int) =~= ts0);
        }
        loop
            invariant
                n == graph.nodes@.len(),
                g == *graph,
                can_schedule(g, *params),
                g.ranked_by(rank),
                m == max_latency(g, *params) + 1,
                forall|u: int| 0 <= u < n ==> lat_of(g, *params, u) <= max_latency(g, *params),
                core_inv(g, *params, timed@, issued@, finish@),
                wc_inv(g, *params, timed@, issued@, now as int),
                issued@.len() == n,
                finish@.len() == n,
                count == timed@.len(),
                count <= n,
                count0 < n,
                count0 <= count,
                ts0.len() == count0,
                ts0 == timed@.take(count0 as int),
                forall|k: int| 0 <= k < ts0.len() ==> (#[trigger] ts0[k]).start_cycle < now,
                forall|k: int| 0 <= k < ts0.len() ==> (#[trigger] ts0[k]).finish_cycle <= maxfin0,
                forall|k: int| 0 <= k < timed@.len() ==> (#[trigger] timed@[k]).start_cycle <= now,
                forall|c: Resource| c != Resource::Unmetered ==> #[trigger] usage.get(c) == busy_count(g, timed@, c, now as int),
                batch_ids(batches@) == timed_ids(timed@),
                batch_cycles(batches@) == timed@.map_values(|e: TimedNode| e.start_cycle),
                forall|b: int| 0 <= b < batches@.len() ==> (#[trigger] batches@[b]).node_ids@.len() > 0,
                forall|b: int|
                    0 <= b < batches@.len() ==> greedy_pass(
                        g,
                        *params,
                        timed@.take(batch_start(batches@, b) as int),
                        (#[trigger] batches@[b]).cycle as int,
                        batches@[b].node_ids@,
                    ),
                now <= ts0.len() * m,
                ts0.len() * m <= n * m,
                n * m <= usize::MAX,
                forall|k: int| 0 <= k < timed@.len() ==> (#[trigger] timed@[k]).finish_cycle <= maxfin,
                maxfin <= timed@.len() * m,
                0 <= maxfin0 <= maxfin,
                count0 == count ==> maxfin == maxfin0 && timed@ == ts0,
                count0 < count ==> now <= maxfin,
            ensures
                core_inv(g, *params, timed@, issued@, finish@),
                wc_inv(g, *params, timed@, issued@, now as int + 1),
                issued@.len() == n,
                finish@.len() == n,
                count == timed@.len(),
                count <= n,
                count0 <= count,
                forall|k: int| 0 <= k < timed@.len() ==> (#[trigger] timed@[k]).start_cycle <= now,
                batch_ids(batches@) == timed_ids(timed@),
                batch_cycles(batches@) == timed@.map_values(|e: TimedNode| e.start_cycle),
                forall|b: int| 0 <= b < batches@.len() ==> (#[trigger] batches@[b]).node_ids@.len() > 0,
                forall|b: int|
                    0 <= b < batches@.len() ==> greedy_pass(
                        g,
                        *params,
                        timed@.take(batch_start(batches@, b) as int),
                        (#[trigger] batches@[b]).cycle as int,
                        batches@[b].node_ids@,
                    ),
                forall|k: int| 0 <= k < timed@.len() ==> (#[trigger] timed@[k]).finish_cycle <= maxfin,
                maxfin <= timed@.len() * m,
                0 <= maxfin0 <= maxfin,
                count0 == count ==> now < maxfin && maxfin == maxfin0 && timed@ == ts0,
                count0 < count ==> now <= maxfin && now + 1 <= timed@.len() * m,
            decreases n - count,
        {
            let ready = ready_nodes(graph, &issued, &finish, now);
            let ghost pass_usage = usage;
            let ghost ts_pass = timed@;
            let batch = issue_batch(graph, params, &ready, &mut usage);
            if batch.len() == 0 {
                proof {
                    assert forall|u: int|
                        0 <= u < g.nodes@.len() && !issued@[u] && (forall|k: int|
                            0 <= k < g.deps_of(u).len() ==> issued@[#[trigger] g.deps_of(u)[k] as int]
                                && finish@[g.deps_of(u)[k] as int] <= now) implies saturated(g, *params, timed@, u, now as int) by {
                        assert(ready@.contains(u as NodeId));
                        let p = choose|p: int| 0 <= p < ready@.len() && ready@[p] == u;
                        assert(ready@[p] == u);
                        assert(usage.get(class_at(g, u)) == pass_usage.get(class_at(g, u)) + count_class(g, batch@, class_at(g, u)));
                    }
                    lemma_close_cycle(g, *params, timed@, issued@, finish@, now as int);
                    if count0 == count {
                        if now >= maxfin {
                            assert forall|k: int| 0 <= k < timed@.len() implies (#[trigger] timed@[k]).start_cycle < now && timed@[k].finish_cycle <= now by {
                                assert(timed@[k] == ts0[k]);
                            }
                            lemma_stuck(g, *params, timed@, issued@, finish@, rank, now as int);
                            assert(false);
                        }
                    } else {
                        lemma_mul_succ(ts0.len() as int, m);
                        lemma_mul_mono(ts0.len() as int + 1, timed@.len() as int, m);
                    }
                }
                break;
            }
            proof {
                assert forall|j: int| 0 <= j < batch@.len() implies ready@.contains(#[trigger] batch@[j]) && batch@[j] < n by {
                    let q = choose|q: int| 0 <= q < ready@.len() && ready@[q] == batch@[j];
                    assert(ready@[q] < n);
                }
                assert forall|j: int, k: int|
                    #![trigger g.deps_of(batch@[j] as int)[k]]
                    0 <= j < batch@.len() && 0 <= k < g.deps_of(batch@[j] as int).len() implies issued@[g.deps_of(
                        batch@[j] as int,
                    )[k] as int] && finish@[g.deps_of(batch@[j] as int)[k] as int] <= now by {
                    let i = batch@[j] as int;
                    assert(ready@.contains(i as NodeId));
                    assert(0 <= i < n);
                    assert(forall|k: int|
                        0 <= k < graph.deps_of(i).len() ==> issued@[#[trigger] graph.deps_of(i)[k] as int]
                            && finish@[graph.deps_of(i)[k] as int] <= now);
                    assert(graph.deps_of(i)[k] == g.deps_of(batch@[j] as int)[k]);
                }
                assert forall|j: int| 0 <= j < batch@.len() implies !issued@[#[trigger] batch@[j] as int] by {
                    let i = batch@[j] as int;
                    assert(ready@.contains(i as NodeId));
                }
                lemma_core_sizes(g, *params, timed@, issued@, finish@);
                lemma_mul_mono(ts0.len() as int, (n - 1) as int, m);
                lemma_mul_succ((n - 1) as int, m);
                assert forall|j: int|
                    0 <= j < batch@.len() implies (params.capacity(class_at(g, #[trigger] batch@[j] as int)) matches Some(
                        cap,
                    ) ==> busy_count(g, timed@, class_at(g, batch@[j] as int), now as int) + count_class(
                        g,
                        batch@.take(j),
                        class_at(g, batch@[j] as int),
                    ) < cap) by {
                    if params.capacity(class_at(g, batch@[j] as int)) is Some {
                        assert(pass_usage.get(class_at(g, batch@[j] as int)) == busy_count(g, timed@, class_at(g, batch@[j] as int), now as int));
                    }
                }
            }
            let ghost bseq = batch@;
            proof {
                assert(greedy_pass(g, *params, ts_pass, now as int, bseq)) by {
                    reveal(core_inv);
                    assert forall|j: int| 0 <= j < bseq.len() implies ready_before(g, ts_pass, #[trigger] bseq[j] as int, now as int) by {
                        assert(ready@.contains(bseq[j]));
                        let q = choose|q: int| 0 <= q < ready@.len() && ready@[q] == bseq[j];
                        assert(ready@[q] < n);
                        lemma_ready_bridge(g, ts_pass, issued@, finish@, bseq[j] as int, now as int);
                    }
                    assert forall|u: int|
                        0 <= u < g.nodes@.len() && #[trigger] ready_before(g, ts_pass, u, now as int) && !bseq.contains(u as NodeId) implies (
                        params.capacity(class_at(g, u)) matches Some(cap) && busy_count(g, ts_pass, class_at(g, u), now as int)
                            + count_class_below(g, bseq, class_at(g, u), u) >= cap) by {
                        lemma_ready_bridge(g, ts_pass, issued@, finish@, u, now as int);
                        assert(ready@.contains(u as NodeId));
                        let p = choose|p: int| 0 <= p < ready@.len() && ready@[p] == u as NodeId;
                        assert(ready@[p] == u as NodeId);
                        if params.capacity(class_at(g, u)) is Some {
                            assert(pass_usage.get(class_at(g, u)) == busy_count(g, ts_pass, class_at(g, u), now as int));
                        }
                    }
                }
            }
            record_batch(graph, params, &batch, now, &mut timed, &mut issued, &mut finish);
            count = timed.len();
            proof {
                lemma_core_sizes(g, *params, timed@, issued@, finish@);
                let mf = if maxfin > now + max_latency(g, *params) { maxfin } else { now + max_latency(g, *params) };
                assert forall|k: int| 0 <= k < timed@.len() implies (#[trigger] timed@[k]).finish_cycle <= mf by {
                    if k < ts_pass.len() {
                        assert(timed@[k] == ts_pass[k]);
                    }
                }
                maxfin = mf;
                lemma_mul_mono(ts0.len() as int, ts_pass.len() as int, m);
                lemma_mul_succ(ts_pass.len() as int, m);
                lemma_mul_mono(ts_pass.len() as int + 1, timed@.len() as int, m);
                assert forall|c: Resource| c != Resource::Unmetered implies #[trigger] usage.get(c) == busy_count(g, timed@, c, now as int) by {}
                assert(timed@.take(count0 as int) =~= ts0) by {
                    assert forall|j: int| 0 <= j < count0 implies timed@[j] == ts0[j] by {
                        assert(timed@[j] == ts_pass[j]);
                        assert(ts_pass[j] == ts0[j]);
                    }
                }
                assert forall|k: int| 0 <= k < timed@.len() implies (#[trigger] timed@[k]).start_cycle <= now by {
                    if k < ts_pass.len() {
                        assert(timed@[k] == ts_pass[k]);
                    }
                }
            }
            let ghost old_batches = batches@;
            batches.push(Batch { cycle: now, node_ids: batch });
            proof {
                assert(batches@.drop_last() =~= old_batches);
                assert(batches@ =~= old_batches.push(batches@.last()));
                assert(batches@.last().node_ids@ == bseq);
                lemma_greedy_keep(g, *params, ts_pass, timed@, old_batches, batches@.last());
                assert forall|b: int| 0 <= b < batches@.len() implies (#[trigger] batches@[b]).node_ids@.len() > 0 by {
                    if b < old_batches.len() {
                        assert(batches@[b] == old_batches[b]);
                    }
                }
            }
        }
        proof {
            lemma_mul_mono(timed@.len() as int, n as int, m);
        }
        now = now + 1;
    }
    let mut total: usize = 0;
    let mut k: usize = 0;
    while k < timed.len()
        invariant
            k <= timed@.len(),
            forall|q: int| 0 <= q < k ==> (#[trigger] timed@[q]).finish_cycle <= total,
            k == 0 ==> total == 0,
            k > 0 ==> exists|q: int| 0 <= q < k && (#[trigger] timed@[q]).finish_cycle == total,
        decreases timed@.len() - k,
    {
        if timed[k].finish_cycle > total {
            total = timed[k].finish_cycle;
        }
        k = k + 1;
    }
    let s = Schedule { topo_order: topo, batches, timed_nodes: timed, total_cycles: total };
    proof {
        lemma_final(g, *params, s, issued@, finish@, now as int);
    }
    s
}

proof fn lemma_count_true_false(s: Seq<bool>, j: int)
    requires
        0 <= j <= s.len(),
        forall|i: int| 0 <= i < s.len() ==> !#[trigger] s[i],
    ensures
        count_true(s.take(j)) == 0,
    decreases j,
{
    if j > 0 {
        assert(s.take(j).drop_last() =~= s.take(j - 1));
        lemma_count_true_false(s, j - 1);
    }
}

/// When every entry has finished by `t` and started before it, nothing is busy at `t`.
proof fn lemma_nothing_busy(g: SchedGraph, ts: Seq<TimedNode>, c: Resource, t: int)
    requires
        forall|k: int| 0 <= k < ts.len() ==> (#[trigger] ts[k]).start_cycle < t && ts[k].finish_cycle <= t,
    ensures
        busy_count(g, ts, c, t) == 0,
    decreases ts.len(),
{
    if ts.len() > 0 {
        let p = ts.drop_last();
        assert forall|k: int| 0 <= k < p.len() implies (#[trigger] p[k]).start_cycle < t && p[k].finish_cycle <= t by {
            assert(p[k] == ts[k]);
        }
        lemma_nothing_busy(g, p, c, t);
        assert(ts[ts.len() - 1] == ts.last());
    }
}


// ------------------------------------------------------------------
// Laws of scheduling
// ------------------------------------------------------------------
/// Every entry of node `u`, and of every node of lower rank, issues at cycle 0.
proof fn lemma_zero_latency_starts_at_zero(
    g: SchedGraph,
    params: SchedParams,
    s: Schedule,
    rank: spec_fn(int) -> nat,
    u: int,
    k: int,
)
    requires
        schedule_fits(g, params, s),
        g.ranked_by(rank),
        g.ids_ok(),
        forall|v: int| 0 <= v < g.nodes@.len() ==> #[trigger] class_at(g, v) == Resource::Unmetered,
        forall|v: int| 0 <= v < g.nodes@.len() ==> #[trigger] lat_of(g, params, v) == 0,
        0 <= k < s.timed_nodes@.len(),
        s.timed_nodes@[k].id == u,
    ensures
        s.timed_nodes@[k].start_cycle == 0,
    decreases rank(u),
{
    let ts = s.timed_nodes@;
    if ts[k].start_cycle > 0 {
        assert(ts[k].id < g.nodes@.len());
        assert forall|q: int| 0 <= q < g.deps_of(u).len() implies finished_by(ts, #[trigger] g.deps_of(u)[q], 0) by {
            let d = g.deps_of(u)[q];
            assert(dep_done(ts, k, d));
            let j = choose|j: int| 0 <= j < k && (#[trigger] ts[j]).id == d && ts[j].finish_cycle <= ts[k].start_cycle;
            assert(g.nodes@[u].deps@[q] == d);
            assert(rank(d as int) < rank(u));
            lemma_zero_latency_starts_at_zero(g, params, s, rank, d as int, j);
            assert(ts[j].id < g.nodes@.len());
            assert(lat_of(g, params, ts[j].id as int) == 0);
        }
        assert(ready_in(g, ts, u, 0));
        assert(class_at(g, u) == Resource::Unmetered);
        assert(!saturated(g, params, ts, u, 0));
    }
}

/// A graph of unmetered nodes of latency zero (such as a chain of `Direct`
/// nodes with `direct_latency == 0`) is scheduled in zero cycles: every node
/// issues and finishes at cycle 0.
pub proof fn lemma_zero_latency_graph_takes_no_cycles(g: SchedGraph, params: SchedParams, s: Schedule)
    requires
        g.well_formed(),
        schedule_fits(g, params, s),
        forall|v: int| 0 <= v < g.nodes@.len() ==> #[trigger] class_at(g, v) == Resource::Unmetered,
        forall|v: int| 0 <= v < g.nodes@.len() ==> #[trigger] lat_of(g, params, v) == 0,
    ensures
        s.total_cycles == 0,
        forall|k: int| 0 <= k < s.timed_nodes@.len() ==> (#[trigger] s.timed_nodes@[k]).start_cycle == 0
            && s.timed_nodes@[k].finish_cycle == 0,
{
    let ts = s.timed_nodes@;
    let rank = choose|rank: spec_fn(int) -> nat| g.ranked_by(rank);
    assert forall|k: int| 0 <= k < ts.len() implies (#[trigger] ts[k]).start_cycle == 0 && ts[k].finish_cycle == 0 by {
        lemma_zero_latency_starts_at_zero(g, params, s, rank, ts[k].id as int, k);
        assert(lat_of(g, params, ts[k].id as int) == 0);
    }
    if ts.len() > 0 {
        let k = choose|k: int| 0 <= k < ts.len() && (#[trigger] ts[k]).finish_cycle == s.total_cycles;
    }
}

/// A block permutation takes zero cycles when pass-through nodes take none:
/// its graph has only `Direct` nodes, which occupy no resource.
pub proof fn lemma_permutation_takes_no_cycles(
    bm: BlockMat,
    sc: Seq<Seq<bool>>,
    g: SchedGraph,
    params: SchedParams,
    s: Schedule,
)
    requires
        bm.well_formed(),
        is_perm(bm),
        lowered(bm, sc, g),
        g.well_formed(),
        params.direct_latency == 0,
        schedule_fits(g, params, s),
    ensures
        s.total_cycles == 0,
{
    lemma_permutation_lowers_to_direct(bm, sc, g);
    assert forall|v: int| 0 <= v < g.nodes@.len() implies #[trigger] class_at(g, v) == Resource::Unmetered by {
        assert(g.nodes@[v].node_type == NodeType::Direct);
    }
    assert forall|v: int| 0 <= v < g.nodes@.len() implies #[trigger] lat_of(g, params, v) == 0 by {
        assert(g.nodes@[v].node_type == NodeType::Direct);
    }
    lemma_zero_latency_graph_takes_no_cycles(g, params, s);
}

/// The broadcast node of a column takes the broadcast latency of the
/// column's fan-out (its number of non-zero blocks).
pub proof fn lemma_broadcast_latency_is_fanout(
    bm: BlockMat,
    sc: Seq<Seq<bool>>,
    g: SchedGraph,
    params: SchedParams,
    j: int,
)
    requires
        lowered(bm, sc, g),
        0 <= j < bm.cols,
        col_count(bm, j) > 1,
    ensures
        g.nodes@[bcast_id(bm, sc, j) as int].node_type == NodeType::Broadcast,
        lat_of(g, params, bcast_id(bm, sc, j) as int) == spec_latency(params.bcast_model, col_count(bm, j)),
{
}


/// Entries of class `c` busy at `t` are busy at `t2` too: then at most as
/// many are busy at `t` as at `t2`.
proof fn lemma_busy_count_le(g: SchedGraph, ts: Seq<TimedNode>, c: Resource, t: int, t2: int)
    requires
        forall|j: int| 0 <= j < ts.len() && class_at(g, ts[j].id as int) == c && #[trigger] busy_at(ts[j], t) ==> busy_at(ts[j], t2),
    ensures
        busy_count(g, ts, c, t) <= busy_count(g, ts, c, t2),
    decreases ts.len(),
{
    if ts.len() > 0 {
        let p = ts.drop_last();
        assert forall|j: int| 0 <= j < p.len() && class_at(g, p[j].id as int) == c && #[trigger] busy_at(p[j], t) implies busy_at(p[j], t2) by {
            assert(p[j] == ts[j]);
        }
        lemma_busy_count_le(g, p, c, t, t2);
        assert(ts.last() == ts[ts.len() - 1]);
    }
}

proof fn lemma_capacity_prefix(g: SchedGraph, params: SchedParams, s: Schedule, c: Resource, t: int, l: int)
    requires
        schedule_fits(g, params, s),
        params.capacity(c) is Some,
        0 <= l <= s.timed_nodes@.len(),
    ensures
        busy_count(g, s.timed_nodes@.take(l), c, t) <= params.capacity(c)->0,
    decreases l,
{
    let ts = s.timed_nodes@;
    if l == 0 {
        assert(ts.take(0) =~= Seq::<TimedNode>::empty());
    } else {
        let k = l - 1;
        lemma_capacity_prefix(g, params, s, c, t, k);
        let e = ts[k];
        assert(ts.take(l).drop_last() =~= ts.take(k));
        assert(ts.take(l).last() == e);
        if class_at(g, e.id as int) == c && busy_at(e, t) {
            let pre = ts.take(k);
            assert forall|j: int| 0 <= j < pre.len() && class_at(g, pre[j].id as int) == c && #[trigger] busy_at(pre[j], t) implies busy_at(
                pre[j],
                e.start_cycle as int,
            ) by {
                assert(pre[j] == ts[j]);
                assert(ts[j].start_cycle <= ts[k].start_cycle);
            }
            lemma_busy_count_le(g, pre, c, t, e.start_cycle as int);
            assert(class_at(g, ts[k].id as int) == c);
        }
    }
}

/// No metered resource is ever over capacity: at every cycle, the nodes of a
/// class that occupy its resource (those running, and those issuing at that
/// cycle) are at most its capacity.
pub proof fn lemma_capacity_holds_every_cycle(g: SchedGraph, params: SchedParams, s: Schedule, c: Resource, t: int)
    requires
        schedule_fits(g, params, s),
        params.capacity(c) is Some,
    ensures
        busy_count(g, s.timed_nodes@, c, t) <= params.capacity(c)->0,
{
    let ts = s.timed_nodes@;
    lemma_capacity_prefix(g, params, s, c, t, ts.len() as int);
    assert(ts.take(ts.len() as int) =~= ts);
}

/// A node of a class without capacity limit (a `Direct` node) issues exactly
/// when its last dependency finishes: never before any dependency has
/// finished, and, unless it issues at cycle 0, at the finish cycle of one of
/// them.
pub proof fn lemma_unmetered_issue_on_last_dependency(g: SchedGraph, params: SchedParams, s: Schedule, k: int)
    requires
        schedule_fits(g, params, s),
        0 <= k < s.timed_nodes@.len(),
        params.capacity(class_at(g, s.timed_nodes@[k].id as int)) is None,
    ensures
        ({
            let ts = s.timed_nodes@;
            let deps = g.deps_of(ts[k].id as int);
            &&& forall|q: int| #![trigger deps[q]] 0 <= q < deps.len() ==> exists|j: int|
                0 <= j < k && (#[trigger] ts[j]).id == deps[q] && ts[j].finish_cycle <= ts[k].start_cycle
            &&& ts[k].start_cycle == 0 || exists|q: int, j: int|
                0 <= q < deps.len() && 0 <= j < ts.len() && (#[trigger] ts[j]).id == #[trigger] deps[q]
                    && ts[j].finish_cycle == ts[k].start_cycle
        }),
{
    let ts = s.timed_nodes@;
    let u = ts[k].id as int;
    let deps = g.deps_of(u);
    assert forall|q: int| #![trigger deps[q]] 0 <= q < deps.len() implies exists|j: int|
        0 <= j < k && (#[trigger] ts[j]).id == deps[q] && ts[j].finish_cycle <= ts[k].start_cycle by {
        assert(dep_done(ts, k, g.deps_of(ts[k].id as int)[q]));
    }
    if ts[k].start_cycle > 0 {
        let t = ts[k].start_cycle - 1;
        assert(!ready_in(g, ts, u, t) || saturated(g, params, ts, u, t));
        assert(!ready_in(g, ts, u, t));
        let q = choose|q: int| 0 <= q < deps.len() && !finished_by(ts, #[trigger] deps[q], t);
        assert(dep_done(ts, k, g.deps_of(ts[k].id as int)[q]));
        let j = choose|j: int| 0 <= j < k && (#[trigger] ts[j]).id == deps[q] && ts[j].finish_cycle <= ts[k].start_cycle;
        assert(ts[j].finish_cycle == ts[k].start_cycle);
    }
}


/// How long each node runs, in terms of the parameters: a `Core` node with a
/// general kernel (or `Id`, `Zero`) runs `core_latency` cycles and one with a
/// scalar kernel `scale_latency` cycles; a `Direct` node `direct_latency`
/// cycles; a `ZeroFill` one cycle; the input read and the write-back
/// `ceil(transfer_scalars / bw_writeback)` cycles and the parameter load
/// `ceil(transfer_scalars / (core_slots * bw_params))` cycles (no cycle when
/// the bandwidth is zero).
pub proof fn lemma_entry_durations(g: SchedGraph, params: SchedParams, s: Schedule, k: int)
    requires
        schedule_fits(g, params, s),
        0 <= k < s.timed_nodes@.len(),
    ensures
        ({
            let e = s.timed_nodes@[k];
            let nd = g.nodes@[e.id as int];
            let w = params.bw_writeback as int;
            let pw = params.core_slots as int * params.bw_params as int;
            &&& (nd.node_type matches NodeType::Core(x) && !(x is Scalar)) ==> e.finish_cycle == e.start_cycle
                + params.core_latency
            &&& (nd.node_type matches NodeType::Core(x) && x is Scalar) ==> e.finish_cycle == e.start_cycle
                + params.scale_latency
            &&& nd.node_type is Direct ==> e.finish_cycle == e.start_cycle + params.direct_latency
            &&& nd.node_type is ZeroFill ==> e.finish_cycle == e.start_cycle + 1
            &&& (nd.node_type is InputRead || nd.node_type is WriteBack) ==> e.finish_cycle == e.start_cycle + (if w
                == 0 {
                0
            } else {
                (nd.transfer_scalars + w - 1) / w
            })
            &&& nd.node_type is ParamLoad ==> e.finish_cycle == e.start_cycle + (if pw == 0 {
                0
            } else {
                (nd.transfer_scalars + pw - 1) / pw
            })
        }),
{
    let e = s.timed_nodes@[k];
    assert(e.finish_cycle == e.start_cycle + lat_of(g, params, e.id as int));
}

/// A fan-out or fan-in of `k >= 1` under the tree model takes the least `L`
/// with `k <= 2^L`.
pub proof fn lemma_tree_latency(k: nat)
    requires
        k >= 1,
    ensures
        k <= vstd::arithmetic::power2::pow2(spec_latency(LatencyModel::Tree, k)),
        spec_latency(LatencyModel::Tree, k) == 0 || vstd::arithmetic::power2::pow2(
            (spec_latency(LatencyModel::Tree, k) - 1) as nat,
        ) < k,
    decreases k,
{
    vstd::arithmetic::power2::lemma_pow2_unfold(1);
    vstd::arithmetic::power2::lemma2_to64();
    if k > 1 {
        let h = ((k + 1) / 2) as nat;
        lemma_tree_latency(h);
        let l = ceil_log2(h);
        vstd::arithmetic::power2::lemma_pow2_unfold(l + 1);
        if l > 0 {
            vstd::arithmetic::power2::lemma_pow2_unfold(l);
        }
    }
}

/// The capacity of every class is the one its parameter gives: at every
/// cycle at most `core_slots` `Core` nodes, `bcast_ports` broadcasts,
/// `reduce_ports` reductions (`Reduce` and `ZeroFill`) and one input read,
/// parameter load and write-back occupy their resource.
pub proof fn lemma_busy_within_parameters(g: SchedGraph, params: SchedParams, s: Schedule, t: int)
    requires
        schedule_fits(g, params, s),
    ensures
        busy_count(g, s.timed_nodes@, Resource::Core, t) <= params.core_slots,
        busy_count(g, s.timed_nodes@, Resource::Bcast, t) <= params.bcast_ports,
        busy_count(g, s.timed_nodes@, Resource::Reduce, t) <= params.reduce_ports,
        busy_count(g, s.timed_nodes@, Resource::Input, t) <= 1,
        busy_count(g, s.timed_nodes@, Resource::Load, t) <= 1,
        busy_count(g, s.timed_nodes@, Resource::WriteBack, t) <= 1,
{
    lemma_capacity_holds_every_cycle(g, params, s, Resource::Core, t);
    lemma_capacity_holds_every_cycle(g, params, s, Resource::Bcast, t);
    lemma_capacity_holds_every_cycle(g, params, s, Resource::Reduce, t);
    lemma_capacity_holds_every_cycle(g, params, s, Resource::Input, t);
    lemma_capacity_holds_every_cycle(g, params, s, Resource::Load, t);
    lemma_capacity_holds_every_cycle(g, params, s, Resource::WriteBack, t);
}

/// A node waits while ready only when its resource is full by its parameter:
/// a ready `Core` node waits only while `core_slots` `Core` nodes are busy, a
/// broadcast only while `bcast_ports` broadcasts are, a reduction only while
/// `reduce_ports` reductions are, an input read, parameter load or
/// write-back only while another of its kind is; a `Direct` node never waits.
pub proof fn lemma_waits_only_when_full(g: SchedGraph, params: SchedParams, s: Schedule, k: int, t: int)
    requires
        schedule_fits(g, params, s),
        0 <= k < s.timed_nodes@.len(),
        0 <= t < s.timed_nodes@[k].start_cycle,
        ready_in(g, s.timed_nodes@, s.timed_nodes@[k].id as int, t),
    ensures
        ({
            let ts = s.timed_nodes@;
            let nt = g.nodes@[ts[k].id as int].node_type;
            &&& nt is Core ==> busy_count(g, ts, Resource::Core, t) >= params.core_slots
            &&& nt is Broadcast ==> busy_count(g, ts, Resource::Bcast, t) >= params.bcast_ports
            &&& (nt is Reduce || nt is ZeroFill) ==> busy_count(g, ts, Resource::Reduce, t) >= params.reduce_ports
            &&& nt is InputRead ==> busy_count(g, ts, Resource::Input, t) >= 1
            &&& nt is ParamLoad ==> busy_count(g, ts, Resource::Load, t) >= 1
            &&& nt is WriteBack ==> busy_count(g, ts, Resource::WriteBack, t) >= 1
            &&& !(nt is Direct)
        }),
{
    let ts = s.timed_nodes@;
    assert(!ready_in(g, ts, ts[k].id as int, t) || saturated(g, params, ts, ts[k].id as int, t));
}


/// How long a broadcast or a reduction runs, in terms of its fan-out or
/// fan-in `k` (its arity; at least one for a broadcast): `k` cycles under
/// the pipeline model, the fixed value under the fixed model, and under the
/// tree model the least `L` with `k <= 2^L`.
pub proof fn lemma_fan_durations(g: SchedGraph, params: SchedParams, s: Schedule, k: int)
    requires
        schedule_fits(g, params, s),
        0 <= k < s.timed_nodes@.len(),
        g.nodes@[s.timed_nodes@[k].id as int].node_type is Broadcast || g.nodes@[s.timed_nodes@[k].id as int].node_type is Reduce,
    ensures
        ({
            let e = s.timed_nodes@[k];
            let nd = g.nodes@[e.id as int];
            let model = if nd.node_type is Broadcast {
                params.bcast_model
            } else {
                params.reduce_model
            };
            let fan: nat = if nd.node_type is Broadcast && nd.arity == 0 {
                1
            } else {
                nd.arity as nat
            };
            let d = e.finish_cycle - e.start_cycle;
            &&& model is Pipeline ==> d == fan
            &&& (model matches LatencyModel::Fixed(v) ==> d == v)
            &&& (model is Tree && fan >= 1) ==> fan <= vstd::arithmetic::power2::pow2(d as nat) && (d == 0
                || vstd::arithmetic::power2::pow2((d - 1) as nat) < fan)
            &&& (model is Tree && fan == 0) ==> d == 0
        }),
{
    let e = s.timed_nodes@[k];
    let nd = g.nodes@[e.id as int];
    assert(e.finish_cycle == e.start_cycle + lat_of(g, params, e.id as int));
    let fan: nat = if nd.node_type is Broadcast && nd.arity == 0 {
        1
    } else {
        nd.arity as nat
    };
    if fan >= 1 {
        lemma_tree_latency(fan);
    }
}

} // verus!
