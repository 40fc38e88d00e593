//! Why the simulation of a lowered graph ends with every temporary buffer
//! released: each node that takes a temporary buffer has a consumer, every
//! consumer completes after the node it reads, and the last consumer to
//! complete frees the buffer.
use vstd::prelude::*;
use vstd::set_lib::{lemma_int_range, lemma_subset_equality, set_int_range};
use crate::ir::BlockMat;
use crate::lower::{
    bcast_base, bcast_before, bcast_id, col_count, count_col, count_row, has_input, has_param,
    input_id, input_node_ok, is_perm, kernel_base, kernel_id, kernel_node_ok, lower_ready, lowered,
    node_count, nz, nz_before, nz_rows_before, param_id, param_node_ok, row_base, row_count, row_id,
    row_node_ok, wb_id, NodeId, NodeType, SchedGraph,
};
use crate::schedule::{dep_done, is_kahn_order, kahn_available, schedule_fits, timed_ids, SchedParams, Schedule, TimedNode};
use crate::simulate::{
    count_held, cycle_order, finishes_at, first_pos, initial_model, lemma_count_held_none, snap_of,
    lemma_run_nodes_concat, lemma_topo_finishing_distinct,
    lemma_count_held_update, lemma_run_nodes_push, node_effect, occurrences, others_finishing, produce,
    retire_block, retire_dep, retire_deps, run_cycles, run_nodes, take_buffer, topo_finishing, uses,
    uses_upto, SimModel,
};

verus! {

// ------------------------------------------------------------------
// Positions inside the lowered graph
// ------------------------------------------------------------------
/// Below a broadcast count, some column starts exactly there.
pub(crate) proof fn lemma_bcast_at(bm: BlockMat, t: int, j: int)
    requires
        0 <= t < bcast_before(bm, j),
    ensures
        exists|q: int| 0 <= q < j && #[trigger] col_count(bm, q) > 1 && bcast_before(bm, q) == t,
    decreases j,
{
    if j > 0 {
        if t < bcast_before(bm, j - 1) {
            lemma_bcast_at(bm, t, j - 1);
        } else {
            assert(col_count(bm, j - 1) > 1 && bcast_before(bm, j - 1) == t);
        }
    }
}

/// Below a row's count of non-zero blocks up to `j`, some non-zero block
/// starts exactly there.
pub(crate) proof fn lemma_row_at(bm: BlockMat, i: int, t: int, j: int)
    requires
        0 <= t < count_row(bm, i, j),
    ensures
        exists|q: int| 0 <= q < j && #[trigger] nz(bm, i, q) && count_row(bm, i, q) == t,
    decreases j,
{
    if j > 0 {
        if t < count_row(bm, i, j - 1) {
            lemma_row_at(bm, i, t, j - 1);
        } else {
            assert(nz(bm, i, j - 1) && count_row(bm, i, j - 1) == t);
        }
    }
}

/// Below the count of non-zero blocks of the rows before `i`, some row's
/// band holds `t`.
pub(crate) proof fn lemma_rows_at(bm: BlockMat, t: int, i: int)
    requires
        0 <= t < nz_rows_before(bm, i),
    ensures
        exists|r: int| 0 <= r < i && #[trigger] nz_rows_before(bm, r) <= t && t < nz_rows_before(bm, r) + row_count(bm, r),
    decreases i,
{
    if i > 0 {
        if t < nz_rows_before(bm, i - 1) {
            lemma_rows_at(bm, t, i - 1);
        } else {
            assert(nz_rows_before(bm, i - 1) <= t && t < nz_rows_before(bm, i - 1) + row_count(bm, i - 1));
        }
    }
}

/// A column with a non-zero block has a row holding one.
pub(crate) proof fn lemma_col_has(bm: BlockMat, j: int, i: int)
    requires
        count_col(bm, j, i) > 0,
    ensures
        exists|r: int| 0 <= r < i && #[trigger] nz(bm, r, j),
    decreases i,
{
    if i > 0 {
        if count_col(bm, j, i - 1) > 0 {
            lemma_col_has(bm, j, i - 1);
        } else {
            assert(nz(bm, i - 1, j));
        }
    }
}

pub(crate) proof fn lemma_count_row_step(bm: BlockMat, i: int, j: int, j2: int)
    requires
        0 <= j < j2,
        nz(bm, i, j),
    ensures
        count_row(bm, i, j) < count_row(bm, i, j2),
    decreases j2 - j,
{
    if j2 > j + 1 {
        lemma_count_row_step(bm, i, j, j2 - 1);
    }
}

/// A sequence holding `d` holds it at least once.
pub(crate) proof fn lemma_occurs(s: Seq<NodeId>, k: int)
    requires
        0 <= k < s.len(),
    ensures
        occurrences(s, s[k]) > 0,
    decreases s.len(),
{
    if k < s.len() - 1 {
        lemma_occurs(s.drop_last(), k);
        assert(s.drop_last()[k] == s[k]);
    }
}

/// The position search finds a value held at position `k` or earlier.
pub(crate) proof fn lemma_first_pos_found(outs: Seq<NodeId>, u: NodeId, from: int, k: int)
    requires
        0 <= from <= k < outs.len(),
        outs[k] == u,
    ensures
        first_pos(outs, u, from) is Some,
    decreases k - from,
{
    if from < k && outs[from] != u {
        lemma_first_pos_found(outs, u, from + 1, k);
    }
}

/// Node `w` takes a temporary buffer when it completes (a broadcast only
/// when its input block exists).
pub open spec fn may_take_buffer(g: SchedGraph, w: NodeId) -> bool {
    let nd = g.nodes@[w as int];
    ||| nd.node_type is Broadcast
    ||| nd.node_type is Core
    ||| (nd.node_type is Direct && first_pos(g.output_nodes@, w, 0) is None)
}

/// Node `v` names node `w` among its dependencies.
pub open spec fn consumes(g: SchedGraph, v: int, w: NodeId) -> bool {
    occurrences(g.deps_of(v), w) > 0
}

/// In a lowered graph, every node that may take a temporary buffer is a
/// dependency of some node.
#[verifier::rlimit(40)]
pub(crate) proof fn lemma_buffer_has_consumer(bm: BlockMat, sc: Seq<Seq<bool>>, g: SchedGraph, w: NodeId)
    requires
        lower_ready(bm, sc),
        lowered(bm, sc, g),
        w < g.nodes@.len(),
        may_take_buffer(g, w),
    ensures
        exists|v: int| 0 <= v < g.nodes@.len() && #[trigger] consumes(g, v, w),
{
    let ns = g.nodes@;
    if w < bcast_base(bm, sc) {
        if has_input(bm) && w == input_id(bm) {
            assert(input_node_ok(bm, ns));
        } else {
            assert(has_param(bm, sc) && w == param_id(bm));
            assert(param_node_ok(bm, sc, ns));
        }
    } else if w < kernel_base(bm, sc) {
        let t = w - bcast_base(bm, sc);
        lemma_bcast_at(bm, t, bm.cols as int);
        let j = choose|q: int| 0 <= q < bm.cols && #[trigger] col_count(bm, q) > 1 && bcast_before(bm, q) == t;
        assert(w == bcast_id(bm, sc, j));
        lemma_col_has(bm, j, bm.rows as int);
        let i = choose|r: int| 0 <= r < bm.rows && #[trigger] nz(bm, r, j);
        assert(kernel_node_ok(bm, sc, ns, i, j));
        let v = kernel_id(bm, sc, i, j) as int;
        assert(g.deps_of(v)[0] == w);
        lemma_occurs(g.deps_of(v), 0);
        assert(consumes(g, v, w));
    } else if w < row_base(bm, sc) {
        let t = w - kernel_base(bm, sc);
        lemma_rows_at(bm, t, bm.rows as int);
        let i = choose|r: int|
            0 <= r < bm.rows && #[trigger] nz_rows_before(bm, r) <= t && t < nz_rows_before(bm, r) + row_count(bm, r);
        let t2 = t - nz_rows_before(bm, i);
        lemma_row_at(bm, i, t2, bm.cols as int);
        let j = choose|q: int| 0 <= q < bm.cols && #[trigger] nz(bm, i, q) && count_row(bm, i, q) == t2;
        assert(w == kernel_id(bm, sc, i, j));
        lemma_count_row_step(bm, i, j, bm.cols as int);
        assert(g.output_nodes@[i] == row_id(bm, sc, i) && row_node_ok(bm, sc, ns, i));
        let v = row_id(bm, sc, i) as int;
        assert(g.deps_of(v)[t2] == w);
        lemma_occurs(g.deps_of(v), t2);
        assert(consumes(g, v, w));
    } else if w < wb_id(bm, sc) {
        let i = w - row_base(bm, sc);
        assert(g.output_nodes@[i] == row_id(bm, sc, i) && row_node_ok(bm, sc, ns, i));
        lemma_first_pos_found(g.output_nodes@, w, 0, i);
    } else {
        assert(!is_perm(bm));
    }
}


// ------------------------------------------------------------------
// Buffers still awaited
// ------------------------------------------------------------------
/// Dependency entries naming `u` among the nodes below `v` not done yet.
pub open spec fn pending_upto(g: SchedGraph, u: NodeId, done: Seq<bool>, v: int) -> nat
    decreases v,
{
    if v <= 0 {
        0
    } else {
        pending_upto(g, u, done, v - 1) + if !done[v - 1] {
            occurrences(g.deps_of(v - 1), u)
        } else {
            0nat
        }
    }
}

/// Dependency entries naming `u` among the nodes not done yet.
pub open spec fn pending(g: SchedGraph, u: NodeId, done: Seq<bool>) -> nat {
    pending_upto(g, u, done, g.nodes@.len() as int)
}

pub(crate) proof fn lemma_pending_none_done(g: SchedGraph, u: NodeId, done: Seq<bool>, v: int)
    requires
        forall|x: int| 0 <= x < v ==> !#[trigger] done[x],
    ensures
        pending_upto(g, u, done, v) == uses_upto(g, u, v),
    decreases v,
{
    if v > 0 {
        lemma_pending_none_done(g, u, done, v - 1);
    }
}

pub(crate) proof fn lemma_pending_all_done(g: SchedGraph, u: NodeId, done: Seq<bool>, v: int)
    requires
        forall|x: int| 0 <= x < v ==> #[trigger] done[x],
    ensures
        pending_upto(g, u, done, v) == 0,
    decreases v,
{
    if v > 0 {
        lemma_pending_all_done(g, u, done, v - 1);
    }
}

/// An undone node's entries are among those awaited.
pub(crate) proof fn lemma_pending_includes(g: SchedGraph, u: NodeId, done: Seq<bool>, x: int, v: int)
    requires
        0 <= x < v,
        !done[x],
    ensures
        pending_upto(g, u, done, v) >= occurrences(g.deps_of(x), u),
    decreases v,
{
    if x < v - 1 {
        lemma_pending_includes(g, u, done, x, v - 1);
    }
}

/// Marking an undone node done removes exactly its entries.
pub(crate) proof fn lemma_pending_mark(g: SchedGraph, u: NodeId, done: Seq<bool>, w: int, v: int)
    requires
        0 <= w < done.len(),
        !done[w],
        v <= done.len(),
    ensures
        pending_upto(g, u, done.update(w, true), v) + (if w < v {
            occurrences(g.deps_of(w), u)
        } else {
            0
        }) == pending_upto(g, u, done, v),
    decreases v,
{
    if v > 0 {
        lemma_pending_mark(g, u, done, w, v - 1);
    }
}

/// The bookkeeping agrees with the nodes done so far: every node's count of
/// consumers still to come is what remains, a held buffer still has a
/// consumer to come, and the occupancy counts the held buffers.
pub open spec fn sim_inv(g: SchedGraph, m: SimModel, done: Seq<bool>) -> bool {
    let n = g.nodes@.len();
    &&& m.held.len() == n
    &&& m.remaining.len() == n
    &&& done.len() == n
    &&& forall|u: NodeId| u < n ==> #[trigger] m.remaining[u as int] == pending(g, u, done)
    &&& forall|u: NodeId| u < n ==> #[trigger] m.held[u as int] ==> m.remaining[u as int] > 0
    &&& m.temp == count_held(m.held)
}

/// Consuming the entries of `deps` lowers each count by the entries naming
/// it, and frees exactly the buffers whose count reaches zero.
pub(crate) proof fn lemma_retire_deps(m: SimModel, deps: Seq<NodeId>)
    requires
        m.remaining.len() == m.held.len(),
        forall|k: int| 0 <= k < deps.len() ==> #[trigger] deps[k] < m.held.len(),
        forall|u: NodeId| u < m.held.len() ==> #[trigger] m.remaining[u as int] >= occurrences(deps, u),
        forall|u: NodeId| u < m.held.len() ==> #[trigger] m.held[u as int] ==> m.remaining[u as int] > 0,
        m.temp == count_held(m.held),
    ensures
        ({
            let m2 = retire_deps(m, deps);
            &&& m2.held.len() == m.held.len()
            &&& m2.remaining.len() == m.held.len()
            &&& forall|u: NodeId| u < m.held.len() ==> #[trigger] m2.remaining[u as int] == m.remaining[u as int] - occurrences(deps, u)
            &&& forall|u: NodeId| u < m.held.len() ==> #[trigger] m2.held[u as int] ==> m2.remaining[u as int] > 0
            &&& forall|u: NodeId| u < m.held.len() ==> #[trigger] m2.held[u as int] == (m.held[u as int] && m2.remaining[u as int] > 0)
            &&& m2.temp == count_held(m2.held)
        }),
    decreases deps.len(),
{
    if deps.len() > 0 {
        let p = deps.drop_last();
        let d = deps.last();
        assert forall|k: int| 0 <= k < p.len() implies #[trigger] p[k] < m.held.len() by {
            assert(p[k] == deps[k]);
        }
        assert forall|u: NodeId| u < m.held.len() implies #[trigger] m.remaining[u as int] >= occurrences(p, u) by {
        }
        lemma_retire_deps(m, p);
        let m1 = retire_deps(m, p);
        assert(d == deps[deps.len() - 1]);
        assert(m1.remaining[d as int] >= 1);
        let left = (m1.remaining[d as int] - 1) as nat;
        let m2 = retire_dep(m1, d);
        if left == 0 && m1.held[d as int] {
            lemma_count_held_update(m1.held, d as int, false);
        }
        assert forall|u: NodeId| u < m.held.len() implies #[trigger] m2.remaining[u as int] == m.remaining[u as int] - occurrences(deps, u) by {
        }
        assert forall|u: NodeId| u < m.held.len() implies #[trigger] m2.held[u as int] ==> m2.remaining[u as int] > 0 by {
        }
        assert forall|u: NodeId| u < m.held.len() implies #[trigger] m2.held[u as int] == (m.held[u as int] && m2.remaining[u as int] > 0) by {
            assert(m1.held[u as int] == (m.held[u as int] && m1.remaining[u as int] > 0));
        }
    }
}

/// Completing undone node `w` keeps the bookkeeping in step, marking `w`
/// done, when a buffer that `w` may take has a consumer still to come.
pub(crate) proof fn lemma_effect_keeps(g: SchedGraph, m: SimModel, done: Seq<bool>, ni: nat, live: nat, w: NodeId)
    requires
        g.ids_ok(),
        sim_inv(g, m, done),
        w < g.nodes@.len(),
        !done[w as int],
        may_take_buffer(g, w) ==> exists|v: int| 0 <= v < g.nodes@.len() && !done[v] && #[trigger] consumes(g, v, w),
    ensures
        sim_inv(g, node_effect(m, g, ni, live, w).0, done.update(w as int, true)),
        forall|u: NodeId| u < g.nodes@.len() ==> #[trigger] node_effect(m, g, ni, live, w).0.held[u as int] == (
            produce(m, g, ni, live, w).0.held[u as int] && node_effect(m, g, ni, live, w).0.remaining[u as int] > 0),
{
    let n = g.nodes@.len();
    let m1 = produce(m, g, ni, live, w).0;
    if may_take_buffer(g, w) {
        let v = choose|v: int| 0 <= v < n && !done[v] && #[trigger] consumes(g, v, w);
        lemma_pending_includes(g, w, done, v, n as int);
    }
    let tb = take_buffer(m, w);
    assert((m1.held == m.held && m1.remaining == m.remaining && m1.temp == m.temp) || (m1.held == tb.held
        && m1.remaining == tb.remaining && m1.temp == tb.temp));
    if !m.held[w as int] {
        lemma_count_held_update(m.held, w as int, true);
    }
    assert(m1.held.len() == n && m1.remaining.len() == n);
    assert(m1.temp == count_held(m1.held));
    assert forall|u: NodeId| u < n implies #[trigger] m1.held[u as int] ==> m1.remaining[u as int] > 0 by {
    }
    let deps = g.deps_of(w as int);
    assert forall|k: int| 0 <= k < deps.len() implies #[trigger] deps[k] < m1.held.len() by {
        assert(g.nodes@[w as int].deps@[k] < n);
    }
    assert forall|u: NodeId| u < m1.held.len() implies #[trigger] m1.remaining[u as int] >= occurrences(deps, u) by {
        lemma_pending_includes(g, u, done, w as int, n as int);
    }
    lemma_retire_deps(m1, deps);
    let m2 = retire_deps(m1, deps);
    let m3 = retire_block(m2, g.nodes@[w as int]);
    let d2 = done.update(w as int, true);
    assert forall|u: NodeId| u < n implies #[trigger] m3.remaining[u as int] == pending(g, u, d2) by {
        lemma_pending_mark(g, u, done, w as int, n as int);
    }
    assert(m3 == node_effect(m, g, ni, live, w).0);
}


// ------------------------------------------------------------------
// Completion order
// ------------------------------------------------------------------
/// The entry of node `x`.
pub open spec fn entry_of(ts: Seq<TimedNode>, x: int) -> int {
    choose|k: int| 0 <= k < ts.len() && ts[k].id == x
}

/// The finish cycle of node `x`.
pub open spec fn fin_of(ts: Seq<TimedNode>, x: int) -> int {
    ts[entry_of(ts, x)].finish_cycle as int
}

/// Node `x` is in the topological order.
pub open spec fn in_topo(topo: Seq<NodeId>, x: int) -> bool {
    exists|p: int| 0 <= p < topo.len() && topo[p] == x
}

/// The position of node `x` in the topological order.
pub open spec fn tpos(topo: Seq<NodeId>, x: int) -> int {
    choose|p: int| 0 <= p < topo.len() && topo[p] == x
}

/// Every node has one entry, found by `entry_of`.
pub(crate) proof fn lemma_entries(g: SchedGraph, params: SchedParams, s: Schedule)
    requires
        schedule_fits(g, params, s),
    ensures
        forall|x: int|
            0 <= x < g.nodes@.len() ==> 0 <= #[trigger] entry_of(s.timed_nodes@, x) < s.timed_nodes@.len()
                && s.timed_nodes@[entry_of(s.timed_nodes@, x)].id == x,
        forall|k: int| 0 <= k < s.timed_nodes@.len() ==> #[trigger] entry_of(s.timed_nodes@, s.timed_nodes@[k].id as int) == k,
{
    let ts = s.timed_nodes@;
    let n = g.nodes@.len();
    let ids = ts.map_values(|e: TimedNode| e.id as int);
    assert(ids.no_duplicates()) by {
        assert forall|i: int, j: int| 0 <= i < ids.len() && 0 <= j < ids.len() && i != j implies ids[i] != ids[j] by {
            assert(timed_ids(ts)[i] == ts[i].id);
            assert(timed_ids(ts)[j] == ts[j].id);
        }
    }
    ids.unique_seq_to_set();
    lemma_int_range(0, n as int);
    vstd::seq_lib::seq_to_set_is_finite(ids);
    assert(ids.to_set().subset_of(set_int_range(0, n as int))) by {
        assert forall|x: int| ids.to_set().contains(x) implies set_int_range(0, n as int).contains(x) by {
            let k = choose|k: int| 0 <= k < ids.len() && ids[k] == x;
            assert(ts[k].id < n);
        }
    }
    lemma_subset_equality(ids.to_set(), set_int_range(0, n as int));
    assert forall|x: int|
        0 <= x < n implies 0 <= #[trigger] entry_of(ts, x) < ts.len() && ts[entry_of(ts, x)].id == x by {
        assert(set_int_range(0, n as int).contains(x));
        assert(ids.to_set().contains(x));
        let k = choose|k: int| 0 <= k < ids.len() && ids[k] == x;
        assert(ts[k].id == x);
    }
    assert forall|k: int| 0 <= k < ts.len() implies #[trigger] entry_of(ts, ts[k].id as int) == k by {
        let x = ts[k].id as int;
        let e = entry_of(ts, x);
        assert(ts[k].id == x);
        if e != k {
            assert(ids[e] == ids[k]);
        }
    }
}

/// The topological order repeats no node, names nodes of the graph, and
/// lists every dependency of a node before it.
pub(crate) proof fn lemma_kahn(g: SchedGraph, topo: Seq<NodeId>)
    requires
        is_kahn_order(g, topo),
    ensures
        forall|p: int| 0 <= p < topo.len() ==> #[trigger] topo[p] < g.nodes@.len(),
        forall|p: int| 0 <= p < topo.len() ==> #[trigger] tpos(topo, topo[p] as int) == p,
        forall|p: int, q: int|
            0 <= p < topo.len() && 0 <= q < g.deps_of(topo[p] as int).len() ==> topo.take(p).contains(
                #[trigger] g.deps_of(topo[p] as int)[q],
            ),
{
    assert forall|p: int| 0 <= p < topo.len() implies #[trigger] topo[p] < g.nodes@.len() by {
        assert(kahn_available(g, topo.take(p), topo[p] as int));
    }
    assert forall|p: int| 0 <= p < topo.len() implies #[trigger] tpos(topo, topo[p] as int) == p by {
        let x = topo[p] as int;
        let r = tpos(topo, x);
        assert(topo[p] == x);
        if r != p {
            if r < p {
                assert(kahn_available(g, topo.take(p), topo[p] as int));
                assert(topo.take(p)[r] == topo[p]);
            } else {
                assert(kahn_available(g, topo.take(r), topo[r] as int));
                assert(topo.take(r)[p] == topo[r]);
            }
        }
    }
    assert forall|p: int, q: int|
        0 <= p < topo.len() && 0 <= q < g.deps_of(topo[p] as int).len() implies topo.take(p).contains(
            #[trigger] g.deps_of(topo[p] as int)[q],
        ) by {
        assert(kahn_available(g, topo.take(p), topo[p] as int));
    }
}

pub(crate) proof fn lemma_occurs_at(s: Seq<NodeId>, d: NodeId)
    requires
        occurrences(s, d) > 0,
    ensures
        exists|q: int| 0 <= q < s.len() && s[q] == d,
    decreases s.len(),
{
    if s.last() != d {
        lemma_occurs_at(s.drop_last(), d);
        let q = choose|q: int| 0 <= q < s.drop_last().len() && s.drop_last()[q] == d;
        assert(s[q] == d);
    } else {
        assert(s[s.len() - 1] == d);
    }
}

/// A consumer completes after what it consumes: later in entry order, no
/// earlier in finish cycle, and later in the topological order when it is
/// in it.
#[verifier::rlimit(100)]
pub(crate) proof fn lemma_edge_order(g: SchedGraph, params: SchedParams, s: Schedule, w: NodeId, x: int)
    requires
        schedule_fits(g, params, s),
        0 <= x < g.nodes@.len(),
        consumes(g, x, w),
    ensures
        entry_of(s.timed_nodes@, w as int) < entry_of(s.timed_nodes@, x),
        fin_of(s.timed_nodes@, w as int) <= fin_of(s.timed_nodes@, x),
        in_topo(s.topo_order@, x) ==> in_topo(s.topo_order@, w as int) && tpos(s.topo_order@, w as int) < tpos(
            s.topo_order@,
            x,
        ),
{
    let ts = s.timed_nodes@;
    let topo = s.topo_order@;
    lemma_entries(g, params, s);
    lemma_occurs_at(g.deps_of(x), w);
    let q = choose|q: int| 0 <= q < g.deps_of(x).len() && g.deps_of(x)[q] == w;
    let k = entry_of(ts, x);
    assert(ts[k].id == x);
    assert(g.deps_of(ts[k].id as int)[q] == w);
    assert(dep_done(ts, k, g.deps_of(ts[k].id as int)[q]));
    let j = choose|j: int| 0 <= j < k && (#[trigger] ts[j]).id == w && ts[j].finish_cycle <= ts[k].start_cycle;
    assert(entry_of(ts, ts[j].id as int) == j);
    assert(ts[k].finish_cycle >= ts[k].start_cycle);
    if in_topo(topo, x) {
        lemma_kahn(g, topo);
        let p = choose|p: int| 0 <= p < topo.len() && topo[p] == x;
        assert(tpos(topo, topo[p] as int) == p);
        assert(topo.take(p).contains(g.deps_of(topo[p] as int)[q]));
        let r = choose|r: int| 0 <= r < topo.take(p).len() && topo.take(p)[r] == w;
        assert(topo[r] == w);
        assert(tpos(topo, topo[r] as int) == r);
    }
}


// ------------------------------------------------------------------
// The bookkeeping through the cycles
// ------------------------------------------------------------------
/// The nodes done before topological position `p` of cycle `c` completes.
pub open spec fn done_topo(s: Schedule, n: nat, c: int, p: int) -> Seq<bool> {
    let ts = s.timed_nodes@;
    let topo = s.topo_order@;
    Seq::new(
        n,
        |x: int| fin_of(ts, x) < c || (fin_of(ts, x) == c && in_topo(topo, x) && tpos(topo, x) < p),
    )
}

/// The nodes done before the `k`-th entry of cycle `c` outside the
/// topological order completes.
pub open spec fn done_others(s: Schedule, n: nat, c: int, k: int) -> Seq<bool> {
    let ts = s.timed_nodes@;
    let topo = s.topo_order@;
    Seq::new(
        n,
        |x: int| fin_of(ts, x) < c || (fin_of(ts, x) == c && (in_topo(topo, x) || entry_of(ts, x) < k)),
    )
}

/// The facts the stages need, gathered once.
pub(crate) proof fn lemma_setup(bm: BlockMat, sc: Seq<Seq<bool>>, g: SchedGraph, params: SchedParams, s: Schedule)
    requires
        lower_ready(bm, sc),
        lowered(bm, sc, g),
        schedule_fits(g, params, s),
    ensures
        g.ids_ok(),
        forall|x: int|
            0 <= x < g.nodes@.len() ==> 0 <= #[trigger] entry_of(s.timed_nodes@, x) < s.timed_nodes@.len()
                && s.timed_nodes@[entry_of(s.timed_nodes@, x)].id == x,
        forall|k: int| 0 <= k < s.timed_nodes@.len() ==> #[trigger] entry_of(s.timed_nodes@, s.timed_nodes@[k].id as int) == k,
        forall|k: int| 0 <= k < s.timed_nodes@.len() ==> (#[trigger] s.timed_nodes@[k]).id < g.nodes@.len(),
        forall|p: int| 0 <= p < s.topo_order@.len() ==> #[trigger] s.topo_order@[p] < g.nodes@.len(),
        forall|p: int| 0 <= p < s.topo_order@.len() ==> #[trigger] tpos(s.topo_order@, s.topo_order@[p] as int) == p,
{
    lemma_entries(g, params, s);
    lemma_kahn(g, s.topo_order@);
}

/// Node `x` completes before node `v`: in an earlier cycle, or in the same
/// cycle earlier in completion order (topological part by position, then
/// the rest by entry).
pub open spec fn completes_before(s: Schedule, x: int, v: int) -> bool {
    let ts = s.timed_nodes@;
    let topo = s.topo_order@;
    ||| fin_of(ts, x) < fin_of(ts, v)
    ||| fin_of(ts, x) == fin_of(ts, v) && (
        (in_topo(topo, x) && in_topo(topo, v) && tpos(topo, x) < tpos(topo, v))
        || (in_topo(topo, x) && !in_topo(topo, v))
        || (!in_topo(topo, x) && !in_topo(topo, v) && entry_of(ts, x) < entry_of(ts, v)))
}

/// A node that may take a buffer, completing while `done` holds only nodes
/// finishing before it (or in the same cycle, earlier in completion order),
/// has a consumer still to come.
pub(crate) proof fn lemma_consumer_to_come(
    bm: BlockMat,
    sc: Seq<Seq<bool>>,
    g: SchedGraph,
    params: SchedParams,
    s: Schedule,
    v: NodeId,
    done: Seq<bool>,
)
    requires
        lower_ready(bm, sc),
        lowered(bm, sc, g),
        schedule_fits(g, params, s),
        v < g.nodes@.len(),
        may_take_buffer(g, v),
        done.len() == g.nodes@.len(),
        forall|x: int| 0 <= x < g.nodes@.len() && #[trigger] done[x] ==> completes_before(s, x, v as int),
    ensures
        exists|x: int| 0 <= x < g.nodes@.len() && !done[x] && #[trigger] consumes(g, x, v),
{
    lemma_buffer_has_consumer(bm, sc, g, v);
    let x = choose|x: int| 0 <= x < g.nodes@.len() && #[trigger] consumes(g, x, v);
    lemma_edge_order(g, params, s, v, x);
    assert(!done[x] && consumes(g, x, v));
}

/// Through the topological part of cycle `c`, up to position `p`.
pub(crate) proof fn lemma_topo_stage(
    bm: BlockMat,
    sc: Seq<Seq<bool>>,
    g: SchedGraph,
    params: SchedParams,
    s: Schedule,
    ni: nat,
    live: nat,
    c: int,
    p: int,
    m0: SimModel,
)
    requires
        lower_ready(bm, sc),
        lowered(bm, sc, g),
        schedule_fits(g, params, s),
        sim_inv(g, m0, done_topo(s, g.nodes@.len(), c, 0)),
        0 <= p <= s.topo_order@.len(),
    ensures
        sim_inv(g, run_nodes(m0, g, ni, live, topo_finishing(s, c, p)).0, done_topo(s, g.nodes@.len(), c, p)),
    decreases p,
{
    if p > 0 {
        lemma_topo_stage(bm, sc, g, params, s, ni, live, c, p - 1, m0);
        lemma_setup(bm, sc, g, params, s);
        let n = g.nodes@.len();
        let ts = s.timed_nodes@;
        let topo = s.topo_order@;
        let prev = topo_finishing(s, c, p - 1);
        let m = run_nodes(m0, g, ni, live, prev).0;
        let d0 = done_topo(s, n, c, p - 1);
        let v = topo[p - 1];
        assert(topo.no_duplicates()) by {
            assert forall|i: int, j: int| 0 <= i < topo.len() && 0 <= j < topo.len() && i != j implies topo[i]
                != topo[j] by {
                assert(tpos(topo, topo[i] as int) == i);
                assert(tpos(topo, topo[j] as int) == j);
            }
        }
        lemma_topo_finishing_distinct(s, c, p);
        assert(v < n && tpos(topo, v as int) == p - 1);
        assert(in_topo(topo, v as int));
        if finishes_at(ts, v, c) {
            let k = choose|k: int| 0 <= k < ts.len() && (#[trigger] ts[k]).id == v && ts[k].finish_cycle == c;
            assert(entry_of(ts, ts[k].id as int) == k);
            assert(fin_of(ts, v as int) == c);
            assert(!d0[v as int]);
            if may_take_buffer(g, v) {
                assert forall|x: int| 0 <= x < n && #[trigger] d0[x] implies completes_before(s, x, v as int) by {
                }
                lemma_consumer_to_come(bm, sc, g, params, s, v, d0);
            }
            lemma_effect_keeps(g, m, d0, ni, live, v);
            lemma_run_nodes_push(m0, g, ni, live, prev, v);
            assert(topo_finishing(s, c, p) == prev.push(v));
            assert(d0.update(v as int, true) =~= done_topo(s, n, c, p)) by {
                assert forall|y: int| 0 <= y < n implies #[trigger] d0.update(v as int, true)[y] == done_topo(s, n, c, p)[y] by {
                    if y != v as int && in_topo(topo, y) && tpos(topo, y) == p - 1 {
                        let q = choose|q: int| 0 <= q < topo.len() && topo[q] == y;
                        assert(topo[tpos(topo, y)] == y);
                    }
                }
            }
        } else {
            assert(topo_finishing(s, c, p) == prev);
            assert(d0 =~= done_topo(s, n, c, p)) by {
                assert forall|y: int| 0 <= y < n implies #[trigger] d0[y] == done_topo(s, n, c, p)[y] by {
                    if in_topo(topo, y) && tpos(topo, y) == p - 1 && fin_of(ts, y) == c {
                        let q = choose|q: int| 0 <= q < topo.len() && topo[q] == y;
                        assert(topo[tpos(topo, y)] == y);
                        assert(y == v as int);
                        let e = entry_of(ts, y);
                        assert(ts[e].id == v && ts[e].finish_cycle == c);
                    }
                }
            }
        }
    }
}

/// Through the part of cycle `c` outside the topological order, up to entry `k`.
pub(crate) proof fn lemma_others_stage(
    bm: BlockMat,
    sc: Seq<Seq<bool>>,
    g: SchedGraph,
    params: SchedParams,
    s: Schedule,
    ni: nat,
    live: nat,
    c: int,
    k: int,
    m0: SimModel,
)
    requires
        lower_ready(bm, sc),
        lowered(bm, sc, g),
        schedule_fits(g, params, s),
        sim_inv(g, m0, done_others(s, g.nodes@.len(), c, 0)),
        0 <= k <= s.timed_nodes@.len(),
    ensures
        sim_inv(g, run_nodes(m0, g, ni, live, others_finishing(s, c, k)).0, done_others(s, g.nodes@.len(), c, k)),
    decreases k,
{
    if k > 0 {
        lemma_others_stage(bm, sc, g, params, s, ni, live, c, k - 1, m0);
        lemma_setup(bm, sc, g, params, s);
        let n = g.nodes@.len();
        let ts = s.timed_nodes@;
        let topo = s.topo_order@;
        let prev = others_finishing(s, c, k - 1);
        let m = run_nodes(m0, g, ni, live, prev).0;
        let d0 = done_others(s, n, c, k - 1);
        let e = ts[k - 1];
        let w = e.id;
        assert(w < n);
        assert(entry_of(ts, w as int) == k - 1);
        assert(in_topo(topo, w as int) <==> topo.contains(w)) by {
            if in_topo(topo, w as int) {
                let q = choose|q: int| 0 <= q < topo.len() && topo[q] == w as int;
                assert(topo[q] == w);
            }
        }
        if e.finish_cycle == c && !topo.contains(w) {
            assert(fin_of(ts, w as int) == c);
            assert(!d0[w as int]);
            if may_take_buffer(g, w) {
                assert forall|x: int| 0 <= x < n && #[trigger] d0[x] implies completes_before(s, x, w as int) by {
                }
                lemma_consumer_to_come(bm, sc, g, params, s, w, d0);
            }
            lemma_effect_keeps(g, m, d0, ni, live, w);
            lemma_run_nodes_push(m0, g, ni, live, prev, w);
            assert(others_finishing(s, c, k) == prev.push(w));
            assert(d0.update(w as int, true) =~= done_others(s, n, c, k)) by {
                assert forall|y: int| 0 <= y < n implies #[trigger] d0.update(w as int, true)[y] == done_others(s, n, c, k)[y] by {
                    if y != w as int && entry_of(ts, y) == k - 1 {
                        assert(ts[entry_of(ts, y)].id == y);
                    }
                }
            }
        } else {
            assert(others_finishing(s, c, k) == prev);
            assert(d0 =~= done_others(s, n, c, k)) by {
                assert forall|y: int| 0 <= y < n implies #[trigger] d0[y] == done_others(s, n, c, k)[y] by {
                    if entry_of(ts, y) == k - 1 {
                        assert(ts[entry_of(ts, y)].id == y);
                        assert(y == w as int);
                    }
                }
            }
        }
    }
}


pub(crate) proof fn lemma_count_held_all_false(h: Seq<bool>)
    requires
        forall|i: int| 0 <= i < h.len() ==> !#[trigger] h[i],
    ensures
        count_held(h) == 0,
    decreases h.len(),
{
    if h.len() > 0 {
        assert forall|i: int| 0 <= i < h.drop_last().len() implies !#[trigger] h.drop_last()[i] by {
            assert(h.drop_last()[i] == h[i]);
        }
        lemma_count_held_all_false(h.drop_last());
    }
}

/// After the first `c` cycles, the bookkeeping agrees with the nodes that
/// finish before cycle `c`.
pub(crate) proof fn lemma_cycles_inv(
    bm: BlockMat,
    sc: Seq<Seq<bool>>,
    g: SchedGraph,
    params: SchedParams,
    s: Schedule,
    ni: nat,
    c: nat,
)
    requires
        lower_ready(bm, sc),
        lowered(bm, sc, g),
        schedule_fits(g, params, s),
    ensures
        sim_inv(g, run_cycles(g, s, ni, c).0, done_topo(s, g.nodes@.len(), c as int, 0)),
    decreases c,
{
    let n = g.nodes@.len();
    let ts = s.timed_nodes@;
    let topo = s.topo_order@;
    lemma_setup(bm, sc, g, params, s);
    if c == 0 {
        let m = initial_model(g);
        let d = done_topo(s, n, 0, 0);
        assert forall|x: int| 0 <= x < n implies !#[trigger] d[x] by {
            if in_topo(topo, x) {
                let q = choose|q: int| 0 <= q < topo.len() && topo[q] == x;
            }
        }
        assert forall|u: NodeId| u < n implies #[trigger] m.remaining[u as int] == pending(g, u, d) by {
            lemma_pending_none_done(g, u, d, n as int);
        }
        lemma_count_held_none(n);
    } else {
        lemma_cycles_inv(bm, sc, g, params, s, ni, (c - 1) as nat);
        let m = run_cycles(g, s, ni, (c - 1) as nat).0;
        let m0 = SimModel { cycle_peak: m.temp, ..m };
        let live = crate::simulate::live_inputs(g);
        let tpart = topo_finishing(s, c - 1, topo.len() as int);
        let opart = others_finishing(s, c - 1, ts.len() as int);
        lemma_topo_stage(bm, sc, g, params, s, ni, live, c - 1, topo.len() as int, m0);
        let m1 = run_nodes(m0, g, ni, live, tpart).0;
        assert(done_topo(s, n, c - 1, topo.len() as int) =~= done_others(s, n, c - 1, 0)) by {
            assert forall|x: int| 0 <= x < n implies #[trigger] done_topo(s, n, c - 1, topo.len() as int)[x] == done_others(s, n, c - 1, 0)[x] by {
                if in_topo(topo, x) {
                    let q = choose|q: int| 0 <= q < topo.len() && topo[q] == x;
                }
            }
        }
        lemma_others_stage(bm, sc, g, params, s, ni, live, c - 1, ts.len() as int, m1);
        lemma_run_nodes_concat(m0, g, ni, live, tpart, opart);
        assert(done_others(s, n, c - 1, ts.len() as int) =~= done_topo(s, n, c as int, 0)) by {
            assert forall|x: int| 0 <= x < n implies #[trigger] done_others(s, n, c - 1, ts.len() as int)[x] == done_topo(s, n, c as int, 0)[x] by {
                if in_topo(topo, x) {
                    let q = choose|q: int| 0 <= q < topo.len() && topo[q] == x;
                }
            }
        }
    }
}

/// Simulating the schedule of a lowered graph frees every temporary buffer:
/// after the last cycle no buffer is held, and the last snapshot ends with an
/// empty temporary buffer.
pub proof fn lemma_simulation_releases_buffers(
    bm: BlockMat,
    sc: Seq<Seq<bool>>,
    g: SchedGraph,
    params: SchedParams,
    s: Schedule,
    n_inputs: nat,
)
    requires
        lower_ready(bm, sc),
        lowered(bm, sc, g),
        schedule_fits(g, params, s),
    ensures
        ({
            let (m, snaps, steps) = run_cycles(g, s, n_inputs, (s.total_cycles + 1) as nat);
            &&& forall|u: int| 0 <= u < m.held.len() ==> !#[trigger] m.held[u]
            &&& m.temp == 0
            &&& snaps.last().end_of_cycle_occupancy == 0
        }),
{
    let n = g.nodes@.len();
    let ts = s.timed_nodes@;
    let c = (s.total_cycles + 1) as nat;
    lemma_setup(bm, sc, g, params, s);
    lemma_cycles_inv(bm, sc, g, params, s, n_inputs, c);
    let (m, snaps, steps) = run_cycles(g, s, n_inputs, c);
    let d = done_topo(s, n, c as int, 0);
    assert forall|x: int| 0 <= x < n implies #[trigger] d[x] by {
        let e = entry_of(ts, x);
        assert(ts[e].finish_cycle <= s.total_cycles);
    }
    assert forall|u: int| 0 <= u < m.held.len() implies !#[trigger] m.held[u] by {
        lemma_pending_all_done(g, u as NodeId, d, n as int);
        assert(m.remaining[(u as NodeId) as int] == 0);
    }
    lemma_count_held_all_false(m.held);
    let (pm, psnaps, psteps) = run_cycles(g, s, n_inputs, (c - 1) as nat);
    let m0 = SimModel { cycle_peak: pm.temp, ..pm };
    let (m1, st) = run_nodes(m0, g, n_inputs, crate::simulate::live_inputs(g), cycle_order(s, c - 1));
    assert(snaps == psnaps.push(snap_of(m1, g, s, (c - 1) as nat)));
}

} // verus!
