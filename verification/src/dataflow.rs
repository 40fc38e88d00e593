//! What the simulated data flow computes.
//!
//! Read symbolically, the steps that the simulation of a lowered graph
//! returns give every output block the sum, over the non-zero blocks of its
//! row in column order, of the block's kernel applied to the input block of
//! its column: the block matrix applied to the input. Carrying the steps out
//! on numbers is then arithmetic alone.
use vstd::prelude::*;
use crate::ir::BlockMat;
use crate::lower::{
    bcast_base, bcast_before, bcast_id, col_count, count_row, exec_cell, has_input, has_param,
    input_id, input_node_ok, is_perm, kernel_base, kernel_id, kernel_node_ok, keyed, lower_ready, lowered, node_count, nz, nz_rows_before,
    param_id, param_node_ok, row_base, row_count, row_id, row_node_ok, wb_id,
    lemma_bcast_mono, lemma_keyed_in_keys, lemma_nz_rows_mono,
    ExecKernelRef, NodeId, NodeType, SchedGraph,
};
use crate::release::{
    completes_before, consumes, done_others, done_topo, entry_of, fin_of, in_topo, may_take_buffer,
    sim_inv, tpos, lemma_bcast_at, lemma_consumer_to_come, lemma_count_row_step,
    lemma_edge_order, lemma_occurs, lemma_pending_includes, lemma_row_at, lemma_rows_at, lemma_setup,
};
use crate::schedule::{schedule_fits, SchedParams, Schedule};
use crate::simulate::{
    finishes_at, first_held, first_pos, held_terms, lemma_run_nodes_concat, lemma_run_nodes_push,
    lemma_topo_finishing_distinct, node_effect, opt_step, others_finishing, produce, resolve,
    run_cycles, run_nodes, topo_finishing, DataSrc,
    SimModel, StepView,
};

verus! {

// ------------------------------------------------------------------
// Block values, symbolically
// ------------------------------------------------------------------
/// One term of a block value: the kernels, applied in order, to input block
/// `input`.
pub struct FlowTerm {
    pub kernels: Seq<ExecKernelRef>,
    pub input: usize,
}

/// The values of the temporary buffers and of the output blocks, each a sum
/// of terms.
pub struct FlowState {
    pub temps: Map<NodeId, Seq<FlowTerm>>,
    pub outs: Map<usize, Seq<FlowTerm>>,
}

/// Input block `a` itself.
pub open spec fn input_term(a: usize) -> Seq<FlowTerm> {
    seq![FlowTerm { kernels: Seq::empty(), input: a }]
}

/// The value a step reads: a temporary buffer (zero when not filled), an
/// input block, or zero (the empty sum).
pub open spec fn flow_read(f: FlowState, src: DataSrc) -> Seq<FlowTerm> {
    match src {
        DataSrc::Temp(d) => if f.temps.contains_key(d) {
            f.temps[d]
        } else {
            Seq::empty()
        },
        DataSrc::Input(a) => input_term(a),
        DataSrc::Zeros => Seq::empty(),
    }
}

/// Kernel `e` applied to a value, term by term.
pub open spec fn flow_apply(e: ExecKernelRef, v: Seq<FlowTerm>) -> Seq<FlowTerm> {
    v.map_values(|t: FlowTerm| FlowTerm { kernels: t.kernels.push(e), input: t.input })
}

/// The sum, in order, of the temporary buffers of `terms`.
pub open spec fn flow_sum(f: FlowState, terms: Seq<NodeId>) -> Seq<FlowTerm>
    decreases terms.len(),
{
    if terms.len() == 0 {
        Seq::empty()
    } else {
        flow_sum(f, terms.drop_last()) + flow_read(f, DataSrc::Temp(terms.last()))
    }
}

/// What one step does to the values.
pub open spec fn flow_step(f: FlowState, step: StepView) -> FlowState {
    match step {
        StepView::Store { node, src } => FlowState { temps: f.temps.insert(node, flow_read(f, src)), ..f },
        StepView::Apply { node, kernel, src } => FlowState {
            temps: f.temps.insert(node, flow_apply(kernel, flow_read(f, src))),
            ..f
        },
        StepView::Emit { pos, src } => FlowState { outs: f.outs.insert(pos, flow_read(f, src)), ..f },
        StepView::Sum { pos, terms } => FlowState { outs: f.outs.insert(pos, flow_sum(f, terms)), ..f },
    }
}

/// The values after the steps, in order.
pub open spec fn flow_run(f: FlowState, steps: Seq<StepView>) -> FlowState
    decreases steps.len(),
{
    if steps.len() == 0 {
        f
    } else {
        flow_step(flow_run(f, steps.drop_last()), steps.last())
    }
}

/// No buffer filled, no output written.
pub open spec fn flow_start() -> FlowState {
    FlowState { temps: Map::empty(), outs: Map::empty() }
}

/// What block `(i, j)` contributes: its kernel applied to input block `j`
/// (an `Id` block applies nothing).
pub open spec fn block_terms(bm: BlockMat, sc: Seq<Seq<bool>>, i: int, j: int) -> Seq<FlowTerm> {
    let e = exec_cell(bm, sc, i, j);
    seq![
        FlowTerm {
            kernels: if e is Id {
                Seq::empty()
            } else {
                seq![e]
            },
            input: j as usize,
        },
    ]
}

/// Output block `i` as the block matrix gives it, up to column `j`: the
/// contributions of its non-zero blocks in column order.
pub open spec fn row_terms(bm: BlockMat, sc: Seq<Seq<bool>>, i: int, j: int) -> Seq<FlowTerm>
    decreases j,
{
    if j <= 0 {
        Seq::empty()
    } else {
        row_terms(bm, sc, i, j - 1) + if nz(bm, i, j - 1) {
            block_terms(bm, sc, i, j - 1)
        } else {
            Seq::empty()
        }
    }
}

proof fn lemma_flow_run_concat(f: FlowState, a: Seq<StepView>, b: Seq<StepView>)
    ensures
        flow_run(f, a + b) == flow_run(flow_run(f, a), b),
    decreases b.len(),
{
    if b.len() == 0 {
        assert(a + b =~= a);
    } else {
        assert((a + b).drop_last() =~= a + b.drop_last());
        assert((a + b).last() == b.last());
        lemma_flow_run_concat(f, a, b.drop_last());
    }
}

proof fn lemma_flow_run_opt(f: FlowState, st: Option<StepView>)
    ensures
        flow_run(f, opt_step(st)) == (match st {
            Some(x) => flow_step(f, x),
            None => f,
        }),
{
    match st {
        Some(x) => {
            assert(opt_step(st).drop_last() =~= Seq::<StepView>::empty());
            assert(opt_step(st).last() == x);
            assert(flow_run(f, opt_step(st).drop_last()) == f);
        },
        None => {},
    }
}

proof fn lemma_first_held_none(deps: Seq<NodeId>, held: Seq<bool>, k: int)
    requires
        0 <= k,
        forall|q: int| k <= q < deps.len() ==> !#[trigger] held[deps[q] as int],
    ensures
        first_held(deps, held, k) is None,
    decreases deps.len() - k,
{
    if k < deps.len() {
        lemma_first_held_none(deps, held, k + 1);
    }
}

proof fn lemma_held_terms_all(deps: Seq<NodeId>, held: Seq<bool>)
    requires
        forall|q: int| 0 <= q < deps.len() ==> #[trigger] held[deps[q] as int],
    ensures
        held_terms(deps, held) == deps,
    decreases deps.len(),
{
    if deps.len() > 0 {
        assert forall|q: int| 0 <= q < deps.drop_last().len() implies #[trigger] held[deps.drop_last()[q] as int] by {
            assert(deps.drop_last()[q] == deps[q]);
        }
        lemma_held_terms_all(deps.drop_last(), held);
        assert(held[deps[deps.len() - 1] as int]);
        assert(deps.drop_last().push(deps.last()) =~= deps);
    }
}

proof fn lemma_first_pos_some(outs: Seq<NodeId>, u: NodeId, k: int)
    requires
        0 <= k,
        outs.len() <= usize::MAX,
    ensures
        first_pos(outs, u, k) matches Some(p) ==> k <= p < outs.len() && outs[p as int] == u,
    decreases outs.len() - k,
{
    if k < outs.len() && outs[k] != u {
        lemma_first_pos_some(outs, u, k + 1);
    }
}

proof fn lemma_first_pos_at(outs: Seq<NodeId>, u: NodeId, k: int, i: int)
    requires
        0 <= k <= i < outs.len(),
        outs[i] == u,
        forall|q: int| k <= q < i ==> outs[q] != u,
    ensures
        first_pos(outs, u, k) == Some(i as usize),
    decreases i - k,
{
    if k < i {
        lemma_first_pos_at(outs, u, k + 1, i);
    }
}

/// The sum of the kernel nodes of row `i` up to column `j` is the row's value
/// up to `j`.
proof fn lemma_row_sum(bm: BlockMat, sc: Seq<Seq<bool>>, f: FlowState, i: int, j: int)
    requires
        0 <= i < bm.rows,
        0 <= j <= bm.cols,
        forall|q: int|
            0 <= q < bm.cols && nz(bm, i, q) ==> f.temps.contains_key(#[trigger] kernel_id(bm, sc, i, q) as NodeId)
                && f.temps[kernel_id(bm, sc, i, q) as NodeId] == block_terms(bm, sc, i, q),
    ensures
        flow_sum(
            f,
            Seq::new(count_row(bm, i, j), |t: int| (kernel_base(bm, sc) + nz_rows_before(bm, i) + t) as NodeId),
        ) == row_terms(bm, sc, i, j),
    decreases j,
{
    let base = kernel_base(bm, sc) + nz_rows_before(bm, i);
    if j > 0 {
        lemma_row_sum(bm, sc, f, i, j - 1);
        let prev = Seq::new(count_row(bm, i, j - 1), |t: int| (base + t) as NodeId);
        let cur = Seq::new(count_row(bm, i, j), |t: int| (base + t) as NodeId);
        if nz(bm, i, j - 1) {
            assert(cur.drop_last() =~= prev);
            assert(cur.last() == kernel_id(bm, sc, i, j - 1) as NodeId);
        } else {
            assert(cur =~= prev);
            assert(row_terms(bm, sc, i, j - 1) + Seq::<FlowTerm>::empty() =~= row_terms(bm, sc, i, j - 1));
        }
    }
}


// ------------------------------------------------------------------
// Where the nodes of a lowered graph sit
// ------------------------------------------------------------------
proof fn lemma_bcast_id_range(bm: BlockMat, sc: Seq<Seq<bool>>, j: int)
    requires
        0 <= j < bm.cols,
        col_count(bm, j) > 1,
    ensures
        bcast_base(bm, sc) <= bcast_id(bm, sc, j) < kernel_base(bm, sc),
{
    lemma_bcast_mono(bm, j + 1, bm.cols as int);
}

proof fn lemma_bcast_id_lt(bm: BlockMat, sc: Seq<Seq<bool>>, j: int, j2: int)
    requires
        0 <= j < j2,
        col_count(bm, j) > 1,
    ensures
        bcast_id(bm, sc, j) < bcast_id(bm, sc, j2),
{
    lemma_bcast_mono(bm, j + 1, j2);
}

proof fn lemma_kernel_id_range(bm: BlockMat, sc: Seq<Seq<bool>>, i: int, j: int)
    requires
        0 <= i < bm.rows,
        0 <= j < bm.cols,
        nz(bm, i, j),
    ensures
        kernel_base(bm, sc) <= kernel_id(bm, sc, i, j) < row_base(bm, sc),
{
    lemma_count_row_step(bm, i, j, bm.cols as int);
    lemma_nz_rows_mono(bm, i + 1, bm.rows as int);
}

proof fn lemma_kernel_id_lt(bm: BlockMat, sc: Seq<Seq<bool>>, i: int, j: int, i2: int, j2: int)
    requires
        0 <= i <= i2,
        0 <= j < bm.cols,
        0 <= j2 <= bm.cols,
        i < i2 || j < j2,
        nz(bm, i, j),
    ensures
        kernel_id(bm, sc, i, j) < kernel_id(bm, sc, i2, j2),
{
    if i == i2 {
        lemma_count_row_step(bm, i, j, j2);
    } else {
        lemma_count_row_step(bm, i, j, bm.cols as int);
        lemma_nz_rows_mono(bm, i + 1, i2);
    }
}

/// Two non-zero blocks with one kernel node are the same block.
proof fn lemma_kernel_id_inj(bm: BlockMat, sc: Seq<Seq<bool>>, i: int, j: int, i2: int, j2: int)
    requires
        0 <= i < bm.rows,
        0 <= j < bm.cols,
        0 <= i2 < bm.rows,
        0 <= j2 < bm.cols,
        nz(bm, i, j),
        nz(bm, i2, j2),
        kernel_id(bm, sc, i, j) == kernel_id(bm, sc, i2, j2),
    ensures
        i == i2 && j == j2,
{
    if i < i2 || (i == i2 && j < j2) {
        lemma_kernel_id_lt(bm, sc, i, j, i2, j2);
    } else if i2 < i || (i == i2 && j2 < j) {
        lemma_kernel_id_lt(bm, sc, i2, j2, i, j);
    }
}

/// Two broadcast columns with one broadcast node are the same column.
proof fn lemma_bcast_id_inj(bm: BlockMat, sc: Seq<Seq<bool>>, j: int, j2: int)
    requires
        0 <= j < bm.cols,
        0 <= j2 < bm.cols,
        col_count(bm, j) > 1,
        col_count(bm, j2) > 1,
        bcast_id(bm, sc, j) == bcast_id(bm, sc, j2),
    ensures
        j == j2,
{
    if j < j2 {
        lemma_bcast_id_lt(bm, sc, j, j2);
    } else if j2 < j {
        lemma_bcast_id_lt(bm, sc, j2, j);
    }
}

/// Every node of a lowered graph is the input read, the parameter load, a
/// column's broadcast, a block's kernel node, a row's output node or the
/// write-back.
pub(crate) proof fn lemma_role(bm: BlockMat, sc: Seq<Seq<bool>>, g: SchedGraph, v: int)
    requires
        lowered(bm, sc, g),
        0 <= v < g.nodes@.len(),
    ensures
        v < bcast_base(bm, sc) ==> (has_input(bm) && v == input_id(bm)) || (has_param(bm, sc) && v == param_id(bm)),
        bcast_base(bm, sc) <= v < kernel_base(bm, sc) ==> exists|j: int|
            0 <= j < bm.cols && col_count(bm, j) > 1 && v == #[trigger] bcast_id(bm, sc, j),
        kernel_base(bm, sc) <= v < row_base(bm, sc) ==> exists|i: int, j: int|
            0 <= i < bm.rows && 0 <= j < bm.cols && nz(bm, i, j) && v == #[trigger] kernel_id(bm, sc, i, j),
        row_base(bm, sc) <= v < wb_id(bm, sc) ==> 0 <= v - row_base(bm, sc) < bm.rows && v == row_id(
            bm,
            sc,
            v - row_base(bm, sc),
        ),
        v >= wb_id(bm, sc) ==> v == wb_id(bm, sc) && !is_perm(bm),
{
    if bcast_base(bm, sc) <= v < kernel_base(bm, sc) {
        let t = v - bcast_base(bm, sc);
        lemma_bcast_at(bm, t, bm.cols as int);
        let j = choose|q: int| 0 <= q < bm.cols && #[trigger] col_count(bm, q) > 1 && bcast_before(bm, q) == t;
        assert(v == bcast_id(bm, sc, j));
    } else if kernel_base(bm, sc) <= v < row_base(bm, sc) {
        let t = v - kernel_base(bm, sc);
        lemma_rows_at(bm, t, bm.rows as int);
        let i = choose|r: int|
            0 <= r < bm.rows && #[trigger] nz_rows_before(bm, r) <= t && t < nz_rows_before(bm, r) + row_count(bm, r);
        let t2 = t - nz_rows_before(bm, i);
        lemma_row_at(bm, i, t2, bm.cols as int);
        let j = choose|q: int| 0 <= q < bm.cols && #[trigger] nz(bm, i, q) && count_row(bm, i, q) == t2;
        assert(v == kernel_id(bm, sc, i, j));
    }
}

// ------------------------------------------------------------------
// Which buffers are held
// ------------------------------------------------------------------
/// A buffer is held exactly by a node done that takes one and still has a
/// consumer to come.
pub open spec fn held_inv(g: SchedGraph, m: SimModel, done: Seq<bool>) -> bool {
    let n = g.nodes@.len();
    &&& forall|u: NodeId| u < n ==> #[trigger] m.held[u as int] ==> done[u as int] && may_take_buffer(g, u)
    &&& forall|u: NodeId|
        u < n && done[u as int] && may_take_buffer(g, u) && m.remaining[u as int] > 0 ==> #[trigger] m.held[u as int]
}

/// A broadcast reads an input block that exists.
pub open spec fn bcast_inputs_exist(g: SchedGraph, ni: nat) -> bool {
    forall|u: int|
        0 <= u < g.nodes@.len() && (#[trigger] g.nodes@[u]).node_type is Broadcast ==> g.nodes@[u].input_slots@.len() > 0
            && g.nodes@[u].input_slots@[0] < ni
}

proof fn lemma_produce_held(g: SchedGraph, m: SimModel, ni: nat, live: nat, v: NodeId)
    requires
        v < g.nodes@.len(),
        m.held.len() == g.nodes@.len(),
        bcast_inputs_exist(g, ni),
    ensures
        produce(m, g, ni, live, v).0.remaining == m.remaining,
        produce(m, g, ni, live, v).0.held == (if may_take_buffer(g, v) {
            m.held.update(v as int, true)
        } else {
            m.held
        }),
{
    if m.held[v as int] {
        assert(m.held.update(v as int, true) =~= m.held);
    }
    let nd = g.nodes@[v as int];
    assert(nd.node_type is Broadcast ==> nd.input_slots@.len() > 0 && nd.input_slots@[0] < ni);
}

proof fn lemma_flow_held(g: SchedGraph, m: SimModel, done: Seq<bool>, ni: nat, live: nat, v: NodeId)
    requires
        g.ids_ok(),
        sim_inv(g, m, done),
        held_inv(g, m, done),
        bcast_inputs_exist(g, ni),
        v < g.nodes@.len(),
        !done[v as int],
        may_take_buffer(g, v) ==> exists|x: int| 0 <= x < g.nodes@.len() && !done[x] && #[trigger] consumes(g, x, v),
    ensures
        sim_inv(g, node_effect(m, g, ni, live, v).0, done.update(v as int, true)),
        held_inv(g, node_effect(m, g, ni, live, v).0, done.update(v as int, true)),
{
    let n = g.nodes@.len();
    crate::release::lemma_effect_keeps(g, m, done, ni, live, v);
    lemma_produce_held(g, m, ni, live, v);
    let m1 = produce(m, g, ni, live, v).0;
    let m3 = node_effect(m, g, ni, live, v).0;
    let d2 = done.update(v as int, true);
    assert forall|u: NodeId| u < n implies #[trigger] m3.held[u as int] ==> d2[u as int] && may_take_buffer(g, u) by {
        if m3.held[u as int] {
            assert(m1.held[u as int]);
        }
    }
    assert forall|u: NodeId|
        u < n && d2[u as int] && may_take_buffer(g, u) && m3.remaining[u as int] > 0 implies #[trigger] m3.held[u as int] by {
        if u != v {
            crate::release::lemma_pending_mark(g, u, done, v as int, n as int);
            assert(m.held[u as int]);
            assert(m1.held[u as int]);
        }
    }
}


// ------------------------------------------------------------------
// What each node does to the values
// ------------------------------------------------------------------
/// The values of the broadcasts, kernel nodes and outputs done so far are
/// those the block matrix gives them.
pub open spec fn flow_inv(bm: BlockMat, sc: Seq<Seq<bool>>, f: FlowState, done: Seq<bool>) -> bool {
    &&& forall|j: int|
        0 <= j < bm.cols && col_count(bm, j) > 1 && done[(#[trigger] bcast_id(bm, sc, j)) as int] ==> f.temps.contains_key(
            bcast_id(bm, sc, j) as NodeId,
        ) && f.temps[bcast_id(bm, sc, j) as NodeId] == input_term(j as usize)
    &&& forall|i: int, j: int|
        0 <= i < bm.rows && 0 <= j < bm.cols && nz(bm, i, j) && done[(#[trigger] kernel_id(bm, sc, i, j)) as int]
            ==> f.temps.contains_key(kernel_id(bm, sc, i, j) as NodeId) && f.temps[kernel_id(bm, sc, i, j) as NodeId]
            == block_terms(bm, sc, i, j)
    &&& forall|p: usize| #[trigger] f.outs.contains_key(p) <==> (p < bm.rows && done[row_id(bm, sc, p as int) as int])
    &&& forall|i: int|
        0 <= i < bm.rows && done[(#[trigger] row_id(bm, sc, i)) as int] ==> f.outs[i as usize] == row_terms(
            bm,
            sc,
            i,
            bm.cols as int,
        )
}

/// The facts about a node's completion that its step depends on.
pub open spec fn step_ready(bm: BlockMat, sc: Seq<Seq<bool>>, g: SchedGraph, ni: nat, m: SimModel, f: FlowState, done: Seq<bool>, v: NodeId) -> bool {
    &&& lower_ready(bm, sc)
    &&& lowered(bm, sc, g)
    &&& bm.cols <= ni
    &&& sim_inv(g, m, done)
    &&& held_inv(g, m, done)
    &&& flow_inv(bm, sc, f, done)
    &&& v < g.nodes@.len()
    &&& !done[v as int]
    &&& forall|q: int| 0 <= q < g.deps_of(v as int).len() ==> done[#[trigger] g.deps_of(v as int)[q] as int]
}

/// A dependency of `v`, done, that takes a buffer, holds it while `v` is to come.
proof fn lemma_dep_held(g: SchedGraph, m: SimModel, done: Seq<bool>, v: NodeId, q: int)
    requires
        g.ids_ok(),
        sim_inv(g, m, done),
        held_inv(g, m, done),
        v < g.nodes@.len(),
        !done[v as int],
        0 <= q < g.deps_of(v as int).len(),
        done[g.deps_of(v as int)[q] as int],
        may_take_buffer(g, g.deps_of(v as int)[q]),
    ensures
        m.held[g.deps_of(v as int)[q] as int],
{
    let w = g.deps_of(v as int)[q];
    assert(g.nodes@[v as int].deps@[q] < g.nodes@.len());
    lemma_occurs(g.deps_of(v as int), q);
    lemma_pending_includes(g, w, done, v as int, g.nodes@.len() as int);
}

/// A kernel node is no output node.
proof fn lemma_kernel_not_output(bm: BlockMat, sc: Seq<Seq<bool>>, g: SchedGraph, i: int, j: int)
    requires
        lowered(bm, sc, g),
        0 <= i < bm.rows,
        0 <= j < bm.cols,
        nz(bm, i, j),
    ensures
        first_pos(g.output_nodes@, kernel_id(bm, sc, i, j) as NodeId, 0) is None,
{
    lemma_kernel_id_range(bm, sc, i, j);
    lemma_first_pos_some(g.output_nodes@, kernel_id(bm, sc, i, j) as NodeId, 0);
    if first_pos(g.output_nodes@, kernel_id(bm, sc, i, j) as NodeId, 0) is Some {
        let p = first_pos(g.output_nodes@, kernel_id(bm, sc, i, j) as NodeId, 0)->0;
        assert(g.output_nodes@[p as int] == row_id(bm, sc, p as int));
    }
}

/// A broadcast stores its input block.
proof fn lemma_step_bcast(bm: BlockMat, sc: Seq<Seq<bool>>, g: SchedGraph, ni: nat, live: nat, m: SimModel, f: FlowState, done: Seq<bool>, j: int)
    requires
        step_ready(bm, sc, g, ni, m, f, done, bcast_id(bm, sc, j) as NodeId),
        0 <= j < bm.cols,
        col_count(bm, j) > 1,
    ensures
        flow_run(f, opt_step(produce(m, g, ni, live, bcast_id(bm, sc, j) as NodeId).1)) == (FlowState {
            temps: f.temps.insert(bcast_id(bm, sc, j) as NodeId, input_term(j as usize)),
            ..f
        }),
{
    let v = bcast_id(bm, sc, j) as NodeId;
    let nd = g.nodes@[v as int];
    assert(nd.node_type == NodeType::Broadcast);
    assert(nd.input_slots@[0] == j);
    lemma_flow_run_opt(f, produce(m, g, ni, live, v).1);
}

/// A kernel node applies its kernel to its column's input block.
#[verifier::rlimit(40)]
proof fn lemma_step_kernel(bm: BlockMat, sc: Seq<Seq<bool>>, g: SchedGraph, ni: nat, live: nat, m: SimModel, f: FlowState, done: Seq<bool>, i: int, j: int)
    requires
        step_ready(bm, sc, g, ni, m, f, done, kernel_id(bm, sc, i, j) as NodeId),
        0 <= i < bm.rows,
        0 <= j < bm.cols,
        nz(bm, i, j),
    ensures
        flow_run(f, opt_step(produce(m, g, ni, live, kernel_id(bm, sc, i, j) as NodeId).1)) == (FlowState {
            temps: f.temps.insert(kernel_id(bm, sc, i, j) as NodeId, block_terms(bm, sc, i, j)),
            ..f
        }),
{
    let v = kernel_id(bm, sc, i, j) as NodeId;
    let ns = g.nodes@;
    let nd = ns[v as int];
    let e = exec_cell(bm, sc, i, j);
    assert(kernel_node_ok(bm, sc, ns, i, j));
    let deps = nd.deps@;
    assert(deps == g.deps_of(v as int));
    assert(g.ids_ok());
    let src = resolve(m, nd, ni);
    if col_count(bm, j) > 1 {
        let b = bcast_id(bm, sc, j);
        assert(deps[0] == b);
        lemma_bcast_id_range(bm, sc, j);
        assert(ns[b as int].node_type == NodeType::Broadcast);
        assert(done[deps[0] as int]);
        lemma_dep_held(g, m, done, v, 0);
        assert(first_held(deps, m.held, 0) == Some(deps[0]));
        assert(src == DataSrc::Temp(b as NodeId));
        assert(flow_read(f, src) == input_term(j as usize));
    } else {
        if has_input(bm) {
            assert(input_node_ok(bm, ns));
        }
        if keyed(e) {
            lemma_keyed_in_keys(bm, sc, i, j);
            assert(param_node_ok(bm, sc, ns));
        }
        assert forall|q: int| 0 <= q < deps.len() implies !#[trigger] m.held[deps[q] as int] by {
            assert(!may_take_buffer(g, deps[q]));
        }
        lemma_first_held_none(deps, m.held, 0);
        assert(nd.input_slots@[0] == j);
        assert(src == DataSrc::Input(j as usize));
    }
    assert(flow_read(f, src) == input_term(j as usize));
    lemma_flow_run_opt(f, produce(m, g, ni, live, v).1);
    if e is Id {
        lemma_kernel_not_output(bm, sc, g, i, j);
        assert(input_term(j as usize) =~= block_terms(bm, sc, i, j));
    } else {
        assert(flow_apply(e, input_term(j as usize)) =~= block_terms(bm, sc, i, j)) by {
            assert(Seq::<ExecKernelRef>::empty().push(e) =~= seq![e]);
        }
    }
}

/// An output node writes its row's value.
#[verifier::rlimit(60)]
proof fn lemma_step_row(bm: BlockMat, sc: Seq<Seq<bool>>, g: SchedGraph, ni: nat, live: nat, m: SimModel, f: FlowState, done: Seq<bool>, i: int)
    requires
        step_ready(bm, sc, g, ni, m, f, done, row_id(bm, sc, i) as NodeId),
        0 <= i < bm.rows,
    ensures
        flow_run(f, opt_step(produce(m, g, ni, live, row_id(bm, sc, i) as NodeId).1)) == (FlowState {
            outs: f.outs.insert(i as usize, row_terms(bm, sc, i, bm.cols as int)),
            ..f
        }),
{
    let v = row_id(bm, sc, i) as NodeId;
    let ns = g.nodes@;
    let nd = ns[v as int];
    let outs = g.output_nodes@;
    assert(outs[i] == row_id(bm, sc, i) && row_node_ok(bm, sc, ns, i));
    let rc = row_count(bm, i);
    let base = kernel_base(bm, sc) + nz_rows_before(bm, i);
    let deps = nd.deps@;
    assert(deps == g.deps_of(v as int));
    assert(g.ids_ok());
    assert forall|q: int| 0 <= q < i implies outs[q] != v by {
        assert(outs[q] == row_id(bm, sc, q));
    }
    lemma_first_pos_at(outs, v, 0, i);
    // every kernel node of the row is done, holds its buffer and its value
    assert forall|q: int|
        0 <= q < bm.cols && nz(bm, i, q) implies f.temps.contains_key(#[trigger] kernel_id(bm, sc, i, q) as NodeId)
        && f.temps[kernel_id(bm, sc, i, q) as NodeId] == block_terms(bm, sc, i, q) && m.held[kernel_id(bm, sc, i, q) as int] by {
        lemma_count_row_step(bm, i, q, bm.cols as int);
        let t = count_row(bm, i, q) as int;
        assert(deps[t] == kernel_id(bm, sc, i, q));
        assert(done[deps[t] as int]);
        assert(kernel_node_ok(bm, sc, ns, i, q));
        lemma_kernel_not_output(bm, sc, g, i, q);
        lemma_dep_held(g, m, done, v, t);
    }
    lemma_row_sum(bm, sc, f, i, bm.cols as int);
    assert(deps =~= Seq::new(count_row(bm, i, bm.cols as int), |t: int| (base + t) as NodeId));
    lemma_flow_run_opt(f, produce(m, g, ni, live, v).1);
    if rc == 0 {
        assert(nd.node_type == NodeType::ZeroFill);
    } else if rc == 1 {
        assert(nd.node_type == NodeType::Direct);
        lemma_row_at(bm, i, 0, bm.cols as int);
        let q = choose|q: int| 0 <= q < bm.cols && #[trigger] nz(bm, i, q) && count_row(bm, i, q) == 0;
        assert(deps[0] == kernel_id(bm, sc, i, q));
        assert(m.held[deps[0] as int]);
        assert(first_held(deps, m.held, 0) == Some(deps[0]));
        assert(deps.drop_last() =~= Seq::<NodeId>::empty());
        assert(flow_sum(f, deps.drop_last()) == Seq::<FlowTerm>::empty());
        assert(deps.last() == deps[0]);
        assert(flow_sum(f, deps) =~= flow_read(f, DataSrc::Temp(deps[0])));
    } else {
        assert(nd.node_type == NodeType::Reduce);
        assert forall|t: int| 0 <= t < deps.len() implies #[trigger] m.held[deps[t] as int] by {
            lemma_row_at(bm, i, t, bm.cols as int);
            let q = choose|q: int| 0 <= q < bm.cols && #[trigger] nz(bm, i, q) && count_row(bm, i, q) == t;
            assert(deps[t] == kernel_id(bm, sc, i, q));
        }
        lemma_held_terms_all(deps, m.held);
    }
}


/// Completing a node that is no broadcast, kernel node or output node keeps
/// the values in step.
proof fn lemma_inv_other(bm: BlockMat, sc: Seq<Seq<bool>>, f: FlowState, done: Seq<bool>, v: NodeId)
    requires
        flow_inv(bm, sc, f, done),
        done.len() == node_count(bm, sc),
        node_count(bm, sc) < usize::MAX,
        0 <= v < done.len(),
        v < bcast_base(bm, sc) || v >= wb_id(bm, sc),
    ensures
        flow_inv(bm, sc, f, done.update(v as int, true)),
{
    let d2 = done.update(v as int, true);
    assert forall|j: int| 0 <= j < bm.cols && col_count(bm, j) > 1 && d2[(#[trigger] bcast_id(bm, sc, j)) as int] implies f.temps.contains_key(
        bcast_id(bm, sc, j) as NodeId) && f.temps[bcast_id(bm, sc, j) as NodeId] == input_term(j as usize) by {
        lemma_bcast_id_range(bm, sc, j);
    }
    assert forall|i: int, j: int| 0 <= i < bm.rows && 0 <= j < bm.cols && nz(bm, i, j) && d2[(#[trigger] kernel_id(bm, sc, i, j)) as int]
        implies f.temps.contains_key(kernel_id(bm, sc, i, j) as NodeId) && f.temps[kernel_id(bm, sc, i, j) as NodeId]
        == block_terms(bm, sc, i, j) by {
        lemma_kernel_id_range(bm, sc, i, j);
    }
    assert forall|p: usize| #[trigger] f.outs.contains_key(p) <==> (p < bm.rows && d2[row_id(bm, sc, p as int) as int]) by {
        if p < bm.rows {
            assert(row_id(bm, sc, p as int) < wb_id(bm, sc));
        }
    }
}

/// Completing the broadcast of column `j0` stores input block `j0`.
proof fn lemma_inv_bcast(bm: BlockMat, sc: Seq<Seq<bool>>, f: FlowState, done: Seq<bool>, j0: int)
    requires
        flow_inv(bm, sc, f, done),
        done.len() == node_count(bm, sc),
        node_count(bm, sc) < usize::MAX,
        0 <= j0 < bm.cols,
        col_count(bm, j0) > 1,
        bcast_id(bm, sc, j0) < done.len(),
    ensures
        flow_inv(
            bm,
            sc,
            FlowState { temps: f.temps.insert(bcast_id(bm, sc, j0) as NodeId, input_term(j0 as usize)), ..f },
            done.update(bcast_id(bm, sc, j0) as int, true),
        ),
{
    let v = bcast_id(bm, sc, j0);
    let d2 = done.update(v as int, true);
    let f2 = FlowState { temps: f.temps.insert(v as NodeId, input_term(j0 as usize)), ..f };
    lemma_bcast_id_range(bm, sc, j0);
    assert forall|j: int| 0 <= j < bm.cols && col_count(bm, j) > 1 && d2[(#[trigger] bcast_id(bm, sc, j)) as int] implies f2.temps.contains_key(
        bcast_id(bm, sc, j) as NodeId) && f2.temps[bcast_id(bm, sc, j) as NodeId] == input_term(j as usize) by {
        lemma_bcast_id_range(bm, sc, j);
        if bcast_id(bm, sc, j) == v {
            lemma_bcast_id_inj(bm, sc, j, j0);
        }
    }
    assert forall|i: int, j: int| 0 <= i < bm.rows && 0 <= j < bm.cols && nz(bm, i, j) && d2[(#[trigger] kernel_id(bm, sc, i, j)) as int]
        implies f2.temps.contains_key(kernel_id(bm, sc, i, j) as NodeId) && f2.temps[kernel_id(bm, sc, i, j) as NodeId]
        == block_terms(bm, sc, i, j) by {
        lemma_kernel_id_range(bm, sc, i, j);
    }
    assert forall|p: usize| #[trigger] f2.outs.contains_key(p) <==> (p < bm.rows && d2[row_id(bm, sc, p as int) as int]) by {
    }
}

/// Completing the kernel node of block `(i0, j0)` stores the block's contribution.
proof fn lemma_inv_kernel(bm: BlockMat, sc: Seq<Seq<bool>>, f: FlowState, done: Seq<bool>, i0: int, j0: int)
    requires
        flow_inv(bm, sc, f, done),
        done.len() == node_count(bm, sc),
        node_count(bm, sc) < usize::MAX,
        0 <= i0 < bm.rows,
        0 <= j0 < bm.cols,
        nz(bm, i0, j0),
        kernel_id(bm, sc, i0, j0) < done.len(),
    ensures
        flow_inv(
            bm,
            sc,
            FlowState { temps: f.temps.insert(kernel_id(bm, sc, i0, j0) as NodeId, block_terms(bm, sc, i0, j0)), ..f },
            done.update(kernel_id(bm, sc, i0, j0) as int, true),
        ),
{
    let v = kernel_id(bm, sc, i0, j0);
    let d2 = done.update(v as int, true);
    let f2 = FlowState { temps: f.temps.insert(v as NodeId, block_terms(bm, sc, i0, j0)), ..f };
    lemma_kernel_id_range(bm, sc, i0, j0);
    assert forall|j: int| 0 <= j < bm.cols && col_count(bm, j) > 1 && d2[(#[trigger] bcast_id(bm, sc, j)) as int] implies f2.temps.contains_key(
        bcast_id(bm, sc, j) as NodeId) && f2.temps[bcast_id(bm, sc, j) as NodeId] == input_term(j as usize) by {
        lemma_bcast_id_range(bm, sc, j);
    }
    assert forall|i: int, j: int| 0 <= i < bm.rows && 0 <= j < bm.cols && nz(bm, i, j) && d2[(#[trigger] kernel_id(bm, sc, i, j)) as int]
        implies f2.temps.contains_key(kernel_id(bm, sc, i, j) as NodeId) && f2.temps[kernel_id(bm, sc, i, j) as NodeId]
        == block_terms(bm, sc, i, j) by {
        lemma_kernel_id_range(bm, sc, i, j);
        if kernel_id(bm, sc, i, j) == v {
            lemma_kernel_id_inj(bm, sc, i, j, i0, j0);
        }
    }
    assert forall|p: usize| #[trigger] f2.outs.contains_key(p) <==> (p < bm.rows && d2[row_id(bm, sc, p as int) as int]) by {
    }
}

/// Completing the output node of row `i0` writes the row's value.
proof fn lemma_inv_row(bm: BlockMat, sc: Seq<Seq<bool>>, f: FlowState, done: Seq<bool>, i0: int)
    requires
        flow_inv(bm, sc, f, done),
        done.len() == node_count(bm, sc),
        node_count(bm, sc) < usize::MAX,
        0 <= i0 < bm.rows,
        row_id(bm, sc, i0) < done.len(),
    ensures
        flow_inv(
            bm,
            sc,
            FlowState { outs: f.outs.insert(i0 as usize, row_terms(bm, sc, i0, bm.cols as int)), ..f },
            done.update(row_id(bm, sc, i0) as int, true),
        ),
{
    let v = row_id(bm, sc, i0);
    let d2 = done.update(v as int, true);
    let f2 = FlowState { outs: f.outs.insert(i0 as usize, row_terms(bm, sc, i0, bm.cols as int)), ..f };
    assert forall|j: int| 0 <= j < bm.cols && col_count(bm, j) > 1 && d2[(#[trigger] bcast_id(bm, sc, j)) as int] implies f2.temps.contains_key(
        bcast_id(bm, sc, j) as NodeId) && f2.temps[bcast_id(bm, sc, j) as NodeId] == input_term(j as usize) by {
        lemma_bcast_id_range(bm, sc, j);
    }
    assert forall|i: int, j: int| 0 <= i < bm.rows && 0 <= j < bm.cols && nz(bm, i, j) && d2[(#[trigger] kernel_id(bm, sc, i, j)) as int]
        implies f2.temps.contains_key(kernel_id(bm, sc, i, j) as NodeId) && f2.temps[kernel_id(bm, sc, i, j) as NodeId]
        == block_terms(bm, sc, i, j) by {
        lemma_kernel_id_range(bm, sc, i, j);
    }
    assert forall|p: usize| #[trigger] f2.outs.contains_key(p) <==> (p < bm.rows && d2[row_id(bm, sc, p as int) as int]) by {
    }
    assert forall|i: int| 0 <= i < bm.rows && d2[(#[trigger] row_id(bm, sc, i)) as int] implies f2.outs[i as usize] == row_terms(
        bm, sc, i, bm.cols as int) by {
    }
}

/// In a lowered graph, broadcasts read input blocks below `cols`.
proof fn lemma_bcast_inputs(bm: BlockMat, sc: Seq<Seq<bool>>, g: SchedGraph, ni: nat)
    requires
        lowered(bm, sc, g),
        bm.cols <= ni,
    ensures
        bcast_inputs_exist(g, ni),
{
    let ns = g.nodes@;
    assert forall|u: int| 0 <= u < ns.len() && (#[trigger] ns[u]).node_type is Broadcast implies ns[u].input_slots@.len() > 0
        && ns[u].input_slots@[0] < ni by {
        lemma_role(bm, sc, g, u);
        if u < bcast_base(bm, sc) {
            if has_input(bm) && u == input_id(bm) {
                assert(input_node_ok(bm, ns));
            } else {
                assert(param_node_ok(bm, sc, ns));
            }
        } else if u < kernel_base(bm, sc) {
            let j = choose|j: int| 0 <= j < bm.cols && col_count(bm, j) > 1 && u == #[trigger] bcast_id(bm, sc, j);
        } else if u < row_base(bm, sc) {
            let (i, j) = choose|i: int, j: int| 0 <= i < bm.rows && 0 <= j < bm.cols && nz(bm, i, j) && u == #[trigger] kernel_id(bm, sc, i, j);
            assert(kernel_node_ok(bm, sc, ns, i, j));
        } else if u < wb_id(bm, sc) {
            let i = u - row_base(bm, sc);
            assert(g.output_nodes@[i] == row_id(bm, sc, i) && row_node_ok(bm, sc, ns, i));
        }
    }
}

/// Completing a node whose dependencies are done keeps the bookkeeping, the
/// held buffers and the values in step.
#[verifier::rlimit(60)]
proof fn lemma_flow_effect(bm: BlockMat, sc: Seq<Seq<bool>>, g: SchedGraph, ni: nat, live: nat, m: SimModel, f: FlowState, done: Seq<bool>, v: NodeId)
    requires
        step_ready(bm, sc, g, ni, m, f, done, v),
        may_take_buffer(g, v) ==> exists|x: int| 0 <= x < g.nodes@.len() && !done[x] && #[trigger] consumes(g, x, v),
    ensures
        ({
            let (m2, st) = node_effect(m, g, ni, live, v);
            let d2 = done.update(v as int, true);
            &&& sim_inv(g, m2, d2)
            &&& held_inv(g, m2, d2)
            &&& flow_inv(bm, sc, flow_run(f, opt_step(st)), d2)
        }),
{
    let ns = g.nodes@;
    assert(g.ids_ok());
    lemma_bcast_inputs(bm, sc, g, ni);
    crate::lower::lemma_sizes(bm, sc);
    lemma_flow_held(g, m, done, ni, live, v);
    assert(node_effect(m, g, ni, live, v).1 == produce(m, g, ni, live, v).1);
    lemma_role(bm, sc, g, v as int);
    if v < bcast_base(bm, sc) {
        if has_input(bm) && v == input_id(bm) {
            assert(input_node_ok(bm, ns));
        } else {
            assert(param_node_ok(bm, sc, ns));
        }
        lemma_flow_run_opt(f, produce(m, g, ni, live, v).1);
        lemma_inv_other(bm, sc, f, done, v);
    } else if v < kernel_base(bm, sc) {
        let j = choose|j: int| 0 <= j < bm.cols && col_count(bm, j) > 1 && v == #[trigger] bcast_id(bm, sc, j);
        lemma_step_bcast(bm, sc, g, ni, live, m, f, done, j);
        lemma_inv_bcast(bm, sc, f, done, j);
    } else if v < row_base(bm, sc) {
        let (i, j) = choose|i: int, j: int| 0 <= i < bm.rows && 0 <= j < bm.cols && nz(bm, i, j) && v == #[trigger] kernel_id(bm, sc, i, j);
        lemma_step_kernel(bm, sc, g, ni, live, m, f, done, i, j);
        lemma_inv_kernel(bm, sc, f, done, i, j);
    } else if v < wb_id(bm, sc) {
        let i = v - row_base(bm, sc);
        lemma_step_row(bm, sc, g, ni, live, m, f, done, i);
        lemma_inv_row(bm, sc, f, done, i);
    } else {
        assert(crate::lower::wb_node_ok(bm, sc, ns, g.output_nodes@));
        lemma_flow_run_opt(f, produce(m, g, ni, live, v).1);
        lemma_inv_other(bm, sc, f, done, v);
    }
}


// ------------------------------------------------------------------
// Through the cycles
// ------------------------------------------------------------------
/// Bookkeeping, held buffers and values all in step with `done`.
pub open spec fn all_inv(bm: BlockMat, sc: Seq<Seq<bool>>, g: SchedGraph, m: SimModel, f: FlowState, done: Seq<bool>) -> bool {
    &&& sim_inv(g, m, done)
    &&& held_inv(g, m, done)
    &&& flow_inv(bm, sc, f, done)
}

/// The dependencies of a node completing are done, when `done` holds the
/// nodes that complete before it.
proof fn lemma_deps_done(g: SchedGraph, params: SchedParams, s: Schedule, v: NodeId, d: Seq<bool>)
    requires
        schedule_fits(g, params, s),
        g.ids_ok(),
        v < g.nodes@.len(),
        d.len() == g.nodes@.len(),
        forall|x: int| 0 <= x < g.nodes@.len() && #[trigger] completes_before(s, x, v as int) ==> d[x],
    ensures
        forall|q: int| 0 <= q < g.deps_of(v as int).len() ==> d[#[trigger] g.deps_of(v as int)[q] as int],
{
    assert forall|q: int| 0 <= q < g.deps_of(v as int).len() implies d[#[trigger] g.deps_of(v as int)[q] as int] by {
        let w = g.deps_of(v as int)[q];
        assert(g.nodes@[v as int].deps@[q] < g.nodes@.len());
        lemma_occurs(g.deps_of(v as int), q);
        lemma_edge_order(g, params, s, w, v as int);
        assert(completes_before(s, w as int, v as int));
    }
}

/// Through the topological part of cycle `c`, up to position `p`.
#[verifier::rlimit(60)]
proof fn lemma_flow_topo_stage(
    bm: BlockMat,
    sc: Seq<Seq<bool>>,
    g: SchedGraph,
    params: SchedParams,
    s: Schedule,
    ni: nat,
    live: nat,
    c: int,
    p: int,
    m0: SimModel,
    f0: FlowState,
)
    requires
        lower_ready(bm, sc),
        lowered(bm, sc, g),
        schedule_fits(g, params, s),
        bm.cols <= ni,
        all_inv(bm, sc, g, m0, f0, done_topo(s, g.nodes@.len(), c, 0)),
        0 <= p <= s.topo_order@.len(),
    ensures
        ({
            let (m, st) = run_nodes(m0, g, ni, live, topo_finishing(s, c, p));
            all_inv(bm, sc, g, m, flow_run(f0, st), done_topo(s, g.nodes@.len(), c, p))
        }),
    decreases p,
{
    if p > 0 {
        lemma_flow_topo_stage(bm, sc, g, params, s, ni, live, c, p - 1, m0, f0);
        lemma_setup(bm, sc, g, params, s);
        let n = g.nodes@.len();
        let ts = s.timed_nodes@;
        let topo = s.topo_order@;
        let prev = topo_finishing(s, c, p - 1);
        let (m, st) = run_nodes(m0, g, ni, live, prev);
        let f = flow_run(f0, st);
        let d0 = done_topo(s, n, c, p - 1);
        let v = topo[p - 1];
        assert(topo.no_duplicates()) by {
            assert forall|i: int, j: int| 0 <= i < topo.len() && 0 <= j < topo.len() && i != j implies topo[i]
                != topo[j] by {
                assert(tpos(topo, topo[i] as int) == i);
                assert(tpos(topo, topo[j] as int) == j);
            }
        }
        lemma_topo_finishing_distinct(s, c, p);
        assert(v < n && tpos(topo, v as int) == p - 1);
        assert(in_topo(topo, v as int));
        if finishes_at(ts, v, c) {
            let k = choose|k: int| 0 <= k < ts.len() && (#[trigger] ts[k]).id == v && ts[k].finish_cycle == c;
            assert(entry_of(ts, ts[k].id as int) == k);
            assert(fin_of(ts, v as int) == c);
            assert(!d0[v as int]);
            assert forall|x: int| 0 <= x < n && #[trigger] d0[x] implies completes_before(s, x, v as int) by {
            }
            if may_take_buffer(g, v) {
                lemma_consumer_to_come(bm, sc, g, params, s, v, d0);
            }
            assert forall|x: int| 0 <= x < n && #[trigger] completes_before(s, x, v as int) implies d0[x] by {
            }
            lemma_deps_done(g, params, s, v, d0);
            lemma_flow_effect(bm, sc, g, ni, live, m, f, d0, v);
            lemma_run_nodes_push(m0, g, ni, live, prev, v);
            let step = node_effect(m, g, ni, live, v).1;
            lemma_flow_run_concat(f0, st, opt_step(step));
            assert(topo_finishing(s, c, p) == prev.push(v));
            assert(d0.update(v as int, true) =~= done_topo(s, n, c, p)) by {
                assert forall|y: int| 0 <= y < n implies #[trigger] d0.update(v as int, true)[y] == done_topo(s, n, c, p)[y] by {
                    if y != v as int && in_topo(topo, y) && tpos(topo, y) == p - 1 {
                        let q = choose|q: int| 0 <= q < topo.len() && topo[q] == y;
                        assert(topo[tpos(topo, y)] == y);
                    }
                }
            }
        } else {
            assert(topo_finishing(s, c, p) == prev);
            assert(d0 =~= done_topo(s, n, c, p)) by {
                assert forall|y: int| 0 <= y < n implies #[trigger] d0[y] == done_topo(s, n, c, p)[y] by {
                    if in_topo(topo, y) && tpos(topo, y) == p - 1 && fin_of(ts, y) == c {
                        let q = choose|q: int| 0 <= q < topo.len() && topo[q] == y;
                        assert(topo[tpos(topo, y)] == y);
                        assert(y == v as int);
                        let e = entry_of(ts, y);
                        assert(ts[e].id == v && ts[e].finish_cycle == c);
                    }
                }
            }
        }
    } else {
        assert(topo_finishing(s, c, 0) == Seq::<NodeId>::empty());
    }
}

/// Through the part of cycle `c` outside the topological order, up to entry `k`.
#[verifier::rlimit(60)]
proof fn lemma_flow_others_stage(
    bm: BlockMat,
    sc: Seq<Seq<bool>>,
    g: SchedGraph,
    params: SchedParams,
    s: Schedule,
    ni: nat,
    live: nat,
    c: int,
    k: int,
    m0: SimModel,
    f0: FlowState,
)
    requires
        lower_ready(bm, sc),
        lowered(bm, sc, g),
        schedule_fits(g, params, s),
        bm.cols <= ni,
        all_inv(bm, sc, g, m0, f0, done_others(s, g.nodes@.len(), c, 0)),
        0 <= k <= s.timed_nodes@.len(),
    ensures
        ({
            let (m, st) = run_nodes(m0, g, ni, live, others_finishing(s, c, k));
            all_inv(bm, sc, g, m, flow_run(f0, st), done_others(s, g.nodes@.len(), c, k))
        }),
    decreases k,
{
    if k > 0 {
        lemma_flow_others_stage(bm, sc, g, params, s, ni, live, c, k - 1, m0, f0);
        lemma_setup(bm, sc, g, params, s);
        let n = g.nodes@.len();
        let ts = s.timed_nodes@;
        let topo = s.topo_order@;
        let prev = others_finishing(s, c, k - 1);
        let (m, st) = run_nodes(m0, g, ni, live, prev);
        let f = flow_run(f0, st);
        let d0 = done_others(s, n, c, k - 1);
        let e = ts[k - 1];
        let w = e.id;
        assert(w < n);
        assert(entry_of(ts, w as int) == k - 1);
        assert(in_topo(topo, w as int) <==> topo.contains(w)) by {
            if in_topo(topo, w as int) {
                let q = choose|q: int| 0 <= q < topo.len() && topo[q] == w as int;
                assert(topo[q] == w);
            }
        }
        if e.finish_cycle == c && !topo.contains(w) {
            assert(fin_of(ts, w as int) == c);
            assert(!d0[w as int]);
            assert forall|x: int| 0 <= x < n && #[trigger] d0[x] implies completes_before(s, x, w as int) by {
            }
            if may_take_buffer(g, w) {
                lemma_consumer_to_come(bm, sc, g, params, s, w, d0);
            }
            assert forall|x: int| 0 <= x < n && #[trigger] completes_before(s, x, w as int) implies d0[x] by {
            }
            lemma_deps_done(g, params, s, w, d0);
            lemma_flow_effect(bm, sc, g, ni, live, m, f, d0, w);
            lemma_run_nodes_push(m0, g, ni, live, prev, w);
            let step = node_effect(m, g, ni, live, w).1;
            lemma_flow_run_concat(f0, st, opt_step(step));
            assert(others_finishing(s, c, k) == prev.push(w));
            assert(d0.update(w as int, true) =~= done_others(s, n, c, k)) by {
                assert forall|y: int| 0 <= y < n implies #[trigger] d0.update(w as int, true)[y] == done_others(s, n, c, k)[y] by {
                    if y != w as int && entry_of(ts, y) == k - 1 {
                        assert(ts[entry_of(ts, y)].id == y);
                    }
                }
            }
        } else {
            assert(others_finishing(s, c, k) == prev);
            assert(d0 =~= done_others(s, n, c, k)) by {
                assert forall|y: int| 0 <= y < n implies #[trigger] d0[y] == done_others(s, n, c, k)[y] by {
                    if entry_of(ts, y) == k - 1 {
                        assert(ts[entry_of(ts, y)].id == y);
                        assert(y == w as int);
                    }
                }
            }
        }
    } else {
        assert(others_finishing(s, c, 0) == Seq::<NodeId>::empty());
    }
}


/// After the first `c` cycles, everything agrees with the nodes that finish
/// before cycle `c`.
#[verifier::rlimit(60)]
proof fn lemma_flow_cycles(bm: BlockMat, sc: Seq<Seq<bool>>, g: SchedGraph, params: SchedParams, s: Schedule, ni: nat, c: nat)
    requires
        lower_ready(bm, sc),
        lowered(bm, sc, g),
        schedule_fits(g, params, s),
        bm.cols <= ni,
    ensures
        ({
            let (m, snaps, steps) = run_cycles(g, s, ni, c);
            all_inv(bm, sc, g, m, flow_run(flow_start(), steps), done_topo(s, g.nodes@.len(), c as int, 0))
        }),
    decreases c,
{
    let n = g.nodes@.len();
    let ts = s.timed_nodes@;
    let topo = s.topo_order@;
    lemma_setup(bm, sc, g, params, s);
    crate::lower::lemma_sizes(bm, sc);
    if c == 0 {
        crate::release::lemma_cycles_inv(bm, sc, g, params, s, ni, 0);
        let d = done_topo(s, n, 0, 0);
        let m = crate::simulate::initial_model(g);
        assert forall|x: int| 0 <= x < n implies !#[trigger] d[x] by {
            if in_topo(topo, x) {
                let q = choose|q: int| 0 <= q < topo.len() && topo[q] == x;
            }
        }
        assert(run_cycles(g, s, ni, 0).2 == Seq::<StepView>::empty());
        let f = flow_run(flow_start(), Seq::<StepView>::empty());
        assert forall|p: usize| #[trigger] f.outs.contains_key(p) <==> (p < bm.rows && d[row_id(bm, sc, p as int) as int]) by {
        }
    } else {
        lemma_flow_cycles(bm, sc, g, params, s, ni, (c - 1) as nat);
        let (m, snaps, steps) = run_cycles(g, s, ni, (c - 1) as nat);
        let m0 = SimModel { cycle_peak: m.temp, ..m };
        let f0 = flow_run(flow_start(), steps);
        let live = crate::simulate::live_inputs(g);
        let tpart = topo_finishing(s, c - 1, topo.len() as int);
        let opart = others_finishing(s, c - 1, ts.len() as int);
        assert(all_inv(bm, sc, g, m0, f0, done_topo(s, n, c - 1, 0)));
        lemma_flow_topo_stage(bm, sc, g, params, s, ni, live, c - 1, topo.len() as int, m0, f0);
        let (m1, st1) = run_nodes(m0, g, ni, live, tpart);
        assert(done_topo(s, n, c - 1, topo.len() as int) =~= done_others(s, n, c - 1, 0)) by {
            assert forall|x: int| 0 <= x < n implies #[trigger] done_topo(s, n, c - 1, topo.len() as int)[x] == done_others(s, n, c - 1, 0)[x] by {
                if in_topo(topo, x) {
                    let q = choose|q: int| 0 <= q < topo.len() && topo[q] == x;
                }
            }
        }
        let f1 = flow_run(f0, st1);
        lemma_flow_others_stage(bm, sc, g, params, s, ni, live, c - 1, ts.len() as int, m1, f1);
        let (m2, st2) = run_nodes(m1, g, ni, live, opart);
        lemma_run_nodes_concat(m0, g, ni, live, tpart, opart);
        lemma_flow_run_concat(f0, st1, st2);
        lemma_flow_run_concat(flow_start(), steps, st1 + st2);
        assert(done_others(s, n, c - 1, ts.len() as int) =~= done_topo(s, n, c as int, 0)) by {
            assert forall|x: int| 0 <= x < n implies #[trigger] done_others(s, n, c - 1, ts.len() as int)[x] == done_topo(s, n, c as int, 0)[x] by {
                if in_topo(topo, x) {
                    let q = choose|q: int| 0 <= q < topo.len() && topo[q] == x;
                }
            }
        }
    }
}

/// The simulation computes the block matrix applied to the input: run over
/// a lowered graph and its schedule, with every input block present, the
/// steps write exactly the output blocks of the rows, and output block `i`
/// is the sum, over the non-zero blocks of row `i` in column order, of the
/// block's kernel applied to the input block of its column (zero for a row
/// without non-zero block).
pub proof fn lemma_simulation_computes_the_matrix(
    bm: BlockMat,
    sc: Seq<Seq<bool>>,
    g: SchedGraph,
    params: SchedParams,
    s: Schedule,
    n_inputs: nat,
)
    requires
        lower_ready(bm, sc),
        lowered(bm, sc, g),
        schedule_fits(g, params, s),
        bm.cols <= n_inputs,
    ensures
        ({
            let out = flow_run(flow_start(), run_cycles(g, s, n_inputs, (s.total_cycles + 1) as nat).2).outs;
            &&& forall|p: usize| #[trigger] out.contains_key(p) <==> p < bm.rows
            &&& forall|i: int| 0 <= i < bm.rows ==> #[trigger] out[i as usize] == row_terms(bm, sc, i, bm.cols as int)
        }),
{
    let n = g.nodes@.len();
    let ts = s.timed_nodes@;
    let c = (s.total_cycles + 1) as nat;
    lemma_setup(bm, sc, g, params, s);
    crate::lower::lemma_sizes(bm, sc);
    lemma_flow_cycles(bm, sc, g, params, s, n_inputs, c);
    let d = done_topo(s, n, c as int, 0);
    assert forall|x: int| 0 <= x < n implies #[trigger] d[x] by {
        let e = entry_of(ts, x);
        assert(ts[e].finish_cycle <= s.total_cycles);
    }
    let out = flow_run(flow_start(), run_cycles(g, s, n_inputs, c).2).outs;
    assert forall|i: int| 0 <= i < bm.rows implies #[trigger] out[i as usize] == row_terms(bm, sc, i, bm.cols as int) by {
        assert(d[row_id(bm, sc, i) as int]);
    }
    assert forall|p: usize| #[trigger] out.contains_key(p) <==> p < bm.rows by {
        if p < bm.rows {
            assert(d[row_id(bm, sc, p as int) as int]);
        }
    }
}

} // verus!
