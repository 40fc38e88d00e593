//! Cost report: the analytic cost formulas next to what the schedule and the
//! simulation measured, and the cost of the flattened route.
use vstd::prelude::*;
use crate::ir::BlockMat;
use crate::lower::{NodeType, SchedGraph};
use crate::optimize::StructStats;
use crate::schedule::{ceil_div, latency, spec_ceil_div, spec_latency, LatencyModel, SchedParams, Schedule, TimedNode};
use crate::simulate::SimResult;

verus! {

/// The cost report.
#[derive(Debug, Clone)]
pub struct CostReport {
    // structure statistics
    pub n_nz: usize,
    pub n_gen: usize,
    pub n_scale: usize,
    pub n_unique: usize,
    pub n_scale_u: usize,
    pub bcast_cols: usize,
    pub reduce_rows: usize,
    pub dead_cols: usize,
    pub dead_rows: usize,
    pub single_rows: usize,
    pub is_permutation: bool,
    // analytic cost
    pub analytic_load_cycles: usize,
    pub analytic_load_eff_cycles: usize,
    pub analytic_exec_cycles: usize,
    pub analytic_bcast_cycles: usize,
    pub analytic_reduce_cycles: usize,
    pub analytic_wb_cycles: usize,
    pub analytic_total_upper: usize,
    pub analytic_total_eff: usize,
    // scheduled cost
    pub sched_exec_span_cycles: usize,
    pub sched_load_span_cycles: usize,
    pub sched_bcast_span_cycles: usize,
    pub sched_reduce_span_cycles: usize,
    pub sched_writeback_span_cycles: usize,
    pub sched_total_cycles: usize,
    // resources
    pub peak_input_buffer_blocks: usize,
    pub peak_temp_buffer_blocks: usize,
    pub output_buffer_blocks: usize,
    pub peak_output_buffer_blocks: usize,
    pub max_active_core: usize,
    pub max_active_bcast: usize,
    pub max_active_reduce: usize,
    // flattened route
    pub flat_total: usize,
}

// ------------------------------------------------------------------
// Analytic formulas
// ------------------------------------------------------------------
pub open spec fn sat_sub(a: nat, b: nat) -> nat {
    if a >= b {
        (a - b) as nat
    } else {
        0
    }
}

/// Scalars to load: `(N_unique - N_scale_u) * d^2 + N_scale_u`.
pub open spec fn load_scalars(st: StructStats) -> nat {
    ((st.n_unique - st.n_scale_u) * 4 + st.n_scale_u) as nat
}

/// `C_load = ceil(load_scalars / (P * B_w))`.
pub open spec fn c_load(st: StructStats, p: SchedParams) -> nat {
    spec_ceil_div(load_scalars(st), (p.core_slots * p.bw_params) as nat)
}

/// Batches of general kernels: `ceil((N_gen - N_scale) / P)`.
pub open spec fn general_batches(st: StructStats, p: SchedParams) -> nat {
    spec_ceil_div((st.n_gen - st.n_scale) as nat, p.core_slots as nat)
}

/// Batches of scalar kernels: `ceil(N_scale / P)`.
pub open spec fn scale_batches(st: StructStats, p: SchedParams) -> nat {
    spec_ceil_div(st.n_scale as nat, p.core_slots as nat)
}

/// `C_exec = ceil((N_gen - N_scale) / P) * L_core + ceil(N_scale / P) * L_scale`.
pub open spec fn c_exec(st: StructStats, p: SchedParams) -> nat {
    general_batches(st, p) * (p.core_latency as nat) + scale_batches(st, p) * (p.scale_latency as nat)
}

/// Number of entries above one.
pub open spec fn count_above_one(cs: Seq<usize>) -> nat
    decreases cs.len(),
{
    if cs.len() == 0 {
        0
    } else {
        count_above_one(cs.drop_last()) + if cs.last() > 1 {
            1nat
        } else {
            0nat
        }
    }
}

/// The largest latency, under `model`, of the entries above one (0 for none).
pub open spec fn max_lat_above_one(model: LatencyModel, cs: Seq<usize>) -> nat
    decreases cs.len(),
{
    if cs.len() == 0 {
        0
    } else {
        let m = max_lat_above_one(model, cs.drop_last());
        let l = spec_latency(model, cs.last() as nat);
        if cs.last() > 1 && l > m {
            l
        } else {
            m
        }
    }
}

/// `C_bcast = ceil(|J_bcast| / B_ports) * max_j C_bcast,j`.
pub open spec fn c_bcast(st: StructStats, p: SchedParams) -> nat {
    spec_ceil_div(count_above_one(st.col_counts@), p.bcast_ports as nat) * max_lat_above_one(
        p.bcast_model,
        st.col_counts@,
    )
}

/// `C_reduce = ceil(|I_reduce| / R_ports) * max_i C_reduce,i`.
pub open spec fn c_reduce(st: StructStats, p: SchedParams) -> nat {
    spec_ceil_div(count_above_one(st.row_counts@), p.reduce_ports as nat) * max_lat_above_one(
        p.reduce_model,
        st.row_counts@,
    )
}

/// `C_wb = ceil(n * d / W_out)`.
pub open spec fn c_wb(bm: BlockMat, p: SchedParams) -> nat {
    spec_ceil_div((bm.rows * 2) as nat, p.bw_writeback as nat)
}

/// Load cycles hidden behind execution by double buffering: all batches but
/// the first, at the shortest batch latency.
pub open spec fn hidden_load(st: StructStats, p: SchedParams) -> nat {
    let nb = general_batches(st, p) + scale_batches(st, p);
    if nb > 1 {
        ((nb - 1) * p.scale_latency) as nat
    } else {
        0
    }
}

/// `C_load_eff`: the load cost left after double buffering (0 without kernels).
pub open spec fn c_load_eff(st: StructStats, p: SchedParams) -> nat {
    if st.n_gen == 0 {
        0
    } else {
        sat_sub(c_load(st, p), hidden_load(st, p))
    }
}

pub open spec fn total_upper(bm: BlockMat, st: StructStats, p: SchedParams) -> nat {
    c_load(st, p) + c_exec(st, p) + c_bcast(st, p) + c_reduce(st, p) + c_wb(bm, p)
}

pub open spec fn total_eff(bm: BlockMat, st: StructStats, p: SchedParams) -> nat {
    c_load_eff(st, p) + c_exec(st, p) + c_bcast(st, p) + c_reduce(st, p) + c_wb(bm, p)
}

/// Cost of the flattened route: every one of the `n * m` blocks loaded and
/// executed as a general kernel, every column broadcast to `n` rows, every
/// row reduced over `m` columns, and the outputs written back.
pub open spec fn flat_total(bm: BlockMat, p: SchedParams) -> nat {
    let n = bm.rows as nat;
    let m = bm.cols as nat;
    spec_ceil_div(n * m * 4, (p.core_slots * p.bw_params) as nat) + spec_ceil_div(n * m, p.core_slots as nat)
        * (p.core_latency as nat) + spec_ceil_div(m, p.bcast_ports as nat) * spec_latency(p.bcast_model, n)
        + spec_ceil_div(n, p.reduce_ports as nat) * spec_latency(p.reduce_model, m) + spec_ceil_div(
        n * 2,
        p.bw_writeback as nat,
    )
}

// ------------------------------------------------------------------
// Measured spans and peaks
// ------------------------------------------------------------------
/// A group of node types whose span or activity the report measures.
#[derive(Debug, Clone, Copy, PartialEq, Eq)]
pub enum SpanClass {
    /// `Core` nodes.
    Exec,
    /// `InputRead` and `ParamLoad` nodes.
    Load,
    /// `Broadcast` nodes.
    Bcast,
    /// `Reduce` and `ZeroFill` nodes.
    Reduce,
    /// `WriteBack` nodes.
    WriteBack,
}

pub open spec fn in_class(nt: NodeType, c: SpanClass) -> bool {
    match c {
        SpanClass::Exec => nt is Core,
        SpanClass::Load => nt is InputRead || nt is ParamLoad,
        SpanClass::Bcast => nt is Broadcast,
        SpanClass::Reduce => nt is Reduce || nt is ZeroFill,
        SpanClass::WriteBack => nt is WriteBack,
    }
}

fn class_has(nt: &NodeType, c: SpanClass) -> (r: bool)
    ensures
        r == in_class(*nt, c),
{
    match c {
        SpanClass::Exec => match nt {
            NodeType::Core(_) => true,
            _ => false,
        },
        SpanClass::Load => match nt {
            NodeType::InputRead => true,
            NodeType::ParamLoad => true,
            _ => false,
        },
        SpanClass::Bcast => match nt {
            NodeType::Broadcast => true,
            _ => false,
        },
        SpanClass::Reduce => match nt {
            NodeType::Reduce => true,
            NodeType::ZeroFill => true,
            _ => false,
        },
        SpanClass::WriteBack => match nt {
            NodeType::WriteBack => true,
            _ => false,
        },
    }
}

/// The entry is for a node of the graph of class `c`.
pub open spec fn selected(g: SchedGraph, e: TimedNode, c: SpanClass) -> bool {
    e.id < g.nodes@.len() && in_class(g.nodes@[e.id as int].node_type, c)
}

/// The earliest start among the selected entries, if any.
pub open spec fn sel_min_start(g: SchedGraph, ts: Seq<TimedNode>, c: SpanClass) -> Option<nat>
    decreases ts.len(),
{
    if ts.len() == 0 {
        None
    } else {
        let prev = sel_min_start(g, ts.drop_last(), c);
        let e = ts.last();
        if selected(g, e, c) {
            match prev {
                Some(x) => Some(if (e.start_cycle as nat) < x { e.start_cycle as nat } else { x }),
                None => Some(e.start_cycle as nat),
            }
        } else {
            prev
        }
    }
}

/// The latest finish among the selected entries, if any.
pub open spec fn sel_max_finish(g: SchedGraph, ts: Seq<TimedNode>, c: SpanClass) -> Option<nat>
    decreases ts.len(),
{
    if ts.len() == 0 {
        None
    } else {
        let prev = sel_max_finish(g, ts.drop_last(), c);
        let e = ts.last();
        if selected(g, e, c) {
            match prev {
                Some(x) => Some(if (e.finish_cycle as nat) > x { e.finish_cycle as nat } else { x }),
                None => Some(e.finish_cycle as nat),
            }
        } else {
            prev
        }
    }
}

/// Cycles from the first start to the last finish of class `c` (0 if none).
pub open spec fn span_of(g: SchedGraph, ts: Seq<TimedNode>, c: SpanClass) -> nat {
    match (sel_min_start(g, ts, c), sel_max_finish(g, ts, c)) {
        (Some(a), Some(b)) => sat_sub(b, a),
        _ => 0,
    }
}

/// Entries of class `c` running at cycle `t`.
pub open spec fn running(g: SchedGraph, ts: Seq<TimedNode>, c: SpanClass, t: int) -> nat
    decreases ts.len(),
{
    if ts.len() == 0 {
        0
    } else {
        running(g, ts.drop_last(), c, t) + if ts.last().start_cycle <= t && t < ts.last().finish_cycle
            && selected(g, ts.last(), c) {
            1nat
        } else {
            0nat
        }
    }
}

/// The most entries of class `c` running at once over cycles `0..t`.
pub open spec fn most_running(g: SchedGraph, ts: Seq<TimedNode>, c: SpanClass, t: int) -> nat
    decreases t,
{
    if t <= 0 {
        0
    } else {
        let m = most_running(g, ts, c, t - 1);
        let r = running(g, ts, c, t - 1);
        if r > m {
            r
        } else {
            m
        }
    }
}

pub open spec fn opt_nat(o: Option<usize>) -> Option<nat> {
    match o {
        Some(x) => Some(x as nat),
        None => None,
    }
}

fn class_span(graph: &SchedGraph, schedule: &Schedule, c: SpanClass) -> (r: usize)
    ensures
        r == span_of(*graph, schedule.timed_nodes@, c),
{
    let ts = &schedule.timed_nodes;
    let mut lo: Option<usize> = None;
    let mut hi: Option<usize> = None;
    let mut k: usize = 0;
    while k < ts.len()
        invariant
            k <= ts@.len(),
            opt_nat(lo) == sel_min_start(*graph, ts@.take(k as int), c),
            opt_nat(hi) == sel_max_finish(*graph, ts@.take(k as int), c),
        decreases ts@.len() - k,
    {
        proof {
            assert(ts@.take(k + 1).drop_last() =~= ts@.take(k as int));
        }
        let e = ts[k];
        let sel = e.id < graph.nodes.len() && class_has(&graph.nodes[e.id].node_type, c);
        if sel {
            lo = match lo {
                Some(x) => Some(if e.start_cycle < x { e.start_cycle } else { x }),
                None => Some(e.start_cycle),
            };
            hi = match hi {
                Some(x) => Some(if e.finish_cycle > x { e.finish_cycle } else { x }),
                None => Some(e.finish_cycle),
            };
        }
        k = k + 1;
    }
    proof {
        assert(ts@.take(ts@.len() as int) =~= ts@);
    }
    match (lo, hi) {
        (Some(a), Some(b)) => b.saturating_sub(a),
        _ => 0,
    }
}

fn running_at(graph: &SchedGraph, schedule: &Schedule, c: SpanClass, t: usize) -> (r: usize)
    ensures
        r == running(*graph, schedule.timed_nodes@, c, t as int),
{
    let ts = &schedule.timed_nodes;
    let mut cnt: usize = 0;
    let mut k: usize = 0;
    while k < ts.len()
        invariant
            k <= ts@.len(),
            cnt == running(*graph, ts@.take(k as int), c, t as int),
            cnt <= k,
        decreases ts@.len() - k,
    {
        proof {
            assert(ts@.take(k + 1).drop_last() =~= ts@.take(k as int));
        }
        let e = ts[k];
        if e.start_cycle <= t && t < e.finish_cycle && e.id < graph.nodes.len() && class_has(
            &graph.nodes[e.id].node_type,
            c,
        ) {
            cnt = cnt + 1;
        }
        k = k + 1;
    }
    proof {
        assert(ts@.take(ts@.len() as int) =~= ts@);
    }
    cnt
}

fn max_active_by_class(graph: &SchedGraph, schedule: &Schedule, c: SpanClass) -> (r: usize)
    requires
        schedule.total_cycles < usize::MAX,
    ensures
        r == most_running(*graph, schedule.timed_nodes@, c, schedule.total_cycles + 1),
{
    let mut best: usize = 0;
    let mut t: usize = 0;
    while t <= schedule.total_cycles
        invariant
            schedule.total_cycles < usize::MAX,
            t <= schedule.total_cycles + 1,
            best == most_running(*graph, schedule.timed_nodes@, c, t as int),
        decreases schedule.total_cycles + 1 - t,
    {
        let r = running_at(graph, schedule, c, t);
        if r > best {
            best = r;
        }
        t = t + 1;
    }
    best
}


/// What `report_from_schedule` needs: statistics whose counts are consistent
/// (no more distinct scalars than distinct parameters, no more scalar kernels
/// than general ones), and costs that fit in a `usize`.
pub open spec fn report_fits(bm: BlockMat, st: StructStats, p: SchedParams, s: Schedule) -> bool {
    &&& st.n_scale_u <= st.n_unique
    &&& st.n_scale <= st.n_gen
    &&& load_scalars(st) <= usize::MAX
    &&& p.core_slots * p.bw_params <= usize::MAX
    &&& bm.rows * 2 <= usize::MAX
    &&& bm.rows * bm.cols * 4 <= usize::MAX
    &&& total_upper(bm, st, p) <= usize::MAX
    &&& hidden_load(st, p) <= usize::MAX
    &&& flat_total(bm, p) <= usize::MAX
    &&& s.total_cycles < usize::MAX
}

proof fn lemma_ceil_div_le(a: nat, b: nat)
    ensures
        spec_ceil_div(a, b) <= a,
{
    if b > 0 {
        assert((a + b - 1) / (b as int) <= a) by (nonlinear_arith)
            requires
                b > 0,
        ;
    }
}

/// The number of entries above one and their largest latency under `model`.
fn above_one(cs: &Vec<usize>, model: &LatencyModel) -> (r: (usize, usize))
    ensures
        r.0 == count_above_one(cs@),
        r.1 == max_lat_above_one(*model, cs@),
{
    let mut cnt: usize = 0;
    let mut mx: usize = 0;
    let mut k: usize = 0;
    while k < cs.len()
        invariant
            k <= cs@.len(),
            cnt == count_above_one(cs@.take(k as int)),
            mx == max_lat_above_one(*model, cs@.take(k as int)),
            cnt <= k,
        decreases cs@.len() - k,
    {
        proof {
            assert(cs@.take(k + 1).drop_last() =~= cs@.take(k as int));
        }
        if cs[k] > 1 {
            cnt = cnt + 1;
            let l = latency(model, cs[k]);
            if l > mx {
                mx = l;
            }
        }
        k = k + 1;
    }
    proof {
        assert(cs@.take(cs@.len() as int) =~= cs@);
    }
    (cnt, mx)
}

/// Builds the cost report of `bm` from its statistics, graph, schedule and
/// simulation: every analytic field is its formula, every scheduled span
/// and activity peak is measured on the schedule's entries, and the buffer
/// figures are those of the simulation.
pub fn report_from_schedule(
    bm: &BlockMat,
    stats: &StructStats,
    graph: &SchedGraph,
    schedule: &Schedule,
    sim_result: &SimResult,
    params: &SchedParams,
) -> (r: CostReport)
    requires
        report_fits(*bm, *stats, *params, *schedule),
    ensures
        r.n_nz == stats.n_nz,
        r.n_gen == stats.n_gen,
        r.n_scale == stats.n_scale,
        r.n_unique == stats.n_unique,
        r.n_scale_u == stats.n_scale_u,
        r.bcast_cols == count_above_one(stats.col_counts@),
        r.reduce_rows == count_above_one(stats.row_counts@),
        r.dead_cols == stats.dead_cols,
        r.dead_rows == stats.dead_rows,
        r.single_rows == stats.single_rows,
        r.is_permutation == stats.is_permutation,
        r.analytic_load_cycles == c_load(*stats, *params),
        r.analytic_load_eff_cycles == c_load_eff(*stats, *params),
        r.analytic_exec_cycles == c_exec(*stats, *params),
        params.core_slots > 0 ==> r.analytic_exec_cycles == (stats.n_gen - stats.n_scale + params.core_slots - 1)
            / (params.core_slots as int) * params.core_latency + (stats.n_scale + params.core_slots - 1) / (
        params.core_slots as int) * params.scale_latency,
        params.core_slots == 0 ==> r.analytic_exec_cycles == 0,
        params.core_slots * params.bw_params > 0 ==> r.analytic_load_cycles == ((stats.n_unique - stats.n_scale_u)
            * 4 + stats.n_scale_u + params.core_slots * params.bw_params - 1) / (params.core_slots * params.bw_params) as int,
        params.bw_writeback > 0 ==> r.analytic_wb_cycles == (bm.rows * 2 + params.bw_writeback - 1) / (
        params.bw_writeback as int),
        r.analytic_bcast_cycles == c_bcast(*stats, *params),
        r.analytic_reduce_cycles == c_reduce(*stats, *params),
        r.analytic_wb_cycles == c_wb(*bm, *params),
        r.analytic_total_upper == total_upper(*bm, *stats, *params),
        r.analytic_total_eff == total_eff(*bm, *stats, *params),
        r.sched_exec_span_cycles == span_of(*graph, schedule.timed_nodes@, SpanClass::Exec),
        r.sched_load_span_cycles == span_of(*graph, schedule.timed_nodes@, SpanClass::Load),
        r.sched_bcast_span_cycles == span_of(*graph, schedule.timed_nodes@, SpanClass::Bcast),
        r.sched_reduce_span_cycles == span_of(*graph, schedule.timed_nodes@, SpanClass::Reduce),
        r.sched_writeback_span_cycles == span_of(*graph, schedule.timed_nodes@, SpanClass::WriteBack),
        r.sched_total_cycles == schedule.total_cycles,
        r.peak_input_buffer_blocks == sim_result.peak_input_buffer_blocks,
        r.peak_temp_buffer_blocks == sim_result.peak_temp_buffer,
        r.output_buffer_blocks == sim_result.output_buffer_blocks,
        r.peak_output_buffer_blocks == sim_result.peak_output_buffer_blocks,
        r.max_active_core == most_running(*graph, schedule.timed_nodes@, SpanClass::Exec, schedule.total_cycles + 1),
        r.max_active_bcast == most_running(*graph, schedule.timed_nodes@, SpanClass::Bcast, schedule.total_cycles + 1),
        r.max_active_reduce == most_running(*graph, schedule.timed_nodes@, SpanClass::Reduce, schedule.total_cycles + 1),
        r.flat_total == flat_total(*bm, *params),
{
    let n = bm.rows;
    let m = bm.cols;
    let p = params;
    // C_load
    let load_num = (stats.n_unique - stats.n_scale_u) * 4 + stats.n_scale_u;
    let load_den = p.core_slots * p.bw_params;
    let cl = ceil_div(load_num, load_den);
    // C_exec
    let general_count = stats.n_gen - stats.n_scale;
    let gb = ceil_div(general_count, p.core_slots);
    let sb = ceil_div(stats.n_scale, p.core_slots);
    proof {
        lemma_ceil_div_le(general_count as nat, p.core_slots as nat);
        lemma_ceil_div_le(stats.n_scale as nat, p.core_slots as nat);
    }
    let ce = gb * p.core_latency + sb * p.scale_latency;
    proof {
        if p.core_slots > 0 {
            lemma_exec_cost(*stats, *p);
        }
    }
    // C_bcast
    let (bcast_cols, max_bcast_lat) = above_one(&stats.col_counts, &p.bcast_model);
    let cb = ceil_div(bcast_cols, p.bcast_ports) * max_bcast_lat;
    // C_reduce
    let (reduce_rows, max_reduce_lat) = above_one(&stats.row_counts, &p.reduce_model);
    let cr = ceil_div(reduce_rows, p.reduce_ports) * max_reduce_lat;
    // C_wb
    let cw = ceil_div(n * 2, p.bw_writeback);
    // C_load_eff
    let cle = if stats.n_gen == 0 {
        0
    } else {
        let nb = gb + sb;
        let hiding = if nb > 1 {
            (nb - 1) * p.scale_latency
        } else {
            0
        };
        cl.saturating_sub(hiding)
    };
    let total_up = cl + ce + cb + cr + cw;
    let total_ef = cle + ce + cb + cr + cw;
    // flattened route
    let nm = n * m;
    proof {
        assert(nm * 4 == n * m * 4);
        lemma_ceil_div_le((nm * 4) as nat, load_den as nat);
    }
    let flat_load = ceil_div(nm * 4, load_den);
    let flat_exec = ceil_div(nm, p.core_slots) * p.core_latency;
    let flat_bcast = ceil_div(m, p.bcast_ports) * latency(&p.bcast_model, n);
    let flat_reduce = ceil_div(n, p.reduce_ports) * latency(&p.reduce_model, m);
    let flat_wb = ceil_div(n * 2, p.bw_writeback);
    let flat = flat_load + flat_exec + flat_bcast + flat_reduce + flat_wb;
    CostReport {
        n_nz: stats.n_nz,
        n_gen: stats.n_gen,
        n_scale: stats.n_scale,
        n_unique: stats.n_unique,
        n_scale_u: stats.n_scale_u,
        bcast_cols,
        reduce_rows,
        dead_cols: stats.dead_cols,
        dead_rows: stats.dead_rows,
        single_rows: stats.single_rows,
        is_permutation: stats.is_permutation,
        analytic_load_cycles: cl,
        analytic_load_eff_cycles: cle,
        analytic_exec_cycles: ce,
        analytic_bcast_cycles: cb,
        analytic_reduce_cycles: cr,
        analytic_wb_cycles: cw,
        analytic_total_upper: total_up,
        analytic_total_eff: total_ef,
        sched_exec_span_cycles: class_span(graph, schedule, SpanClass::Exec),
        sched_load_span_cycles: class_span(graph, schedule, SpanClass::Load),
        sched_bcast_span_cycles: class_span(graph, schedule, SpanClass::Bcast),
        sched_reduce_span_cycles: class_span(graph, schedule, SpanClass::Reduce),
        sched_writeback_span_cycles: class_span(graph, schedule, SpanClass::WriteBack),
        sched_total_cycles: schedule.total_cycles,
        peak_input_buffer_blocks: sim_result.peak_input_buffer_blocks,
        peak_temp_buffer_blocks: sim_result.peak_temp_buffer,
        output_buffer_blocks: sim_result.output_buffer_blocks,
        peak_output_buffer_blocks: sim_result.peak_output_buffer_blocks,
        max_active_core: max_active_by_class(graph, schedule, SpanClass::Exec),
        max_active_bcast: max_active_by_class(graph, schedule, SpanClass::Bcast),
        max_active_reduce: max_active_by_class(graph, schedule, SpanClass::Reduce),
        flat_total: flat,
    }
}


/// Double buffering never makes the analytic total worse: the effective
/// total is at most the upper bound.
pub proof fn lemma_effective_total_at_most_upper(bm: BlockMat, st: StructStats, p: SchedParams)
    ensures
        c_load_eff(st, p) <= c_load(st, p),
        total_eff(bm, st, p) <= total_upper(bm, st, p),
{
}

/// A matrix without general kernels costs no execution cycles.
pub proof fn lemma_no_kernels_no_exec_cost(st: StructStats, p: SchedParams)
    requires
        st.n_gen == 0,
        st.n_scale <= st.n_gen,
    ensures
        c_exec(st, p) == 0,
        c_load_eff(st, p) == 0,
{
    let b = p.core_slots as int;
    if b > 0 {
        assert((0 + b - 1) / b == 0) by (nonlinear_arith)
            requires
                b > 0,
        ;
    }
    assert(general_batches(st, p) == 0);
    assert(scale_batches(st, p) == 0);
    let x = general_batches(st, p);
    let y = scale_batches(st, p);
    assert(x * (p.core_latency as nat) + y * (p.scale_latency as nat) == 0) by (nonlinear_arith)
        requires
            x == 0,
            y == 0,
    ;
}


/// The execution cost prices each batch of up to `core_slots` general
/// kernels at `core_latency` and each batch of scalar kernels at
/// `scale_latency`: `C_exec = ceil((N_gen - N_scale) / P) * L_core +
/// ceil(N_scale / P) * L_scale`.
pub proof fn lemma_exec_cost(st: StructStats, p: SchedParams)
    requires
        st.n_scale <= st.n_gen,
        p.core_slots > 0,
    ensures
        c_exec(st, p) == (st.n_gen - st.n_scale + p.core_slots - 1) / (p.core_slots as int) * p.core_latency + (
        st.n_scale + p.core_slots - 1) / (p.core_slots as int) * p.scale_latency,
{
    let b = p.core_slots as int;
    assert((st.n_gen - st.n_scale + b - 1) / b >= 0) by (nonlinear_arith)
        requires
            b > 0,
            st.n_gen - st.n_scale >= 0,
    ;
    assert((st.n_scale + b - 1) / b >= 0) by (nonlinear_arith)
        requires
            b > 0,
            st.n_scale >= 0,
    ;
}

/// Adding `core_slots` general kernels adds one batch, `core_latency`
/// cycles, to the execution cost; adding `core_slots` scalar kernels adds
/// `scale_latency` cycles.
pub proof fn lemma_exec_cost_per_batch(st: StructStats, st2: StructStats, p: SchedParams)
    requires
        st.n_scale <= st.n_gen,
        p.core_slots > 0,
        st2.n_scale == st.n_scale || st2.n_scale == st.n_scale + p.core_slots,
        st2.n_gen == st.n_gen + p.core_slots,
    ensures
        st2.n_scale == st.n_scale ==> c_exec(st2, p) == c_exec(st, p) + p.core_latency,
        st2.n_scale == st.n_scale + p.core_slots ==> c_exec(st2, p) == c_exec(st, p) + p.scale_latency,
{
    let b = p.core_slots as int;
    lemma_exec_cost(st, p);
    lemma_exec_cost(st2, p);
    let x = st.n_gen - st.n_scale;
    let y = st.n_scale as int;
    assert((x + b + b - 1) / b == (x + b - 1) / b + 1) by (nonlinear_arith)
        requires
            b > 0,
            x >= 0,
    ;
    assert((y + b + b - 1) / b == (y + b - 1) / b + 1) by (nonlinear_arith)
        requires
            b > 0,
            y >= 0,
    ;
    if st2.n_scale == st.n_scale {
        assert(st2.n_gen - st2.n_scale == x + b);
        assert(((x + b - 1) / b + 1) * p.core_latency == (x + b - 1) / b * p.core_latency + p.core_latency) by (nonlinear_arith);
    } else {
        assert(st2.n_gen - st2.n_scale == x);
        assert(((y + b - 1) / b + 1) * p.scale_latency == (y + b - 1) / b * p.scale_latency + p.scale_latency) by (nonlinear_arith);
    }
}

} // verus!
