//! Simulation of a schedule: in which order nodes complete, which buffer each
//! node reads, which temporary buffers are filled and freed, and how full the
//! input, temporary and output buffers are, cycle by cycle.
//!
//! The arithmetic on block values is not done here: the simulation returns
//! the data-flow steps in the order they happen, and the numeric layer
//! carries them out.
use vstd::prelude::*;
use crate::lower::{ExecKernelRef, NodeId, NodeType, SchedGraph, SchedNode};
use crate::schedule::{timed_ids, SchedParams, Schedule, TimedNode};

verus! {

/// Buffer addresses below this bound name input blocks.
pub const INPUT_SPACE: usize = 10000;

/// Whether a buffer address names an input block.
pub open spec fn spec_is_input_addr(addr: usize) -> bool {
    addr < INPUT_SPACE
}

/// Whether a buffer address names an input block.
pub fn is_input_addr(addr: usize) -> (r: bool)
    ensures
        r == spec_is_input_addr(addr),
{
    addr < INPUT_SPACE
}

// ------------------------------------------------------------------
// Machine state
// ------------------------------------------------------------------
/// State of one execution slot or port.
#[derive(Debug, Clone, Copy)]
pub enum SlotState {
    Idle,
    Busy { node: NodeId, until: usize },
}

/// Machine state; internal buffers are counted in blocks.
#[derive(Debug, Clone)]
pub struct MachineState {
    pub cycle: usize,
    pub core_slots: Vec<SlotState>,
    pub bcast_ports: Vec<SlotState>,
    pub reduce_ports: Vec<SlotState>,
    /// Input buffer occupancy (blocks).
    pub input_buffer_occupancy: usize,
    /// Temporary buffer occupancy (blocks).
    pub temp_buffer_occupancy: usize,
    /// Output buffer occupancy (blocks).
    pub output_buffer_occupancy: usize,
    /// Peak temporary buffer occupancy (blocks).
    pub peak_temp_buffer: usize,
}

/// `n` idle slots.
fn idle_slots(n: usize) -> (v: Vec<SlotState>)
    ensures
        v@.len() == n,
        forall|k: int| 0 <= k < n ==> #[trigger] v@[k] is Idle,
{
    let mut v: Vec<SlotState> = Vec::new();
    let mut k: usize = 0;
    while k < n
        invariant
            k <= n,
            v@.len() == k,
            forall|q: int| 0 <= q < k ==> #[trigger] v@[q] is Idle,
        decreases n - k,
    {
        v.push(SlotState::Idle);
        k = k + 1;
    }
    v
}

impl MachineState {
    /// An idle machine with empty buffers and the slot counts of `params`.
    pub fn new(params: &SchedParams) -> (s: Self)
        ensures
            s.cycle == 0,
            s.core_slots@.len() == params.core_slots,
            s.bcast_ports@.len() == params.bcast_ports,
            s.reduce_ports@.len() == params.reduce_ports,
            forall|k: int| 0 <= k < s.core_slots@.len() ==> #[trigger] s.core_slots@[k] is Idle,
            forall|k: int| 0 <= k < s.bcast_ports@.len() ==> #[trigger] s.bcast_ports@[k] is Idle,
            forall|k: int| 0 <= k < s.reduce_ports@.len() ==> #[trigger] s.reduce_ports@[k] is Idle,
            s.input_buffer_occupancy == 0,
            s.temp_buffer_occupancy == 0,
            s.output_buffer_occupancy == 0,
            s.peak_temp_buffer == 0,
    {
        MachineState {
            cycle: 0,
            core_slots: idle_slots(params.core_slots),
            bcast_ports: idle_slots(params.bcast_ports),
            reduce_ports: idle_slots(params.reduce_ports),
            input_buffer_occupancy: 0,
            temp_buffer_occupancy: 0,
            output_buffer_occupancy: 0,
            peak_temp_buffer: 0,
        }
    }

    /// One more temporary block is held; the peak follows.
    pub fn track_temp_alloc(&mut self)
        requires
            old(self).temp_buffer_occupancy < usize::MAX,
        ensures
            final(self).temp_buffer_occupancy == old(self).temp_buffer_occupancy + 1,
            final(self).peak_temp_buffer == if final(self).temp_buffer_occupancy > old(
                self,
            ).peak_temp_buffer {
                final(self).temp_buffer_occupancy
            } else {
                old(self).peak_temp_buffer
            },
            final(self).cycle == old(self).cycle,
            final(self).core_slots == old(self).core_slots,
            final(self).bcast_ports == old(self).bcast_ports,
            final(self).reduce_ports == old(self).reduce_ports,
            final(self).input_buffer_occupancy == old(self).input_buffer_occupancy,
            final(self).output_buffer_occupancy == old(self).output_buffer_occupancy,
    {
        self.temp_buffer_occupancy = self.temp_buffer_occupancy + 1;
        if self.temp_buffer_occupancy > self.peak_temp_buffer {
            self.peak_temp_buffer = self.temp_buffer_occupancy;
        }
    }

    /// One temporary block fewer is held (never below zero).
    pub fn track_temp_free(&mut self)
        ensures
            final(self).temp_buffer_occupancy == if old(self).temp_buffer_occupancy > 0 {
                (old(self).temp_buffer_occupancy - 1) as usize
            } else {
                0
            },
            final(self).peak_temp_buffer == old(self).peak_temp_buffer,
            final(self).cycle == old(self).cycle,
            final(self).core_slots == old(self).core_slots,
            final(self).bcast_ports == old(self).bcast_ports,
            final(self).reduce_ports == old(self).reduce_ports,
            final(self).input_buffer_occupancy == old(self).input_buffer_occupancy,
            final(self).output_buffer_occupancy == old(self).output_buffer_occupancy,
    {
        self.temp_buffer_occupancy = self.temp_buffer_occupancy.saturating_sub(1);
    }
}


// ------------------------------------------------------------------
// Results
// ------------------------------------------------------------------
/// Where a step reads a block value from.
#[derive(Debug, Clone, Copy, PartialEq, Eq)]
pub enum DataSrc {
    /// The temporary buffer of a node.
    Temp(NodeId),
    /// An input block.
    Input(usize),
    /// A block of zeros.
    Zeros,
}

/// One data-flow step of the simulation.
#[derive(Debug, Clone, PartialEq)]
pub enum SimStep {
    /// Node `node` stores the block read from `src` in its temporary buffer.
    Store { node: NodeId, src: DataSrc },
    /// Node `node` applies `kernel` to the block read from `src` and stores
    /// the result in its temporary buffer.
    Apply { node: NodeId, kernel: ExecKernelRef, src: DataSrc },
    /// Output block `pos` receives the block read from `src`.
    Emit { pos: usize, src: DataSrc },
    /// Output block `pos` receives the sum, in order, of the temporary
    /// buffers of `terms`.
    Sum { pos: usize, terms: Vec<NodeId> },
}

/// A step, with its list of terms as a sequence.
pub enum StepView {
    Store { node: NodeId, src: DataSrc },
    Apply { node: NodeId, kernel: ExecKernelRef, src: DataSrc },
    Emit { pos: usize, src: DataSrc },
    Sum { pos: usize, terms: Seq<NodeId> },
}

impl View for SimStep {
    type V = StepView;

    open spec fn view(&self) -> StepView {
        match self {
            SimStep::Store { node, src } => StepView::Store { node: *node, src: *src },
            SimStep::Apply { node, kernel, src } => StepView::Apply { node: *node, kernel: *kernel, src: *src },
            SimStep::Emit { pos, src } => StepView::Emit { pos: *pos, src: *src },
            SimStep::Sum { pos, terms } => StepView::Sum { pos: *pos, terms: terms@ },
        }
    }
}

/// The state at the end of one cycle.
#[derive(Debug, Clone)]
pub struct CycleSnapshot {
    pub cycle: usize,
    /// Nodes running during the cycle (issued at or before it, finishing
    /// after it), by increasing id.
    pub active_nodes: Vec<NodeId>,
    pub input_buffer_occupancy: usize,
    /// Temporary buffer occupancy after every completion and release of the cycle.
    pub end_of_cycle_occupancy: usize,
    /// Highest temporary buffer occupancy seen at any moment of the cycle.
    pub instant_peak_occupancy: usize,
    pub output_buffer_occupancy: usize,
}

/// A snapshot, with its node list as a sequence.
pub struct SnapView {
    pub cycle: nat,
    pub active_nodes: Seq<NodeId>,
    pub input_buffer_occupancy: nat,
    pub end_of_cycle_occupancy: nat,
    pub instant_peak_occupancy: nat,
    pub output_buffer_occupancy: nat,
}

impl View for CycleSnapshot {
    type V = SnapView;

    open spec fn view(&self) -> SnapView {
        SnapView {
            cycle: self.cycle as nat,
            active_nodes: self.active_nodes@,
            input_buffer_occupancy: self.input_buffer_occupancy as nat,
            end_of_cycle_occupancy: self.end_of_cycle_occupancy as nat,
            instant_peak_occupancy: self.instant_peak_occupancy as nat,
            output_buffer_occupancy: self.output_buffer_occupancy as nat,
        }
    }
}

/// What a simulation produces, besides the numeric values.
#[derive(Debug, Clone)]
pub struct SimResult {
    /// Peak temporary buffer occupancy (blocks).
    pub peak_temp_buffer: usize,
    /// One snapshot per cycle, from cycle 0 to the last cycle.
    pub per_cycle_trace: Vec<CycleSnapshot>,
    /// Peak input buffer occupancy (blocks).
    pub peak_input_buffer_blocks: usize,
    /// Output buffer occupancy at the end (blocks).
    pub output_buffer_blocks: usize,
    /// Peak output buffer occupancy (blocks).
    pub peak_output_buffer_blocks: usize,
    /// The data-flow steps, in the order they happen.
    pub steps: Vec<SimStep>,
}

// ------------------------------------------------------------------
// The model of a simulation
// ------------------------------------------------------------------
/// Buffer bookkeeping of a simulation in progress.
pub struct SimModel {
    /// Node `u` holds a temporary buffer.
    pub held: Seq<bool>,
    /// Dependency entries naming node `u` whose node has not completed yet.
    pub remaining: Seq<nat>,
    /// Readers of input address `a` that have not completed yet.
    pub in_left: Seq<nat>,
    /// Input address `a` has counted readers.
    pub in_tracked: Seq<bool>,
    pub temp: nat,
    pub peak_temp: nat,
    /// Highest temporary occupancy in the current cycle.
    pub cycle_peak: nat,
    pub cur_in: nat,
    pub peak_in: nat,
    pub cur_out: nat,
    pub peak_out: nat,
}

pub open spec fn sat_dec(x: nat) -> nat {
    if x > 0 {
        (x - 1) as nat
    } else {
        0
    }
}

pub open spec fn max_nat(a: nat, b: nat) -> nat {
    if a >= b {
        a
    } else {
        b
    }
}

/// The input address a node reads, when its first input slot names one.
pub open spec fn input_slot(nd: SchedNode) -> Option<usize> {
    if nd.input_slots@.len() > 0 && spec_is_input_addr(nd.input_slots@[0]) {
        Some(nd.input_slots@[0])
    } else {
        None
    }
}

/// Number of occurrences of `d` in `s`.
pub open spec fn occurrences(s: Seq<NodeId>, d: NodeId) -> nat
    decreases s.len(),
{
    if s.len() == 0 {
        0
    } else {
        occurrences(s.drop_last(), d) + if s.last() == d {
            1nat
        } else {
            0nat
        }
    }
}

/// Number of dependency entries naming `d` among the nodes below `v`.
pub open spec fn uses_upto(g: SchedGraph, d: NodeId, v: int) -> nat
    decreases v,
{
    if v <= 0 {
        0
    } else {
        uses_upto(g, d, v - 1) + occurrences(g.deps_of(v - 1), d)
    }
}

/// Number of dependency entries naming `d`: how many completions consume its result.
pub open spec fn uses(g: SchedGraph, d: NodeId) -> nat {
    uses_upto(g, d, g.nodes@.len() as int)
}

/// Number of dependency entries among the nodes below `v`.
pub open spec fn dep_entries_upto(g: SchedGraph, v: int) -> nat
    decreases v,
{
    if v <= 0 {
        0
    } else {
        dep_entries_upto(g, v - 1) + g.deps_of(v - 1).len()
    }
}

/// Node `nd` counts as a reader of input address `a`: it reads `a` first,
/// and it is a broadcast or has no dependency.
pub open spec fn reads_block(nd: SchedNode, a: usize) -> bool {
    input_slot(nd) == Some(a) && (nd.node_type is Broadcast || nd.deps@.len() == 0)
}

/// Number of readers of input address `a` among the nodes below `v`.
pub open spec fn readers_upto(g: SchedGraph, a: usize, v: int) -> nat
    decreases v,
{
    if v <= 0 {
        0
    } else {
        readers_upto(g, a, v - 1) + if reads_block(g.nodes@[v - 1], a) {
            1nat
        } else {
            0nat
        }
    }
}

pub open spec fn readers(g: SchedGraph, a: usize) -> nat {
    readers_upto(g, a, g.nodes@.len() as int)
}

/// Some node reads input address `a` first.
pub open spec fn names_input(g: SchedGraph, a: int) -> bool {
    exists|v: int| 0 <= v < g.nodes@.len() && input_slot(#[trigger] g.nodes@[v]) == Some(a as usize)
}

/// Number of input addresses below `a` that some node reads first.
pub open spec fn live_before(g: SchedGraph, a: int) -> nat
    decreases a,
{
    if a <= 0 {
        0
    } else {
        live_before(g, a - 1) + if names_input(g, a - 1) {
            1nat
        } else {
            0nat
        }
    }
}

/// Number of input blocks that some node reads first.
pub open spec fn live_inputs(g: SchedGraph) -> nat {
    live_before(g, INPUT_SPACE as int)
}

/// The bookkeeping before the first cycle.
pub open spec fn initial_model(g: SchedGraph) -> SimModel {
    SimModel {
        held: Seq::new(g.nodes@.len(), |u: int| false),
        remaining: Seq::new(g.nodes@.len(), |u: int| uses(g, u as NodeId)),
        in_left: Seq::new(INPUT_SPACE as nat, |a: int| readers(g, a as usize)),
        in_tracked: Seq::new(INPUT_SPACE as nat, |a: int| readers(g, a as usize) > 0),
        temp: 0,
        peak_temp: 0,
        cycle_peak: 0,
        cur_in: 0,
        peak_in: 0,
        cur_out: 0,
        peak_out: 0,
    }
}

/// The first dependency from position `k` on whose buffer is held.
pub open spec fn first_held(deps: Seq<NodeId>, held: Seq<bool>, k: int) -> Option<NodeId>
    decreases deps.len() - k,
{
    if k < 0 || k >= deps.len() {
        None
    } else if held[deps[k] as int] {
        Some(deps[k])
    } else {
        first_held(deps, held, k + 1)
    }
}

/// The dependencies whose buffer is held, in order.
pub open spec fn held_terms(deps: Seq<NodeId>, held: Seq<bool>) -> Seq<NodeId>
    decreases deps.len(),
{
    if deps.len() == 0 {
        Seq::empty()
    } else if held[deps.last() as int] {
        held_terms(deps.drop_last(), held).push(deps.last())
    } else {
        held_terms(deps.drop_last(), held)
    }
}

/// The first position from `k` on at which `outs` holds `u`.
pub open spec fn first_pos(outs: Seq<NodeId>, u: NodeId, k: int) -> Option<usize>
    decreases outs.len() - k,
{
    if k < 0 || k >= outs.len() {
        None
    } else if outs[k] == u {
        Some(k as usize)
    } else {
        first_pos(outs, u, k + 1)
    }
}

/// Where a node reads its block: the first held buffer among its
/// dependencies, else the input block its first slot names, else zeros.
pub open spec fn resolve(m: SimModel, nd: SchedNode, n_inputs: nat) -> DataSrc {
    if nd.input_slots@.len() == 0 {
        DataSrc::Zeros
    } else {
        match first_held(nd.deps@, m.held, 0) {
            Some(d) => DataSrc::Temp(d),
            None => if nd.input_slots@[0] < n_inputs {
                DataSrc::Input(nd.input_slots@[0])
            } else {
                DataSrc::Zeros
            },
        }
    }
}

/// Node `u` takes a temporary buffer (if it holds none yet).
pub open spec fn take_buffer(m: SimModel, u: NodeId) -> SimModel {
    if m.held[u as int] {
        m
    } else {
        let t = m.temp + 1;
        SimModel {
            held: m.held.update(u as int, true),
            temp: t,
            peak_temp: max_nat(m.peak_temp, t),
            cycle_peak: max_nat(m.cycle_peak, t),
            ..m
        }
    }
}

/// What completing node `u` produces, before its inputs are released.
pub open spec fn produce(m: SimModel, g: SchedGraph, n_inputs: nat, live: nat, u: NodeId) -> (SimModel, Option<StepView>) {
    let nd = g.nodes@[u as int];
    let outs = g.output_nodes@;
    match nd.node_type {
        NodeType::InputRead => (SimModel { cur_in: live, peak_in: max_nat(m.peak_in, live), ..m }, None),
        NodeType::ParamLoad => (m, None),
        NodeType::Broadcast => if nd.input_slots@.len() > 0 && nd.input_slots@[0] < n_inputs {
            (take_buffer(m, u), Some(StepView::Store { node: u, src: DataSrc::Input(nd.input_slots@[0]) }))
        } else {
            (m, None)
        },
        NodeType::Core(e) => (
            take_buffer(m, u),
            Some(StepView::Apply { node: u, kernel: e, src: resolve(m, nd, n_inputs) }),
        ),
        NodeType::Direct => match first_pos(outs, u, 0) {
            Some(p) => (m, Some(StepView::Emit { pos: p, src: resolve(m, nd, n_inputs) })),
            None => (take_buffer(m, u), Some(StepView::Store { node: u, src: resolve(m, nd, n_inputs) })),
        },
        NodeType::Reduce => match first_pos(outs, u, 0) {
            Some(p) => (m, Some(StepView::Sum { pos: p, terms: held_terms(nd.deps@, m.held) })),
            None => (m, None),
        },
        NodeType::ZeroFill => match first_pos(outs, u, 0) {
            Some(p) => (m, Some(StepView::Emit { pos: p, src: DataSrc::Zeros })),
            None => (m, None),
        },
        NodeType::WriteBack => (
            SimModel { cur_out: outs.len(), peak_out: max_nat(m.peak_out, outs.len()), ..m },
            None,
        ),
    }
}

/// One dependency entry naming `d` is consumed; the last one frees `d`'s buffer.
pub open spec fn retire_dep(m: SimModel, d: NodeId) -> SimModel {
    let left = sat_dec(m.remaining[d as int]);
    if left == 0 && m.held[d as int] {
        SimModel {
            remaining: m.remaining.update(d as int, left),
            held: m.held.update(d as int, false),
            temp: sat_dec(m.temp),
            ..m
        }
    } else {
        SimModel { remaining: m.remaining.update(d as int, left), ..m }
    }
}

/// The dependency entries of a node are consumed, in order.
pub open spec fn retire_deps(m: SimModel, deps: Seq<NodeId>) -> SimModel
    decreases deps.len(),
{
    if deps.len() == 0 {
        m
    } else {
        retire_dep(retire_deps(m, deps.drop_last()), deps.last())
    }
}

/// A reader of an input block completes; the last one frees the block.
pub open spec fn retire_block(m: SimModel, nd: SchedNode) -> SimModel {
    match input_slot(nd) {
        Some(a) => if m.in_tracked[a as int] {
            let left = sat_dec(m.in_left[a as int]);
            SimModel {
                in_left: m.in_left.update(a as int, left),
                cur_in: if left == 0 {
                    sat_dec(m.cur_in)
                } else {
                    m.cur_in
                },
                ..m
            }
        } else {
            m
        },
        None => m,
    }
}

/// Node `u` completes: what it produces, then the release of its inputs.
pub open spec fn node_effect(m: SimModel, g: SchedGraph, n_inputs: nat, live: nat, u: NodeId) -> (SimModel, Option<StepView>) {
    let (m1, step) = produce(m, g, n_inputs, live, u);
    (retire_block(retire_deps(m1, g.deps_of(u as int)), g.nodes@[u as int]), step)
}

/// The nodes of `order` complete one after the other.
pub open spec fn run_nodes(m: SimModel, g: SchedGraph, n_inputs: nat, live: nat, order: Seq<NodeId>) -> (SimModel, Seq<StepView>)
    decreases order.len(),
{
    if order.len() == 0 {
        (m, Seq::empty())
    } else {
        let (m1, steps) = run_nodes(m, g, n_inputs, live, order.drop_last());
        let (m2, step) = node_effect(m1, g, n_inputs, live, order.last());
        (m2, match step {
            Some(x) => steps.push(x),
            None => steps,
        })
    }
}

/// Node `v` has an entry that finishes at cycle `c`.
pub open spec fn finishes_at(ts: Seq<TimedNode>, v: NodeId, c: int) -> bool {
    exists|k: int| 0 <= k < ts.len() && (#[trigger] ts[k]).id == v && ts[k].finish_cycle == c
}

/// Number of entries of node `v` that finish at cycle `c`.
pub open spec fn finish_count(ts: Seq<TimedNode>, v: NodeId, c: int) -> nat
    decreases ts.len(),
{
    if ts.len() == 0 {
        0
    } else {
        finish_count(ts.drop_last(), v, c) + if ts.last().id == v && ts.last().finish_cycle == c {
            1nat
        } else {
            0nat
        }
    }
}

/// Number of entries of node `v` running at cycle `c`.
pub open spec fn active_count(ts: Seq<TimedNode>, v: NodeId, c: int) -> nat
    decreases ts.len(),
{
    if ts.len() == 0 {
        0
    } else {
        active_count(ts.drop_last(), v, c) + if ts.last().id == v && ts.last().start_cycle <= c
            && c < ts.last().finish_cycle {
            1nat
        } else {
            0nat
        }
    }
}

/// Position `p` of `topo` holds the last occurrence of its node.
pub open spec fn last_in_topo(topo: Seq<NodeId>, p: int) -> bool {
    forall|q: int| p < q < topo.len() ==> topo[q] != topo[p]
}

/// `k` copies of node `v`.
pub open spec fn copies(v: NodeId, k: nat) -> Seq<NodeId> {
    Seq::new(k, |i: int| v)
}

/// The completions at cycle `c` of the nodes among the first `p` positions
/// of the topological order: a node's entries finishing at `c` complete at
/// its last position, one completion per entry.
pub open spec fn topo_finishing(s: Schedule, c: int, p: int) -> Seq<NodeId>
    decreases p,
{
    if p <= 0 {
        Seq::empty()
    } else {
        let prev = topo_finishing(s, c, p - 1);
        let v = s.topo_order@[p - 1];
        if last_in_topo(s.topo_order@, p - 1) {
            prev + copies(v, finish_count(s.timed_nodes@, v, c))
        } else {
            prev
        }
    }
}

/// The nodes of the first `k` entries that finish at `c` and are missing
/// from the topological order.
pub open spec fn others_finishing(s: Schedule, c: int, k: int) -> Seq<NodeId>
    decreases k,
{
    if k <= 0 {
        Seq::empty()
    } else {
        let prev = others_finishing(s, c, k - 1);
        let e = s.timed_nodes@[k - 1];
        if e.finish_cycle == c && !s.topo_order@.contains(e.id) {
            prev.push(e.id)
        } else {
            prev
        }
    }
}

/// The completions at cycle `c`, in order: the entries finishing at `c`,
/// ordered by the last position of their node in the topological order,
/// those whose node is missing from it last, and otherwise in entry order.
pub open spec fn cycle_order(s: Schedule, c: int) -> Seq<NodeId> {
    topo_finishing(s, c, s.topo_order@.len() as int) + others_finishing(s, c, s.timed_nodes@.len() as int)
}

/// The nodes below `v` running at cycle `c`, by increasing id, each once
/// per entry running at `c`.
pub open spec fn active_upto(ts: Seq<TimedNode>, c: int, v: int) -> Seq<NodeId>
    decreases v,
{
    if v <= 0 {
        Seq::empty()
    } else {
        active_upto(ts, c, v - 1) + copies((v - 1) as NodeId, active_count(ts, (v - 1) as NodeId, c))
    }
}

/// The snapshot of cycle `c` with bookkeeping `m`.
pub open spec fn snap_of(m: SimModel, g: SchedGraph, s: Schedule, c: nat) -> SnapView {
    SnapView {
        cycle: c,
        active_nodes: active_upto(s.timed_nodes@, c as int, g.nodes@.len() as int),
        input_buffer_occupancy: m.cur_in,
        end_of_cycle_occupancy: m.temp,
        instant_peak_occupancy: m.cycle_peak,
        output_buffer_occupancy: m.cur_out,
    }
}

/// The bookkeeping, snapshots and steps after the first `c` cycles.
pub open spec fn run_cycles(g: SchedGraph, s: Schedule, n_inputs: nat, c: nat) -> (SimModel, Seq<SnapView>, Seq<StepView>)
    decreases c,
{
    if c == 0 {
        (initial_model(g), Seq::empty(), Seq::empty())
    } else {
        let (m, snaps, steps) = run_cycles(g, s, n_inputs, (c - 1) as nat);
        let m0 = SimModel { cycle_peak: m.temp, ..m };
        let (m1, st) = run_nodes(m0, g, n_inputs, live_inputs(g), cycle_order(s, c - 1));
        (m1, snaps.push(snap_of(m1, g, s, (c - 1) as nat)), steps + st)
    }
}


/// The steps as views.
pub open spec fn step_views(s: Seq<SimStep>) -> Seq<StepView> {
    s.map_values(|x: SimStep| x@)
}

/// The snapshots as views.
pub open spec fn snap_views(s: Seq<CycleSnapshot>) -> Seq<SnapView> {
    s.map_values(|x: CycleSnapshot| x@)
}

/// The step, if any, as a sequence of at most one element.
pub open spec fn opt_step(st: Option<StepView>) -> Seq<StepView> {
    match st {
        Some(x) => seq![x],
        None => Seq::empty(),
    }
}

/// Number of held buffers.
pub open spec fn count_held(s: Seq<bool>) -> nat
    decreases s.len(),
{
    if s.len() == 0 {
        0
    } else {
        count_held(s.drop_last()) + if s.last() {
            1nat
        } else {
            0nat
        }
    }
}

pub(crate) proof fn lemma_count_held_bound(s: Seq<bool>)
    ensures
        count_held(s) <= s.len(),
    decreases s.len(),
{
    if s.len() > 0 {
        lemma_count_held_bound(s.drop_last());
    }
}

pub(crate) proof fn lemma_count_held_update(s: Seq<bool>, i: int, b: bool)
    requires
        0 <= i < s.len(),
    ensures
        count_held(s.update(i, b)) + (if s[i] {
            1nat
        } else {
            0nat
        }) == count_held(s) + (if b {
            1nat
        } else {
            0nat
        }),
    decreases s.len(),
{
    let t = s.update(i, b);
    if i == s.len() - 1 {
        assert(t.drop_last() =~= s.drop_last());
    } else {
        assert(t.drop_last() =~= s.drop_last().update(i, b));
        lemma_count_held_update(s.drop_last(), i, b);
    }
}

pub(crate) proof fn lemma_count_held_none(n: nat)
    ensures
        count_held(Seq::new(n, |u: int| false)) == 0,
    decreases n,
{
    if n > 0 {
        assert(Seq::new(n, |u: int| false).drop_last() =~= Seq::new((n - 1) as nat, |u: int| false));
        lemma_count_held_none((n - 1) as nat);
    }
}

// ------------------------------------------------------------------
// Running the bookkeeping
// ------------------------------------------------------------------
/// The buffer bookkeeping of a running simulation.
struct Tracker {
    held: Vec<bool>,
    remaining: Vec<usize>,
    in_left: Vec<usize>,
    in_tracked: Vec<bool>,
    temp: usize,
    peak_temp: usize,
    cycle_peak: usize,
    cur_in: usize,
    peak_in: usize,
    cur_out: usize,
    peak_out: usize,
}

impl Tracker {
    spec fn model(&self) -> SimModel {
        SimModel {
            held: self.held@,
            remaining: self.remaining@.map_values(|x: usize| x as nat),
            in_left: self.in_left@.map_values(|x: usize| x as nat),
            in_tracked: self.in_tracked@,
            temp: self.temp as nat,
            peak_temp: self.peak_temp as nat,
            cycle_peak: self.cycle_peak as nat,
            cur_in: self.cur_in as nat,
            peak_in: self.peak_in as nat,
            cur_out: self.cur_out as nat,
            peak_out: self.peak_out as nat,
        }
    }

    spec fn inv(&self, n: nat) -> bool {
        &&& self.held@.len() == n
        &&& self.remaining@.len() == n
        &&& self.in_left@.len() == INPUT_SPACE
        &&& self.in_tracked@.len() == INPUT_SPACE
        &&& self.temp == count_held(self.held@)
        &&& n < usize::MAX
    }

    fn take_buffer(&mut self, u: NodeId)
        requires
            old(self).inv(old(self).held@.len()),
            u < old(self).held@.len(),
        ensures
            final(self).inv(old(self).held@.len()),
            final(self).model() == take_buffer(old(self).model(), u),
    {
        if !self.held[u] {
            proof {
                lemma_count_held_update(self.held@, u as int, true);
                lemma_count_held_bound(self.held@.update(u as int, true));
            }
            self.held.set(u, true);
            self.temp = self.temp + 1;
            if self.temp > self.peak_temp {
                self.peak_temp = self.temp;
            }
            if self.temp > self.cycle_peak {
                self.cycle_peak = self.temp;
            }
        }
    }

    fn retire_dep(&mut self, d: NodeId)
        requires
            old(self).inv(old(self).held@.len()),
            d < old(self).held@.len(),
        ensures
            final(self).inv(old(self).held@.len()),
            final(self).model() == retire_dep(old(self).model(), d),
    {
        let ghost m = self.model();
        let left = self.remaining[d].saturating_sub(1);
        self.remaining.set(d, left);
        if left == 0 && self.held[d] {
            proof {
                lemma_count_held_update(self.held@, d as int, false);
            }
            self.held.set(d, false);
            self.temp = self.temp.saturating_sub(1);
        }
        proof {
            assert(self.remaining@.map_values(|x: usize| x as nat) =~= m.remaining.update(d as int, sat_dec(m.remaining[d as int])));
        }
    }

    fn retire_input_block(&mut self, nd: &SchedNode)
        requires
            old(self).inv(old(self).held@.len()),
        ensures
            final(self).inv(old(self).held@.len()),
            final(self).model() == retire_block(old(self).model(), *nd),
    {
        let ghost m = self.model();
        if nd.input_slots.len() > 0 && is_input_addr(nd.input_slots[0]) {
            let a = nd.input_slots[0];
            if self.in_tracked[a] {
                let left = self.in_left[a].saturating_sub(1);
                self.in_left.set(a, left);
                if left == 0 {
                    self.cur_in = self.cur_in.saturating_sub(1);
                }
                proof {
                    assert(self.in_left@.map_values(|x: usize| x as nat) =~= m.in_left.update(a as int, sat_dec(m.in_left[a as int])));
                }
            }
        }
    }

    /// The first dependency whose buffer is held.
    fn first_held(&self, deps: &Vec<NodeId>) -> (r: Option<NodeId>)
        requires
            forall|k: int| 0 <= k < deps@.len() ==> #[trigger] deps@[k] < self.held@.len(),
        ensures
            r == first_held(deps@, self.held@, 0),
    {
        let mut k: usize = 0;
        while k < deps.len()
            invariant
                k <= deps@.len(),
                forall|q: int| 0 <= q < deps@.len() ==> #[trigger] deps@[q] < self.held@.len(),
                first_held(deps@, self.held@, 0) == first_held(deps@, self.held@, k as int),
            decreases deps@.len() - k,
        {
            if self.held[deps[k]] {
                return Some(deps[k]);
            }
            k = k + 1;
        }
        None
    }

    /// Where node `nd` reads its block.
    fn resolve(&self, nd: &SchedNode, n_inputs: usize) -> (r: DataSrc)
        requires
            forall|k: int| 0 <= k < nd.deps@.len() ==> #[trigger] nd.deps@[k] < self.held@.len(),
        ensures
            r == resolve(self.model(), *nd, n_inputs as nat),
    {
        if nd.input_slots.len() == 0 {
            DataSrc::Zeros
        } else {
            match self.first_held(&nd.deps) {
                Some(d) => DataSrc::Temp(d),
                None => if nd.input_slots[0] < n_inputs {
                    DataSrc::Input(nd.input_slots[0])
                } else {
                    DataSrc::Zeros
                },
            }
        }
    }

    /// The dependencies whose buffer is held, in order.
    fn held_terms(&self, deps: &Vec<NodeId>) -> (r: Vec<NodeId>)
        requires
            forall|k: int| 0 <= k < deps@.len() ==> #[trigger] deps@[k] < self.held@.len(),
        ensures
            r@ == held_terms(deps@, self.held@),
    {
        let mut r: Vec<NodeId> = Vec::new();
        let mut k: usize = 0;
        while k < deps.len()
            invariant
                k <= deps@.len(),
                forall|q: int| 0 <= q < deps@.len() ==> #[trigger] deps@[q] < self.held@.len(),
                r@ == held_terms(deps@.take(k as int), self.held@),
            decreases deps@.len() - k,
        {
            proof {
                assert(deps@.take(k + 1).drop_last() =~= deps@.take(k as int));
            }
            if self.held[deps[k]] {
                r.push(deps[k]);
            }
            k = k + 1;
        }
        proof {
            assert(deps@.take(deps@.len() as int) =~= deps@);
        }
        r
    }
}

/// The first position of `u` in `outs`.
fn output_position(outs: &Vec<NodeId>, u: NodeId) -> (r: Option<usize>)
    ensures
        r == first_pos(outs@, u, 0),
{
    let mut k: usize = 0;
    while k < outs.len()
        invariant
            k <= outs@.len(),
            first_pos(outs@, u, 0) == first_pos(outs@, u, k as int),
        decreases outs@.len() - k,
    {
        if outs[k] == u {
            return Some(k);
        }
        k = k + 1;
    }
    None
}

proof fn lemma_step_views_push(s: Seq<SimStep>, x: SimStep)
    ensures
        step_views(s.push(x)) == step_views(s).push(x@),
{
    assert(step_views(s.push(x)) =~= step_views(s).push(x@));
}

impl Tracker {
    /// Node `u` completes.
    fn complete(&mut self, g: &SchedGraph, u: NodeId, n_inputs: usize, live: usize, steps: &mut Vec<SimStep>)
        requires
            old(self).inv(g.nodes@.len() as nat),
            g.ids_ok(),
            u < g.nodes@.len(),
        ensures
            final(self).inv(g.nodes@.len() as nat),
            ({
                let (m2, st) = node_effect(old(self).model(), *g, n_inputs as nat, live as nat, u);
                &&& final(self).model() == m2
                &&& step_views(final(steps)@) == step_views(old(steps)@) + opt_step(st)
            }),
    {
        let ghost m = self.model();
        let ghost s0 = steps@;
        let n = g.nodes.len();
        let nd = &g.nodes[u];
        proof {
            assert forall|k: int| 0 <= k < nd.deps@.len() implies #[trigger] nd.deps@[k] < self.held@.len() by {
                assert(g.nodes@[u as int].deps@[k] < g.nodes@.len());
            }
        }
        match &nd.node_type {
            NodeType::InputRead => {
                self.cur_in = live;
                if live > self.peak_in {
                    self.peak_in = live;
                }
            },
            NodeType::ParamLoad => {},
            NodeType::Broadcast => {
                if nd.input_slots.len() > 0 && nd.input_slots[0] < n_inputs {
                    self.take_buffer(u);
                    let st = SimStep::Store { node: u, src: DataSrc::Input(nd.input_slots[0]) };
                    proof {
                        lemma_step_views_push(steps@, st);
                    }
                    steps.push(st);
                }
            },
            NodeType::Core(e) => {
                let src = self.resolve(nd, n_inputs);
                self.take_buffer(u);
                let st = SimStep::Apply { node: u, kernel: *e, src };
                proof {
                    lemma_step_views_push(steps@, st);
                }
                steps.push(st);
            },
            NodeType::Direct => {
                let src = self.resolve(nd, n_inputs);
                match output_position(&g.output_nodes, u) {
                    Some(p) => {
                        let st = SimStep::Emit { pos: p, src };
                        proof {
                            lemma_step_views_push(steps@, st);
                        }
                        steps.push(st);
                    },
                    None => {
                        self.take_buffer(u);
                        let st = SimStep::Store { node: u, src };
                        proof {
                            lemma_step_views_push(steps@, st);
                        }
                        steps.push(st);
                    },
                }
            },
            NodeType::Reduce => {
                match output_position(&g.output_nodes, u) {
                    Some(p) => {
                        let terms = self.held_terms(&nd.deps);
                        let st = SimStep::Sum { pos: p, terms };
                        proof {
                            lemma_step_views_push(steps@, st);
                        }
                        steps.push(st);
                    },
                    None => {},
                }
            },
            NodeType::ZeroFill => {
                match output_position(&g.output_nodes, u) {
                    Some(p) => {
                        let st = SimStep::Emit { pos: p, src: DataSrc::Zeros };
                        proof {
                            lemma_step_views_push(steps@, st);
                        }
                        steps.push(st);
                    },
                    None => {},
                }
            },
            NodeType::WriteBack => {
                let k = g.output_nodes.len();
                self.cur_out = k;
                if k > self.peak_out {
                    self.peak_out = k;
                }
            },
        }
        let ghost m1 = self.model();
        proof {
            let (pm, pst) = produce(m, *g, n_inputs as nat, live as nat, u);
            assert(m1 == pm);
            assert(step_views(steps@) =~= step_views(s0) + opt_step(pst));
        }
        let mut k: usize = 0;
        while k < nd.deps.len()
            invariant
                self.inv(n as nat),
                n == g.nodes@.len(),
                nd == &g.nodes@[u as int],
                k <= nd.deps@.len(),
                forall|q: int| 0 <= q < nd.deps@.len() ==> #[trigger] nd.deps@[q] < n,
                self.model() == retire_deps(m1, nd.deps@.take(k as int)),
            decreases nd.deps@.len() - k,
        {
            proof {
                assert(nd.deps@.take(k + 1).drop_last() =~= nd.deps@.take(k as int));
            }
            self.retire_dep(nd.deps[k]);
            k = k + 1;
        }
        proof {
            assert(nd.deps@.take(nd.deps@.len() as int) =~= nd.deps@);
        }
        self.retire_input_block(nd);
    }
}


/// Running `a` then `b` is running `a + b`.
pub(crate) proof fn lemma_run_nodes_concat(m: SimModel, g: SchedGraph, ni: nat, live: nat, a: Seq<NodeId>, b: Seq<NodeId>)
    ensures
        ({
            let (ma, sa) = run_nodes(m, g, ni, live, a);
            let (mb, sb) = run_nodes(ma, g, ni, live, b);
            run_nodes(m, g, ni, live, a + b) == (mb, sa + sb)
        }),
    decreases b.len(),
{
    if b.len() == 0 {
        assert(a + b =~= a);
        let (ma, sa) = run_nodes(m, g, ni, live, a);
        assert(sa + Seq::<StepView>::empty() =~= sa);
    } else {
        assert((a + b).drop_last() =~= a + b.drop_last());
        assert((a + b).last() == b.last());
        lemma_run_nodes_concat(m, g, ni, live, a, b.drop_last());
        let (ma, sa) = run_nodes(m, g, ni, live, a);
        let (mc, sc) = run_nodes(ma, g, ni, live, b.drop_last());
        let (md, step) = node_effect(mc, g, ni, live, b.last());
        lemma_run_nodes_push(m, g, ni, live, a + b.drop_last(), b.last());
        lemma_run_nodes_push(ma, g, ni, live, b.drop_last(), b.last());
        assert(b.drop_last().push(b.last()) =~= b);
        assert((a + b.drop_last()).push(b.last()) =~= a + b);
        assert(sa + sc + opt_step(step) =~= sa + (sc + opt_step(step)));
    }
}

impl Tracker {
    /// Node `u` completes `count` times in a row.
    fn complete_copies(
        &mut self,
        g: &SchedGraph,
        u: NodeId,
        count: usize,
        n_inputs: usize,
        live: usize,
        steps: &mut Vec<SimStep>,
    )
        requires
            old(self).inv(g.nodes@.len() as nat),
            g.ids_ok(),
            u < g.nodes@.len(),
        ensures
            final(self).inv(g.nodes@.len() as nat),
            ({
                let (m2, st) = run_nodes(old(self).model(), *g, n_inputs as nat, live as nat, copies(u, count as nat));
                &&& final(self).model() == m2
                &&& step_views(final(steps)@) == step_views(old(steps)@) + st
            }),
    {
        let ghost m0 = self.model();
        let ghost s0 = steps@;
        let ghost ni = n_inputs as nat;
        let ghost lv = live as nat;
        proof {
            assert(copies(u, 0) =~= Seq::<NodeId>::empty());
            assert(step_views(s0) + Seq::<StepView>::empty() =~= step_views(s0));
        }
        let mut i: usize = 0;
        while i < count
            invariant
                i <= count,
                self.inv(g.nodes@.len() as nat),
                g.ids_ok(),
                u < g.nodes@.len(),
                ni == n_inputs as nat,
                lv == live as nat,
                ({
                    let (mm, st) = run_nodes(m0, *g, ni, lv, copies(u, i as nat));
                    &&& self.model() == mm
                    &&& step_views(steps@) == step_views(s0) + st
                }),
            decreases count - i,
        {
            proof {
                lemma_run_nodes_push(m0, *g, ni, lv, copies(u, i as nat), u);
                assert(copies(u, i as nat).push(u) =~= copies(u, (i + 1) as nat));
            }
            let ghost sv = steps@;
            let ghost mv = self.model();
            self.complete(g, u, n_inputs, live, steps);
            proof {
                let (mm, st) = run_nodes(m0, *g, ni, lv, copies(u, i as nat));
                let (m2, step) = node_effect(mm, *g, ni, lv, u);
                assert(mv == mm);
                assert(step_views(steps@) == step_views(sv) + opt_step(step));
                assert(step_views(steps@) =~= step_views(s0) + (st + opt_step(step)));
            }
            i = i + 1;
        }
    }
}

// ------------------------------------------------------------------
// Setting up
// ------------------------------------------------------------------
proof fn lemma_occurrences_bound(s: Seq<NodeId>, d: NodeId)
    ensures
        occurrences(s, d) <= s.len(),
    decreases s.len(),
{
    if s.len() > 0 {
        lemma_occurrences_bound(s.drop_last(), d);
    }
}

proof fn lemma_uses_bound(g: SchedGraph, d: NodeId, v: int)
    ensures
        uses_upto(g, d, v) <= dep_entries_upto(g, v),
    decreases v,
{
    if v > 0 {
        lemma_uses_bound(g, d, v - 1);
        lemma_occurrences_bound(g.deps_of(v - 1), d);
    }
}

proof fn lemma_dep_entries_mono(g: SchedGraph, v: int, w: int)
    requires
        v <= w,
    ensures
        dep_entries_upto(g, v) <= dep_entries_upto(g, w),
    decreases w - v,
{
    if v < w {
        lemma_dep_entries_mono(g, v, w - 1);
    }
}

/// How many dependency entries name each node.
fn use_counts(g: &SchedGraph) -> (r: Vec<usize>)
    requires
        g.ids_ok(),
        dep_entries_upto(*g, g.nodes@.len() as int) <= usize::MAX,
    ensures
        r@.len() == g.nodes@.len(),
        forall|d: int| 0 <= d < g.nodes@.len() ==> #[trigger] r@[d] == uses(*g, d as NodeId),
{
    let n = g.nodes.len();
    let mut r: Vec<usize> = Vec::new();
    let mut i: usize = 0;
    while i < n
        invariant
            i <= n,
            n == g.nodes@.len(),
            r@.len() == i,
            forall|d: int| 0 <= d < i ==> #[trigger] r@[d] == 0,
        decreases n - i,
    {
        r.push(0);
        i = i + 1;
    }
    let mut v: usize = 0;
    while v < n
        invariant
            g.ids_ok(),
            n == g.nodes@.len(),
            dep_entries_upto(*g, n as int) <= usize::MAX,
            v <= n,
            r@.len() == n,
            forall|d: int| 0 <= d < n ==> #[trigger] r@[d] == uses_upto(*g, d as NodeId, v as int),
        decreases n - v,
    {
        let deps = &g.nodes[v].deps;
        proof {
            lemma_dep_entries_mono(*g, v + 1, n as int);
        }
        let mut k: usize = 0;
        while k < deps.len()
            invariant
                g.ids_ok(),
                n == g.nodes@.len(),
                v < n,
                deps == &g.nodes@[v as int].deps,
                dep_entries_upto(*g, v + 1) <= usize::MAX,
                k <= deps@.len(),
                r@.len() == n,
                forall|d: int| 0 <= d < n ==> #[trigger] r@[d] == uses_upto(*g, d as NodeId, v as int)
                    + occurrences(deps@.take(k as int), d as NodeId),
            decreases deps@.len() - k,
        {
            let d = deps[k];
            proof {
                assert(g.nodes@[v as int].deps@[k as int] < n);
                assert(deps@.take(k + 1).drop_last() =~= deps@.take(k as int));
                lemma_uses_bound(*g, d, v as int);
                lemma_occurrences_bound(deps@.take(k as int), d);
            }
            let c = r[d] + 1;
            r.set(d, c);
            k = k + 1;
        }
        proof {
            assert(deps@.take(deps@.len() as int) =~= deps@);
        }
        v = v + 1;
    }
    r
}

/// How many readers each input address has.
fn reader_counts(g: &SchedGraph) -> (r: Vec<usize>)
    ensures
        r@.len() == INPUT_SPACE,
        forall|a: int| 0 <= a < INPUT_SPACE ==> #[trigger] r@[a] == readers(*g, a as usize),
{
    let n = g.nodes.len();
    let mut r: Vec<usize> = Vec::new();
    let mut i: usize = 0;
    while i < INPUT_SPACE
        invariant
            i <= INPUT_SPACE,
            r@.len() == i,
            forall|a: int| 0 <= a < i ==> #[trigger] r@[a] == 0,
        decreases INPUT_SPACE - i,
    {
        r.push(0);
        i = i + 1;
    }
    let mut v: usize = 0;
    while v < n
        invariant
            n == g.nodes@.len(),
            v <= n,
            r@.len() == INPUT_SPACE,
            forall|a: int| 0 <= a < INPUT_SPACE ==> #[trigger] r@[a] == readers_upto(*g, a as usize, v as int),
            forall|a: int| 0 <= a < INPUT_SPACE ==> #[trigger] readers_upto(*g, a as usize, v as int) <= v,
        decreases n - v,
    {
        let nd = &g.nodes[v];
        if nd.input_slots.len() > 0 && is_input_addr(nd.input_slots[0]) {
            let is_bcast = match nd.node_type {
                NodeType::Broadcast => true,
                _ => false,
            };
            if is_bcast || nd.deps.len() == 0 {
                let a = nd.input_slots[0];
                let c = r[a] + 1;
                r.set(a, c);
            }
        }
        proof {
            assert forall|a: int| 0 <= a < INPUT_SPACE implies #[trigger] readers_upto(*g, a as usize, v + 1) <= v + 1 by {
                assert(readers_upto(*g, a as usize, v as int) <= v);
            }
        }
        v = v + 1;
    }
    r
}

/// Number of input addresses that some node reads first.
fn live_count(g: &SchedGraph) -> (r: usize)
    ensures
        r == live_inputs(*g),
        r <= INPUT_SPACE,
{
    let n = g.nodes.len();
    let mut mark: Vec<bool> = Vec::new();
    let mut i: usize = 0;
    while i < INPUT_SPACE
        invariant
            i <= INPUT_SPACE,
            mark@.len() == i,
            forall|a: int| 0 <= a < i ==> !#[trigger] mark@[a],
        decreases INPUT_SPACE - i,
    {
        mark.push(false);
        i = i + 1;
    }
    let mut v: usize = 0;
    while v < n
        invariant
            n == g.nodes@.len(),
            v <= n,
            mark@.len() == INPUT_SPACE,
            forall|a: int|
                0 <= a < INPUT_SPACE ==> (#[trigger] mark@[a] <==> exists|w: int|
                    0 <= w < v && input_slot(#[trigger] g.nodes@[w]) == Some(a as usize)),
        decreases n - v,
    {
        let nd = &g.nodes[v];
        if nd.input_slots.len() > 0 && is_input_addr(nd.input_slots[0]) {
            let a = nd.input_slots[0];
            mark.set(a, true);
        }
        proof {
            assert forall|a: int|
                0 <= a < INPUT_SPACE implies (#[trigger] mark@[a] <==> exists|w: int|
                    0 <= w < v + 1 && input_slot(#[trigger] g.nodes@[w]) == Some(a as usize)) by {
                if input_slot(g.nodes@[v as int]) == Some(a as usize) {
                    assert(mark@[a]);
                } else if mark@[a] {
                    let w = choose|w: int| 0 <= w < v && input_slot(#[trigger] g.nodes@[w]) == Some(a as usize);
                } else {
                    assert forall|w: int| 0 <= w < v + 1 implies input_slot(#[trigger] g.nodes@[w]) != Some(a as usize) by {
                    }
                }
            }
        }
        v = v + 1;
    }
    let mut c: usize = 0;
    let mut a: usize = 0;
    while a < INPUT_SPACE
        invariant
            n == g.nodes@.len(),
            a <= INPUT_SPACE,
            mark@.len() == INPUT_SPACE,
            forall|b: int| 0 <= b < INPUT_SPACE ==> (#[trigger] mark@[b] <==> names_input(*g, b)),
            c == live_before(*g, a as int),
            c <= a,
        decreases INPUT_SPACE - a,
    {
        if mark[a] {
            c = c + 1;
        }
        a = a + 1;
    }
    c
}

impl Tracker {
    /// The bookkeeping before the first cycle.
    fn start(g: &SchedGraph) -> (t: Self)
        requires
            g.ids_ok(),
            g.nodes@.len() < usize::MAX,
            dep_entries_upto(*g, g.nodes@.len() as int) <= usize::MAX,
        ensures
            t.inv(g.nodes@.len() as nat),
            t.model() == initial_model(*g),
    {
        let n = g.nodes.len();
        let mut held: Vec<bool> = Vec::new();
        let mut i: usize = 0;
        while i < n
            invariant
                i <= n,
                held@.len() == i,
                forall|u: int| 0 <= u < i ==> !#[trigger] held@[u],
            decreases n - i,
        {
            held.push(false);
            i = i + 1;
        }
        let remaining = use_counts(g);
        let in_left = reader_counts(g);
        let mut in_tracked: Vec<bool> = Vec::new();
        let mut a: usize = 0;
        while a < INPUT_SPACE
            invariant
                a <= INPUT_SPACE,
                in_left@.len() == INPUT_SPACE,
                in_tracked@.len() == a,
                forall|b: int| 0 <= b < a ==> #[trigger] in_tracked@[b] == (in_left@[b] > 0),
            decreases INPUT_SPACE - a,
        {
            in_tracked.push(in_left[a] > 0);
            a = a + 1;
        }
        let t = Tracker {
            held,
            remaining,
            in_left,
            in_tracked,
            temp: 0,
            peak_temp: 0,
            cycle_peak: 0,
            cur_in: 0,
            peak_in: 0,
            cur_out: 0,
            peak_out: 0,
        };
        proof {
            let m = initial_model(*g);
            assert(t.held@ =~= m.held);
            lemma_count_held_none(n as nat);
            assert(t.remaining@.map_values(|x: usize| x as nat) =~= m.remaining);
            assert(t.in_left@.map_values(|x: usize| x as nat) =~= m.in_left);
            assert(t.in_tracked@ =~= m.in_tracked);
        }
        t
    }
}


// ------------------------------------------------------------------
// The simulation
// ------------------------------------------------------------------
/// The highest instant peak of any snapshot (0 for none).
pub open spec fn max_instant_peak(snaps: Seq<SnapView>) -> nat
    decreases snaps.len(),
{
    if snaps.len() == 0 {
        0
    } else {
        max_nat(max_instant_peak(snaps.drop_last()), snaps.last().instant_peak_occupancy)
    }
}

/// What `simulate` needs: a graph whose dependencies name its nodes, a
/// schedule whose entries name nodes of the graph, and counts that fit in a
/// `usize`.
pub open spec fn sim_ready(g: SchedGraph, s: Schedule) -> bool {
    &&& g.ids_ok()
    &&& g.nodes@.len() < usize::MAX
    &&& dep_entries_upto(g, g.nodes@.len() as int) <= usize::MAX
    &&& forall|k: int| 0 <= k < s.timed_nodes@.len() ==> #[trigger] s.timed_nodes@[k].id < g.nodes@.len()
    &&& s.total_cycles < usize::MAX
}

/// Per node: whether the topological order holds it.
fn topo_marks(topo: &Vec<NodeId>, n: usize) -> (r: Vec<bool>)
    ensures
        r@.len() == n,
        forall|v: int| 0 <= v < n ==> (#[trigger] r@[v] <==> topo@.contains(v as NodeId)),
{
    let mut r: Vec<bool> = Vec::new();
    let mut i: usize = 0;
    while i < n
        invariant
            i <= n,
            r@.len() == i,
            forall|v: int| 0 <= v < i ==> !#[trigger] r@[v],
        decreases n - i,
    {
        r.push(false);
        i = i + 1;
    }
    let mut p: usize = 0;
    while p < topo.len()
        invariant
            p <= topo@.len(),
            r@.len() == n,
            forall|v: int| 0 <= v < n ==> (#[trigger] r@[v] <==> exists|q: int| 0 <= q < p && topo@[q] == v),
        decreases topo@.len() - p,
    {
        let v = topo[p];
        if v < n {
            r.set(v, true);
        }
        proof {
            assert forall|w: int| 0 <= w < n implies (#[trigger] r@[w] <==> exists|q: int| 0 <= q < p + 1 && topo@[q] == w) by {
                if w == v {
                    assert(topo@[p as int] == w);
                } else if r@[w] {
                    let q = choose|q: int| 0 <= q < p && topo@[q] == w;
                } else {
                    assert forall|q: int| 0 <= q < p + 1 implies topo@[q] != w by {
                    }
                }
            }
        }
        p = p + 1;
    }
    proof {
        assert forall|v: int| 0 <= v < n implies (#[trigger] r@[v] <==> topo@.contains(v as NodeId)) by {
            if r@[v] {
                let q = choose|q: int| 0 <= q < p && topo@[q] == v;
                assert(topo@[q] == v as NodeId);
            }
            if topo@.contains(v as NodeId) {
                let q = choose|q: int| 0 <= q < topo@.len() && topo@[q] == v as NodeId;
                assert(topo@[q] == v);
            }
        }
    }
    r
}

/// No entry names `v`: it finishes and runs at no cycle.
proof fn lemma_counts_absent(ts: Seq<TimedNode>, v: NodeId, c: int)
    requires
        forall|k: int| 0 <= k < ts.len() ==> (#[trigger] ts[k]).id != v,
    ensures
        finish_count(ts, v, c) == 0,
        active_count(ts, v, c) == 0,
    decreases ts.len(),
{
    if ts.len() > 0 {
        let t = ts.drop_last();
        assert forall|k: int| 0 <= k < t.len() implies (#[trigger] t[k]).id != v by {
            assert(t[k] == ts[k]);
        }
        lemma_counts_absent(t, v, c);
        assert(ts.last() == ts[ts.len() - 1]);
    }
}

/// When no two entries name the same node, a node finishes at cycle `c`
/// once or not at all.
pub(crate) proof fn lemma_finish_count_distinct(ts: Seq<TimedNode>, v: NodeId, c: int)
    requires
        timed_ids(ts).no_duplicates(),
    ensures
        finish_count(ts, v, c) == (if finishes_at(ts, v, c) {
            1nat
        } else {
            0nat
        }),
    decreases ts.len(),
{
    if ts.len() > 0 {
        let t = ts.drop_last();
        let last = ts.len() - 1;
        assert(timed_ids(t).no_duplicates()) by {
            assert forall|i: int, j: int| 0 <= i < t.len() && 0 <= j < t.len() && i != j implies timed_ids(t)[i]
                != timed_ids(t)[j] by {
                assert(timed_ids(t)[i] == timed_ids(ts)[i]);
                assert(timed_ids(t)[j] == timed_ids(ts)[j]);
            }
        }
        lemma_finish_count_distinct(t, v, c);
        let e = ts[last];
        assert(ts.last() == e);
        if e.id == v {
            assert forall|k: int| 0 <= k < t.len() implies (#[trigger] t[k]).id != v by {
                assert(t[k] == ts[k]);
                assert(timed_ids(ts)[k] == ts[k].id);
                assert(timed_ids(ts)[last] == e.id);
            }
            lemma_counts_absent(t, v, c);
            if finishes_at(ts, v, c) {
                let k = choose|k: int| 0 <= k < ts.len() && (#[trigger] ts[k]).id == v && ts[k].finish_cycle == c;
                if k < last {
                    assert(t[k] == ts[k]);
                }
            }
            if e.finish_cycle == c {
                assert(ts[last].id == v && ts[last].finish_cycle == c);
            }
        } else {
            if finishes_at(ts, v, c) {
                let k = choose|k: int| 0 <= k < ts.len() && (#[trigger] ts[k]).id == v && ts[k].finish_cycle == c;
                assert(k < last);
                assert(t[k] == ts[k]);
            }
            if finishes_at(t, v, c) {
                let k = choose|k: int| 0 <= k < t.len() && (#[trigger] t[k]).id == v && t[k].finish_cycle == c;
                assert(ts[k] == t[k]);
            }
        }
    }
}

/// When the topological order and the entries name each node at most once,
/// a position adds its node when that node finishes at cycle `c`.
pub(crate) proof fn lemma_topo_finishing_distinct(s: Schedule, c: int, p: int)
    requires
        s.topo_order@.no_duplicates(),
        timed_ids(s.timed_nodes@).no_duplicates(),
        0 < p <= s.topo_order@.len(),
    ensures
        topo_finishing(s, c, p) == (if finishes_at(s.timed_nodes@, s.topo_order@[p - 1], c) {
            topo_finishing(s, c, p - 1).push(s.topo_order@[p - 1])
        } else {
            topo_finishing(s, c, p - 1)
        }),
{
    let topo = s.topo_order@;
    let v = topo[p - 1];
    let prev = topo_finishing(s, c, p - 1);
    assert(last_in_topo(topo, p - 1));
    lemma_finish_count_distinct(s.timed_nodes@, v, c);
    if finishes_at(s.timed_nodes@, v, c) {
        assert(prev + copies(v, 1) =~= prev.push(v));
    } else {
        assert(prev + copies(v, 0) =~= prev);
    }
}

/// Per node: how many of its entries finish at cycle `c`, and how many run at it.
fn cycle_counts(ts: &Vec<TimedNode>, n: usize, c: usize) -> (r: (Vec<usize>, Vec<usize>))
    requires
        forall|k: int| 0 <= k < ts@.len() ==> #[trigger] ts@[k].id < n,
    ensures
        r.0@.len() == n,
        r.1@.len() == n,
        forall|v: int| 0 <= v < n ==> #[trigger] r.0@[v] == finish_count(ts@, v as NodeId, c as int),
        forall|v: int| 0 <= v < n ==> #[trigger] r.1@[v] == active_count(ts@, v as NodeId, c as int),
{
    let mut fc: Vec<usize> = Vec::new();
    let mut ac: Vec<usize> = Vec::new();
    let mut i: usize = 0;
    while i < n
        invariant
            i <= n,
            fc@.len() == i,
            ac@.len() == i,
            forall|v: int| 0 <= v < i ==> #[trigger] fc@[v] == 0,
            forall|v: int| 0 <= v < i ==> #[trigger] ac@[v] == 0,
        decreases n - i,
    {
        fc.push(0);
        ac.push(0);
        i = i + 1;
    }
    proof {
        let t0 = ts@.take(0);
        assert(t0.len() == 0);
        assert forall|v: int| 0 <= v < n implies #[trigger] ac@[v] == active_count(t0, v as NodeId, c as int) by {
            assert(ac@[v] == 0);
        }
        assert forall|v: int| 0 <= v < n implies #[trigger] fc@[v] == finish_count(t0, v as NodeId, c as int) by {
            assert(fc@[v] == 0);
        }
    }
    let mut k: usize = 0;
    while k < ts.len()
        invariant
            k <= ts@.len(),
            fc@.len() == n,
            ac@.len() == n,
            forall|q: int| 0 <= q < ts@.len() ==> #[trigger] ts@[q].id < n,
            forall|v: int| 0 <= v < n ==> #[trigger] fc@[v] == finish_count(ts@.take(k as int), v as NodeId, c as int),
            forall|v: int| 0 <= v < n ==> #[trigger] ac@[v] == active_count(ts@.take(k as int), v as NodeId, c as int),
            forall|v: int| 0 <= v < n ==> #[trigger] fc@[v] <= k,
            forall|v: int| 0 <= v < n ==> #[trigger] ac@[v] <= k,
        decreases ts@.len() - k,
    {
        let e = ts[k];
        let ghost t1 = ts@.take(k + 1);
        proof {
            assert(t1.drop_last() =~= ts@.take(k as int));
            assert(t1.last() == ts@[k as int]);
        }
        if e.finish_cycle == c {
            let x = fc[e.id];
            fc.set(e.id, x + 1);
        }
        if e.start_cycle <= c && c < e.finish_cycle {
            let x = ac[e.id];
            ac.set(e.id, x + 1);
        }
        k = k + 1;
    }
    proof {
        assert(ts@.take(ts@.len() as int) =~= ts@);
    }
    (fc, ac)
}

/// Per position of `topo` naming a node below `n`: whether it is that node's
/// last position.
fn last_marks(topo: &Vec<NodeId>, n: usize) -> (r: Vec<bool>)
    ensures
        r@.len() == topo@.len(),
        forall|p: int| 0 <= p < topo@.len() && topo@[p] < n ==> (#[trigger] r@[p] <==> last_in_topo(topo@, p)),
{
    let len = topo.len();
    let mut r: Vec<bool> = Vec::new();
    let mut i: usize = 0;
    while i < len
        invariant
            i <= len,
            len == topo@.len(),
            r@.len() == i,
        decreases len - i,
    {
        r.push(false);
        i = i + 1;
    }
    let mut seen: Vec<bool> = Vec::new();
    let mut i: usize = 0;
    while i < n
        invariant
            i <= n,
            seen@.len() == i,
            forall|v: int| 0 <= v < i ==> !#[trigger] seen@[v],
        decreases n - i,
    {
        seen.push(false);
        i = i + 1;
    }
    let mut i: usize = 0;
    while i < len
        invariant
            i <= len,
            len == topo@.len(),
            r@.len() == len,
            seen@.len() == n,
            forall|q: int| len - i <= q < len && topo@[q] < n ==> (#[trigger] r@[q] <==> last_in_topo(topo@, q)),
            forall|v: int| 0 <= v < n ==> (#[trigger] seen@[v] <==> exists|q: int| len - i <= q < len && topo@[q] == v),
        decreases len - i,
    {
        let p = len - 1 - i;
        let v = topo[p];
        if v < n {
            let was = seen[v];
            proof {
                if was {
                    let q = choose|q: int| len - i <= q < len && topo@[q] == v;
                    assert(!last_in_topo(topo@, p as int));
                } else {
                    assert forall|q: int| p < q < len implies topo@[q] != topo@[p as int] by {
                        if topo@[q] == v {
                            assert(seen@[v as int]);
                        }
                    }
                }
            }
            r.set(p, !was);
            seen.set(v, true);
        }
        proof {
            assert forall|w: int| 0 <= w < n implies (#[trigger] seen@[w] <==> exists|q: int| len - (i + 1) <= q < len && topo@[q] == w) by {
                if seen@[w] && w != v {
                    let q = choose|q: int| len - i <= q < len && topo@[q] == w;
                }
                if exists|q: int| len - (i + 1) <= q < len && topo@[q] == w {
                    let q = choose|q: int| len - (i + 1) <= q < len && topo@[q] == w;
                    if q != p {
                        assert(len - i <= q < len && topo@[q] == w);
                    }
                }
            }
        }
        i = i + 1;
    }
    r
}

/// The nodes running at cycle `c`, by increasing id, each once per entry.
fn active_list(ac: &Vec<usize>, c: usize, Ghost(ts): Ghost<Seq<TimedNode>>) -> (r: Vec<NodeId>)
    requires
        forall|v: int| 0 <= v < ac@.len() ==> #[trigger] ac@[v] == active_count(ts, v as NodeId, c as int),
    ensures
        r@ == active_upto(ts, c as int, ac@.len() as int),
{
    let n = ac.len();
    let mut r: Vec<NodeId> = Vec::new();
    let mut v: usize = 0;
    while v < n
        invariant
            v <= n,
            n == ac@.len(),
            forall|w: int| 0 <= w < ac@.len() ==> #[trigger] ac@[w] == active_count(ts, w as NodeId, c as int),
            r@ == active_upto(ts, c as int, v as int),
        decreases n - v,
    {
        let ghost prefix = r@;
        let cnt = ac[v];
        let mut j: usize = 0;
        proof {
            assert(prefix + copies(v, 0) =~= prefix);
        }
        while j < cnt
            invariant
                j <= cnt,
                r@ == prefix + copies(v, j as nat),
            decreases cnt - j,
        {
            r.push(v);
            j = j + 1;
            assert(r@ =~= prefix + copies(v, j as nat));
        }
        v = v + 1;
    }
    r
}

pub(crate) proof fn lemma_run_nodes_push(m: SimModel, g: SchedGraph, ni: nat, live: nat, order: Seq<NodeId>, v: NodeId)
    ensures
        ({
            let (m1, st) = run_nodes(m, g, ni, live, order);
            let (m2, step) = node_effect(m1, g, ni, live, v);
            run_nodes(m, g, ni, live, order.push(v)) == (m2, st + opt_step(step))
        }),
{
    assert(order.push(v).drop_last() =~= order);
    let (m1, st) = run_nodes(m, g, ni, live, order);
    let (m2, step) = node_effect(m1, g, ni, live, v);
    match step {
        Some(x) => {
            assert(st.push(x) =~= st + opt_step(step));
        },
        None => {
            assert(st =~= st + opt_step(step));
        },
    }
}

proof fn lemma_retire_deps_peak(m: SimModel, deps: Seq<NodeId>)
    ensures
        retire_deps(m, deps).temp <= m.temp,
        retire_deps(m, deps).cycle_peak == m.cycle_peak,
        retire_deps(m, deps).peak_temp == m.peak_temp,
    decreases deps.len(),
{
    if deps.len() > 0 {
        lemma_retire_deps_peak(m, deps.drop_last());
    }
}

proof fn lemma_effect_peak(m: SimModel, g: SchedGraph, ni: nat, live: nat, u: NodeId, p0: nat)
    requires
        m.temp <= m.cycle_peak,
        m.cycle_peak <= m.peak_temp,
        m.peak_temp == max_nat(p0, m.cycle_peak),
    ensures
        ({
            let m2 = node_effect(m, g, ni, live, u).0;
            &&& m2.temp <= m2.cycle_peak
            &&& m2.cycle_peak <= m2.peak_temp
            &&& m2.peak_temp == max_nat(p0, m2.cycle_peak)
        }),
{
    let m1 = produce(m, g, ni, live, u).0;
    assert(m1.temp <= m1.cycle_peak && m1.cycle_peak <= m1.peak_temp && m1.peak_temp == max_nat(p0, m1.cycle_peak));
    lemma_retire_deps_peak(m1, g.deps_of(u as int));
}

proof fn lemma_run_nodes_peak(m: SimModel, g: SchedGraph, ni: nat, live: nat, order: Seq<NodeId>, p0: nat)
    requires
        m.temp <= m.cycle_peak,
        m.cycle_peak <= m.peak_temp,
        m.peak_temp == max_nat(p0, m.cycle_peak),
    ensures
        ({
            let m2 = run_nodes(m, g, ni, live, order).0;
            &&& m2.temp <= m2.cycle_peak
            &&& m2.cycle_peak <= m2.peak_temp
            &&& m2.peak_temp == max_nat(p0, m2.cycle_peak)
        }),
    decreases order.len(),
{
    if order.len() > 0 {
        lemma_run_nodes_peak(m, g, ni, live, order.drop_last(), p0);
        lemma_effect_peak(run_nodes(m, g, ni, live, order.drop_last()).0, g, ni, live, order.last(), p0);
    }
}

/// The temporary-buffer peak is the highest instant peak of any cycle so far.
proof fn lemma_run_cycles_peak(g: SchedGraph, s: Schedule, ni: nat, c: nat)
    ensures
        ({
            let (m, snaps, steps) = run_cycles(g, s, ni, c);
            &&& m.temp <= m.peak_temp
            &&& m.peak_temp == max_instant_peak(snaps)
            &&& snaps.len() == c
        }),
    decreases c,
{
    if c > 0 {
        lemma_run_cycles_peak(g, s, ni, (c - 1) as nat);
        let (m, snaps, steps) = run_cycles(g, s, ni, (c - 1) as nat);
        let m0 = SimModel { cycle_peak: m.temp, ..m };
        lemma_run_nodes_peak(m0, g, ni, live_inputs(g), cycle_order(s, c - 1), m.peak_temp);
        let (m1, st) = run_nodes(m0, g, ni, live_inputs(g), cycle_order(s, c - 1));
        assert(snaps.push(snap_of(m1, g, s, (c - 1) as nat)).drop_last() =~= snaps);
    }
}

/// Simulates `schedule` on `graph` with `n_inputs` input blocks.
///
/// Each cycle from 0 to the last, the entries finishing in that cycle
/// complete one after the other (by the last position of their node in the
/// topological order, those whose node is missing from it last, and
/// otherwise in entry order); each completion takes and releases buffers and
/// may produce a data-flow step; then a snapshot of the cycle is taken. The result is the bookkeeping, snapshots and steps of
/// `run_cycles`; its temporary-buffer peak is the highest instant peak of
/// any cycle.
pub fn simulate(graph: &SchedGraph, schedule: &Schedule, params: &SchedParams, n_inputs: usize) -> (r: SimResult)
    requires
        sim_ready(*graph, *schedule),
    ensures
        ({
            let (m, snaps, steps) = run_cycles(*graph, *schedule, n_inputs as nat, (schedule.total_cycles + 1) as nat);
            &&& r.peak_temp_buffer == m.peak_temp
            &&& snap_views(r.per_cycle_trace@) == snaps
            &&& r.peak_input_buffer_blocks == m.peak_in
            &&& r.output_buffer_blocks == m.cur_out
            &&& r.peak_output_buffer_blocks == m.peak_out
            &&& step_views(r.steps@) == steps
        }),
        r.per_cycle_trace@.len() == schedule.total_cycles + 1,
        r.peak_temp_buffer == max_instant_peak(snap_views(r.per_cycle_trace@)),
{
    let n = graph.nodes.len();
    let ghost g = *graph;
    let ghost s = *schedule;
    let ghost ni = n_inputs as nat;
    let ts = &schedule.timed_nodes;
    let topo = &schedule.topo_order;
    let in_topo = topo_marks(topo, n);
    let marks = last_marks(topo, n);
    let live = live_count(graph);
    let mut tr = Tracker::start(graph);
    let mut trace: Vec<CycleSnapshot> = Vec::new();
    let mut steps: Vec<SimStep> = Vec::new();
    let mut cycle: usize = 0;
    proof {
        assert(snap_views(trace@) =~= Seq::<SnapView>::empty());
        assert(step_views(steps@) =~= Seq::<StepView>::empty());
    }
    while cycle <= schedule.total_cycles
        invariant
            g == *graph,
            s == *schedule,
            ni == n_inputs as nat,
            ts == &schedule.timed_nodes,
            topo == &schedule.topo_order,
            n == g.nodes@.len(),
            sim_ready(g, s),
            live == live_inputs(g),
            in_topo@.len() == n,
            forall|v: int| 0 <= v < n ==> (#[trigger] in_topo@[v] <==> topo@.contains(v as NodeId)),
            marks@.len() == topo@.len(),
            forall|p: int| 0 <= p < topo@.len() && topo@[p] < n ==> (#[trigger] marks@[p] <==> last_in_topo(topo@, p)),
            cycle <= schedule.total_cycles + 1,
            tr.inv(n as nat),
            ({
                let (m, snaps, st) = run_cycles(g, s, ni, cycle as nat);
                &&& tr.model() == m
                &&& snap_views(trace@) == snaps
                &&& step_views(steps@) == st
            }),
        decreases schedule.total_cycles + 1 - cycle,
    {
        let ghost prev = run_cycles(g, s, ni, cycle as nat);
        let (fc, ac) = cycle_counts(ts, n, cycle);
        tr.cycle_peak = tr.temp;
        let ghost m0 = tr.model();
        let ghost steps0 = steps@;
        proof {
            assert(m0 == SimModel { cycle_peak: prev.0.temp, ..prev.0 });
            assert(step_views(steps@) =~= step_views(steps0) + run_nodes(m0, g, ni, live as nat, topo_finishing(s, cycle as int, 0)).1);
        }
        let mut p: usize = 0;
        while p < topo.len()
            invariant
                g == *graph,
                s == *schedule,
                ni == n_inputs as nat,
                ts == &schedule.timed_nodes,
                topo == &schedule.topo_order,
                n == g.nodes@.len(),
                g.ids_ok(),
                fc@.len() == n,
                forall|v: int| 0 <= v < n ==> #[trigger] fc@[v] == finish_count(ts@, v as NodeId, cycle as int),
                marks@.len() == topo@.len(),
                forall|q: int| 0 <= q < topo@.len() && topo@[q] < n ==> (#[trigger] marks@[q] <==> last_in_topo(topo@, q)),
                forall|k: int| 0 <= k < ts@.len() ==> #[trigger] ts@[k].id < n,
                p <= topo@.len(),
                tr.inv(n as nat),
                ({
                    let (mm, st) = run_nodes(m0, g, ni, live as nat, topo_finishing(s, cycle as int, p as int));
                    &&& tr.model() == mm
                    &&& step_views(steps@) == step_views(steps0) + st
                }),
            decreases topo@.len() - p,
        {
            let v = topo[p];
            let ghost before = topo_finishing(s, cycle as int, p as int);
            if v < n && marks[p] {
                let cnt = fc[v];
                let ghost mb = tr.model();
                let ghost sb = steps@;
                tr.complete_copies(graph, v, cnt, n_inputs, live, &mut steps);
                proof {
                    assert(topo_finishing(s, cycle as int, p + 1) == before + copies(v, cnt as nat));
                    lemma_run_nodes_concat(m0, g, ni, live as nat, before, copies(v, cnt as nat));
                    let (ma, sa) = run_nodes(m0, g, ni, live as nat, before);
                    let (mc, sc) = run_nodes(ma, g, ni, live as nat, copies(v, cnt as nat));
                    assert(mb == ma);
                    assert(step_views(steps@) == step_views(sb) + sc);
                    assert(step_views(steps@) =~= step_views(steps0) + (sa + sc));
                }
            } else {
                proof {
                    if v >= n {
                        assert forall|k: int| 0 <= k < ts@.len() implies (#[trigger] ts@[k]).id != v by {
                        }
                        lemma_counts_absent(ts@, v, cycle as int);
                        assert(before + copies(v, 0) =~= before);
                    }
                    assert(topo_finishing(s, cycle as int, p + 1) == before);
                }
            }
            p = p + 1;
        }
        let ghost tpart = topo_finishing(s, cycle as int, topo@.len() as int);
        proof {
            assert(tpart + others_finishing(s, cycle as int, 0) =~= tpart);
        }
        let mut k: usize = 0;
        while k < ts.len()
            invariant
                g == *graph,
                s == *schedule,
                ni == n_inputs as nat,
                ts == &schedule.timed_nodes,
                topo == &schedule.topo_order,
                n == g.nodes@.len(),
                g.ids_ok(),
                in_topo@.len() == n,
                forall|v: int| 0 <= v < n ==> (#[trigger] in_topo@[v] <==> topo@.contains(v as NodeId)),
                forall|q: int| 0 <= q < ts@.len() ==> #[trigger] ts@[q].id < n,
                tpart == topo_finishing(s, cycle as int, topo@.len() as int),
                k <= ts@.len(),
                tr.inv(n as nat),
                ({
                    let (mm, st) = run_nodes(m0, g, ni, live as nat, tpart + others_finishing(s, cycle as int, k as int));
                    &&& tr.model() == mm
                    &&& step_views(steps@) == step_views(steps0) + st
                }),
            decreases ts@.len() - k,
        {
            let e = ts[k];
            let ghost before = tpart + others_finishing(s, cycle as int, k as int);
            proof {
                assert(ts@[k as int].id < n);
            }
            if e.finish_cycle == cycle && !in_topo[e.id] {
                proof {
                    assert(others_finishing(s, cycle as int, k + 1) == others_finishing(s, cycle as int, k as int).push(e.id));
                    assert(tpart + others_finishing(s, cycle as int, k + 1) =~= before.push(e.id));
                    lemma_run_nodes_push(m0, g, ni, live as nat, before, e.id);
                }
                let ghost sv = steps@;
                let ghost mv = tr.model();
                tr.complete(graph, e.id, n_inputs, live, &mut steps);
                proof {
                    let (mm, st) = run_nodes(m0, g, ni, live as nat, before);
                    let (m2, step) = node_effect(mm, g, ni, live as nat, e.id);
                    assert(mv == mm);
                    assert(step_views(sv) == step_views(steps0) + st);
                    assert(step_views(steps@) == step_views(sv) + opt_step(step));
                    assert(step_views(steps@) =~= step_views(steps0) + (st + opt_step(step)));
                }
            } else {
                proof {
                    assert(others_finishing(s, cycle as int, k + 1) == others_finishing(s, cycle as int, k as int));
                }
            }
            k = k + 1;
        }
        let active = active_list(&ac, cycle, Ghost(ts@));
        let snap = CycleSnapshot {
            cycle,
            active_nodes: active,
            input_buffer_occupancy: tr.cur_in,
            end_of_cycle_occupancy: tr.temp,
            instant_peak_occupancy: tr.cycle_peak,
            output_buffer_occupancy: tr.cur_out,
        };
        let ghost trace0 = trace@;
        trace.push(snap);
        proof {
            assert(snap_views(trace@) =~= snap_views(trace0).push(snap@));
            let (mm, st) = run_nodes(m0, g, ni, live as nat, cycle_order(s, cycle as int));
            assert(snap@ == snap_of(mm, g, s, cycle as nat));
            assert(step_views(steps@) =~= step_views(steps0) + st);
        }
        cycle = cycle + 1;
    }
    proof {
        lemma_run_cycles_peak(g, s, ni, cycle as nat);
    }
    SimResult {
        peak_temp_buffer: tr.peak_temp,
        per_cycle_trace: trace,
        peak_input_buffer_blocks: tr.peak_in,
        output_buffer_blocks: tr.cur_out,
        peak_output_buffer_blocks: tr.peak_out,
        steps,
    }
}

} // verus!
