//! Lowering: from a block matrix to a scheduling graph.
//!
//! Every node of a graph built here has its own index in `nodes` as id, and
//! depends only on nodes built before it.
use vstd::prelude::*;
use crate::ir::{BlockMat, KernelRef, Mat2, ValidationError, D};
use crate::semantics::covers_shape;

verus! {

/// Address of a buffer slot.
pub type BufferAddr = usize;

/// Address of a parameter in parameter storage.
pub type ParamAddr = usize;

/// Identifier of a graph node.
pub type NodeId = usize;

/// Execution-level kernel reference: the source kernel after the scalar test
/// (R3), with a `Scalar` variant for kernels of the form `c * I_d`.
/// `Scalar(c)` holds the bit pattern of `c`.
#[derive(Debug, Clone, Copy, PartialEq, Eq)]
pub enum ExecKernelRef {
    General(Mat2),
    Id,
    Zero,
    Scalar(u32),
}

impl ExecKernelRef {
    /// The execution-level view of a source kernel, given the outcome of the
    /// scalar test on its matrix (`is_scalar` is ignored for `Id` and `Zero`).
    /// A scalar kernel `c * I_d` is represented by `c = m[0][0]`.
    pub open spec fn spec_from(k: KernelRef, is_scalar: bool) -> ExecKernelRef {
        match k {
            KernelRef::Zero => ExecKernelRef::Zero,
            KernelRef::Id => ExecKernelRef::Id,
            KernelRef::General(m) => if is_scalar {
                ExecKernelRef::Scalar(m[0][0])
            } else {
                ExecKernelRef::General(m)
            },
        }
    }

    /// Converts a source kernel, R3 recognising scalar kernels; `is_scalar` is
    /// the outcome of the scalar test on the kernel's matrix.
    pub fn from_kernel_ref(k: &KernelRef, is_scalar: bool) -> (r: Self)
        ensures
            r == Self::spec_from(*k, is_scalar),
    {
        match k {
            KernelRef::Zero => ExecKernelRef::Zero,
            KernelRef::Id => ExecKernelRef::Id,
            KernelRef::General(m) => {
                if is_scalar {
                    ExecKernelRef::Scalar(m[0][0])
                } else {
                    ExecKernelRef::General(*m)
                }
            },
        }
    }

    pub fn is_zero(&self) -> (r: bool)
        ensures
            r <==> *self == ExecKernelRef::Zero,
    {
        match self {
            ExecKernelRef::Zero => true,
            _ => false,
        }
    }
}

/// Kind of a scheduling-graph node.
#[derive(Debug, Clone, Copy, PartialEq, Eq)]
pub enum NodeType {
    InputRead,
    ParamLoad,
    Broadcast,
    Core(ExecKernelRef),
    Direct,
    Reduce,
    ZeroFill,
    WriteBack,
}

/// A scheduling-graph node.
#[derive(Debug, Clone)]
pub struct SchedNode {
    pub id: NodeId,
    pub node_type: NodeType,
    pub arity: usize,
    pub transfer_scalars: usize,
    pub input_slots: Vec<BufferAddr>,
    pub output_slots: Vec<BufferAddr>,
    pub param_handle: Option<ParamAddr>,
    pub deps: Vec<NodeId>,
}

/// A scheduling graph: node `i` of `nodes` has id `i`.
#[derive(Debug, Clone)]
pub struct SchedGraph {
    pub nodes: Vec<SchedNode>,
    pub output_nodes: Vec<NodeId>,
}

/// The hardware resource that a node occupies while it runs.
#[derive(Debug, Clone, Copy, PartialEq, Eq, Structural)]
pub enum Resource {
    Input,
    Load,
    Core,
    Bcast,
    Reduce,
    WriteBack,
    /// Occupies nothing (`Direct`).
    Unmetered,
}

/// The resource class of a node type.
pub open spec fn class_of(nt: NodeType) -> Resource {
    match nt {
        NodeType::InputRead => Resource::Input,
        NodeType::ParamLoad => Resource::Load,
        NodeType::Broadcast => Resource::Bcast,
        NodeType::Reduce => Resource::Reduce,
        NodeType::ZeroFill => Resource::Reduce,
        NodeType::WriteBack => Resource::WriteBack,
        NodeType::Direct => Resource::Unmetered,
        NodeType::Core(_) => Resource::Core,
    }
}

/// The resource class of a node type.
pub fn resource_of(nt: &NodeType) -> (r: Resource)
    ensures
        r == class_of(*nt),
{
    match nt {
        NodeType::InputRead => Resource::Input,
        NodeType::ParamLoad => Resource::Load,
        NodeType::Broadcast => Resource::Bcast,
        NodeType::Reduce => Resource::Reduce,
        NodeType::ZeroFill => Resource::Reduce,
        NodeType::WriteBack => Resource::WriteBack,
        NodeType::Direct => Resource::Unmetered,
        NodeType::Core(_) => Resource::Core,
    }
}

/// The name of a resource class.
pub open spec fn class_name(c: Resource) -> Seq<char> {
    match c {
        Resource::Input => "input"@,
        Resource::Load => "load"@,
        Resource::Core => "core"@,
        Resource::Bcast => "bcast"@,
        Resource::Reduce => "reduce"@,
        Resource::WriteBack => "writeback"@,
        Resource::Unmetered => "none"@,
    }
}

/// Resource class of a node type, by name.
pub fn resource_class(nt: &NodeType) -> (r: &'static str)
    ensures
        r@ == class_name(class_of(*nt)),
{
    match nt {
        NodeType::InputRead => "input",
        NodeType::ParamLoad => "load",
        NodeType::Broadcast => "bcast",
        NodeType::Reduce | NodeType::ZeroFill => "reduce",
        NodeType::WriteBack => "writeback",
        NodeType::Direct => "none",
        NodeType::Core(_) => "core",
    }
}

impl SchedGraph {
    /// Node `i` has id `i` and every dependency names a node of the graph.
    pub open spec fn ids_ok(&self) -> bool {
        &&& forall|i: int| 0 <= i < self.nodes@.len() ==> (#[trigger] self.nodes@[i]).id == i
        &&& forall|i: int, k: int|
            0 <= i < self.nodes@.len() && 0 <= k < self.nodes@[i].deps@.len() ==> #[trigger] self.nodes@[i].deps@[k]
                < self.nodes@.len()
    }

    /// The dependencies of node `i`.
    pub open spec fn deps_of(&self, i: int) -> Seq<NodeId> {
        self.nodes@[i].deps@
    }

    /// `rank` strictly increases along every dependency edge.
    pub open spec fn ranked_by(&self, rank: spec_fn(int) -> nat) -> bool {
        forall|i: int, k: int|
            0 <= i < self.nodes@.len() && 0 <= k < self.nodes@[i].deps@.len() ==> rank(
                #[trigger] self.nodes@[i].deps@[k] as int,
            ) < rank(i)
    }

    /// The dependency relation has no cycle.
    pub open spec fn acyclic(&self) -> bool {
        exists|rank: spec_fn(int) -> nat| self.ranked_by(rank)
    }

    /// The graph is well formed for scheduling: dense ids, dependencies inside
    /// the graph, no cycle.
    pub open spec fn well_formed(&self) -> bool {
        &&& self.ids_ok()
        &&& self.acyclic()
    }
}

// ------------------------------------------------------------------
// The shape of the lowered graph
// ------------------------------------------------------------------
/// Block `(i, j)` holds a non-zero kernel.
pub open spec fn nz(bm: BlockMat, i: int, j: int) -> bool {
    !(bm.cell(i, j) is Zero)
}

/// Number of rows `r < i` whose block in column `j` is non-zero.
pub open spec fn count_col(bm: BlockMat, j: int, i: int) -> nat
    decreases i,
{
    if i <= 0 {
        0
    } else {
        count_col(bm, j, i - 1) + if nz(bm, i - 1, j) {
            1nat
        } else {
            0nat
        }
    }
}

/// Number of non-zero blocks in column `j` (its broadcast fan-out `c_j`).
pub open spec fn col_count(bm: BlockMat, j: int) -> nat {
    count_col(bm, j, bm.rows as int)
}

/// Number of columns `c < j` whose block in row `i` is non-zero.
pub open spec fn count_row(bm: BlockMat, i: int, j: int) -> nat
    decreases j,
{
    if j <= 0 {
        0
    } else {
        count_row(bm, i, j - 1) + if nz(bm, i, j - 1) {
            1nat
        } else {
            0nat
        }
    }
}

/// Number of non-zero blocks in row `i` (its reduction fan-in `r_i`).
pub open spec fn row_count(bm: BlockMat, i: int) -> nat {
    count_row(bm, i, bm.cols as int)
}

/// Number of non-zero blocks in the rows before `i`.
pub open spec fn nz_rows_before(bm: BlockMat, i: int) -> nat
    decreases i,
{
    if i <= 0 {
        0
    } else {
        nz_rows_before(bm, i - 1) + row_count(bm, i - 1)
    }
}

/// Number of non-zero blocks before `(i, j)` in row-major order.
pub open spec fn nz_before(bm: BlockMat, i: int, j: int) -> nat {
    nz_rows_before(bm, i) + count_row(bm, i, j)
}

/// Number of non-zero blocks.
pub open spec fn nnz(bm: BlockMat) -> nat {
    nz_rows_before(bm, bm.rows as int)
}

/// Number of columns `c < j` that need a broadcast (more than one non-zero block).
pub open spec fn bcast_before(bm: BlockMat, j: int) -> nat
    decreases j,
{
    if j <= 0 {
        0
    } else {
        bcast_before(bm, j - 1) + if col_count(bm, j - 1) > 1 {
            1nat
        } else {
            0nat
        }
    }
}

/// The live columns below `j` (those with a non-zero block), in increasing order.
pub open spec fn live_upto(bm: BlockMat, j: int) -> Seq<usize>
    decreases j,
{
    if j <= 0 {
        Seq::empty()
    } else if col_count(bm, j - 1) > 0 {
        live_upto(bm, j - 1).push((j - 1) as usize)
    } else {
        live_upto(bm, j - 1)
    }
}

/// The live columns, in increasing order.
pub open spec fn live_cols(bm: BlockMat) -> Seq<usize> {
    live_upto(bm, bm.cols as int)
}

/// The matrix is a block permutation: square, one non-zero block per row and
/// per column, and every block `Id` or `Zero`.
pub open spec fn is_perm(bm: BlockMat) -> bool {
    &&& bm.rows == bm.cols
    &&& forall|i: int| 0 <= i < bm.rows ==> #[trigger] row_count(bm, i) == 1
    &&& forall|j: int| 0 <= j < bm.cols ==> #[trigger] col_count(bm, j) == 1
    &&& forall|i: int, j: int|
        0 <= i < bm.rows && 0 <= j < bm.cols ==> (#[trigger] bm.cell(i, j) is Id || bm.cell(i, j) is Zero)
}

/// The execution-level kernel of block `(i, j)`, given the scalar-test outcomes.
pub open spec fn exec_cell(bm: BlockMat, sc: Seq<Seq<bool>>, i: int, j: int) -> ExecKernelRef {
    ExecKernelRef::spec_from(bm.cell(i, j), sc[i][j])
}

/// The kernel carries parameters that must be loaded.
pub open spec fn keyed(e: ExecKernelRef) -> bool {
    e is General || e is Scalar
}

/// Number of scalars a parameter occupies in storage.
pub open spec fn param_size(e: ExecKernelRef) -> nat {
    match e {
        ExecKernelRef::General(_) => 4,
        ExecKernelRef::Scalar(_) => 1,
        _ => 0,
    }
}

/// The distinct parameters of the blocks before `(i, j)` in row-major order,
/// in order of first occurrence.
pub open spec fn keys_upto(bm: BlockMat, sc: Seq<Seq<bool>>, i: int, j: int) -> Seq<ExecKernelRef>
    decreases i, j,
{
    if i <= 0 && j <= 0 {
        Seq::empty()
    } else if j <= 0 {
        keys_upto(bm, sc, i - 1, bm.cols as int)
    } else {
        let prev = keys_upto(bm, sc, i, j - 1);
        let e = exec_cell(bm, sc, i, j - 1);
        if keyed(e) && !prev.contains(e) {
            prev.push(e)
        } else {
            prev
        }
    }
}

/// The distinct parameters of the matrix, in order of first occurrence.
pub open spec fn param_keys(bm: BlockMat, sc: Seq<Seq<bool>>) -> Seq<ExecKernelRef> {
    keys_upto(bm, sc, bm.rows as int, 0)
}

/// Total storage size of a list of parameters.
pub open spec fn params_size(ks: Seq<ExecKernelRef>) -> nat
    decreases ks.len(),
{
    if ks.len() == 0 {
        0
    } else {
        params_size(ks.drop_last()) + param_size(ks.last())
    }
}

/// An `InputRead` node is built: not a permutation and some column is live.
pub open spec fn has_input(bm: BlockMat) -> bool {
    !is_perm(bm) && live_cols(bm).len() > 0
}

/// A `ParamLoad` node is built: some parameter must be loaded.
pub open spec fn has_param(bm: BlockMat, sc: Seq<Seq<bool>>) -> bool {
    param_keys(bm, sc).len() > 0
}

pub open spec fn input_id(bm: BlockMat) -> nat {
    0
}

pub open spec fn param_id(bm: BlockMat) -> nat {
    if has_input(bm) {
        1
    } else {
        0
    }
}

pub open spec fn bcast_base(bm: BlockMat, sc: Seq<Seq<bool>>) -> nat {
    param_id(bm) + if has_param(bm, sc) {
        1nat
    } else {
        0nat
    }
}

/// Id of the broadcast node of column `j`.
pub open spec fn bcast_id(bm: BlockMat, sc: Seq<Seq<bool>>, j: int) -> nat {
    bcast_base(bm, sc) + bcast_before(bm, j)
}

pub open spec fn kernel_base(bm: BlockMat, sc: Seq<Seq<bool>>) -> nat {
    bcast_base(bm, sc) + bcast_before(bm, bm.cols as int)
}

/// Id of the kernel node of block `(i, j)`.
pub open spec fn kernel_id(bm: BlockMat, sc: Seq<Seq<bool>>, i: int, j: int) -> nat {
    kernel_base(bm, sc) + nz_before(bm, i, j)
}

pub open spec fn row_base(bm: BlockMat, sc: Seq<Seq<bool>>) -> nat {
    kernel_base(bm, sc) + nnz(bm)
}

/// Id of the output node of row `i`.
pub open spec fn row_id(bm: BlockMat, sc: Seq<Seq<bool>>, i: int) -> nat {
    (row_base(bm, sc) + i) as nat
}

/// Id of the write-back node (built unless the matrix is a permutation).
pub open spec fn wb_id(bm: BlockMat, sc: Seq<Seq<bool>>) -> nat {
    row_base(bm, sc) + bm.rows as nat
}

/// Number of nodes of the lowered graph.
pub open spec fn node_count(bm: BlockMat, sc: Seq<Seq<bool>>) -> nat {
    wb_id(bm, sc) + if is_perm(bm) {
        0nat
    } else {
        1nat
    }
}

pub open spec fn spec_input_addr(j: int) -> int {
    j
}

pub open spec fn spec_output_addr(i: int) -> int {
    10000 + i
}

pub open spec fn spec_temp_addr(id: int) -> int {
    20000 + id
}

/// Buffer address of input block `block_idx`.
pub fn input_addr(block_idx: usize) -> (r: BufferAddr)
    ensures
        r == spec_input_addr(block_idx as int),
{
    block_idx
}

/// Buffer address of output block `block_idx`.
pub fn output_addr(block_idx: usize) -> (r: BufferAddr)
    requires
        block_idx + 10000 <= usize::MAX,
    ensures
        r == spec_output_addr(block_idx as int),
{
    10000 + block_idx
}

/// Buffer address of the temporary result of node `node_id`.
pub fn temp_addr(node_id: NodeId) -> (r: BufferAddr)
    requires
        node_id + 20000 <= usize::MAX,
    ensures
        r == spec_temp_addr(node_id as int),
{
    20000 + node_id
}

/// The buffer a kernel node of column `j` reads: the column's broadcast
/// copy, or the input block itself.
pub open spec fn kernel_input(bm: BlockMat, sc: Seq<Seq<bool>>, j: int) -> int {
    if col_count(bm, j) > 1 {
        spec_temp_addr(bcast_id(bm, sc, j) as int)
    } else {
        spec_input_addr(j)
    }
}

/// The dependencies of the kernel node of block `(i, j)`: the column's
/// broadcast (or else the input read, if any), then the parameter load if the
/// kernel carries parameters.
pub open spec fn kernel_deps(bm: BlockMat, sc: Seq<Seq<bool>>, i: int, j: int) -> Seq<NodeId> {
    let first: Seq<NodeId> = if col_count(bm, j) > 1 {
        seq![bcast_id(bm, sc, j) as NodeId]
    } else if has_input(bm) {
        seq![input_id(bm) as NodeId]
    } else {
        Seq::empty()
    };
    if keyed(exec_cell(bm, sc, i, j)) {
        first.push(param_id(bm) as NodeId)
    } else {
        first
    }
}

/// The node type of the output node of a row with `k` non-zero blocks.
pub open spec fn row_type(k: nat) -> NodeType {
    if k == 0 {
        NodeType::ZeroFill
    } else if k == 1 {
        NodeType::Direct
    } else {
        NodeType::Reduce
    }
}

/// `ns2` keeps every node of `ns` in place.
pub open spec fn extends(ns2: Seq<SchedNode>, ns: Seq<SchedNode>) -> bool {
    &&& ns.len() <= ns2.len()
    &&& forall|k: int| 0 <= k < ns.len() ==> #[trigger] ns2[k] == ns[k]
}

/// The `InputRead` node, when there is one.
pub open spec fn input_node_ok(bm: BlockMat, ns: Seq<SchedNode>) -> bool {
    has_input(bm) ==> {
        let nd = ns[input_id(bm) as int];
        &&& input_id(bm) < ns.len()
        &&& nd.node_type == NodeType::InputRead
        &&& nd.arity == live_cols(bm).len()
        &&& nd.transfer_scalars == live_cols(bm).len() * 2
        &&& nd.input_slots@ == live_cols(bm)
        &&& nd.output_slots@ == live_cols(bm)
        &&& nd.param_handle is None
        &&& nd.deps@.len() == 0
    }
}

/// The `ParamLoad` node, when there is one.
pub open spec fn param_node_ok(bm: BlockMat, sc: Seq<Seq<bool>>, ns: Seq<SchedNode>) -> bool {
    has_param(bm, sc) ==> {
        let nd = ns[param_id(bm) as int];
        &&& param_id(bm) < ns.len()
        &&& nd.node_type == NodeType::ParamLoad
        &&& nd.arity == param_keys(bm, sc).len()
        &&& nd.transfer_scalars == params_size(param_keys(bm, sc))
        &&& nd.input_slots@.len() == 0
        &&& nd.output_slots@.len() == 0
        &&& nd.param_handle is None
        &&& nd.deps@.len() == 0
    }
}

/// The broadcast nodes of the columns below `upto` of fan-out above one.
pub open spec fn bcast_nodes_ok(bm: BlockMat, sc: Seq<Seq<bool>>, ns: Seq<SchedNode>, upto: int) -> bool {
    forall|j: int|
        0 <= j < upto && #[trigger] col_count(bm, j) > 1 ==> {
            let id = bcast_id(bm, sc, j) as int;
            let nd = ns[id];
            &&& id < ns.len()
            &&& nd.node_type == NodeType::Broadcast
            &&& nd.arity == col_count(bm, j)
            &&& nd.transfer_scalars == 2
            &&& nd.input_slots@ == seq![spec_input_addr(j) as usize]
            &&& nd.output_slots@ == seq![spec_temp_addr(id) as usize]
            &&& nd.param_handle is None
            &&& nd.deps@ == (if has_input(bm) {
                seq![input_id(bm) as NodeId]
            } else {
                Seq::empty()
            })
        }
}

/// The kernel node of non-zero block `(i, j)`.
pub open spec fn kernel_node_ok(bm: BlockMat, sc: Seq<Seq<bool>>, ns: Seq<SchedNode>, i: int, j: int) -> bool {
    let id = kernel_id(bm, sc, i, j) as int;
    let nd = ns[id];
    let e = exec_cell(bm, sc, i, j);
    let keys = param_keys(bm, sc);
    &&& id < ns.len()
    &&& nd.node_type == (if e is Id {
        NodeType::Direct
    } else {
        NodeType::Core(e)
    })
    &&& nd.arity == 1
    &&& nd.transfer_scalars == 0
    &&& nd.input_slots@ == seq![kernel_input(bm, sc, j) as usize]
    &&& nd.output_slots@ == seq![spec_temp_addr(id) as usize]
    &&& (keyed(e) ==> (nd.param_handle matches Some(h) && h < keys.len() && keys[h as int] == e))
    &&& (!keyed(e) ==> nd.param_handle is None)
    &&& nd.deps@ == kernel_deps(bm, sc, i, j)
}

/// The kernel nodes of the non-zero blocks before `(i, j)` in row-major order.
pub open spec fn kernel_nodes_ok(bm: BlockMat, sc: Seq<Seq<bool>>, ns: Seq<SchedNode>, i: int, j: int) -> bool {
    forall|a: int, b: int|
        0 <= a && 0 <= b < bm.cols && (a < i || (a == i && b < j)) && #[trigger] nz(bm, a, b)
            ==> kernel_node_ok(bm, sc, ns, a, b)
}

/// The output node of row `i`.
pub open spec fn row_node_ok(bm: BlockMat, sc: Seq<Seq<bool>>, ns: Seq<SchedNode>, i: int) -> bool {
    let id = row_id(bm, sc, i) as int;
    let nd = ns[id];
    let base = kernel_base(bm, sc) + nz_rows_before(bm, i);
    &&& id < ns.len()
    &&& nd.node_type == row_type(row_count(bm, i))
    &&& nd.arity == row_count(bm, i)
    &&& nd.transfer_scalars == 0
    &&& nd.deps@ == Seq::new(row_count(bm, i), |t: int| (base + t) as NodeId)
    &&& nd.input_slots@ == Seq::new(row_count(bm, i), |t: int| spec_temp_addr(base + t) as usize)
    &&& nd.output_slots@ == seq![spec_output_addr(i) as usize]
    &&& nd.param_handle is None
}

/// The output nodes of the rows below `upto`, listed in `outs`.
pub open spec fn row_nodes_ok(bm: BlockMat, sc: Seq<Seq<bool>>, ns: Seq<SchedNode>, outs: Seq<NodeId>, upto: int) -> bool {
    &&& outs.len() == upto
    &&& forall|i: int|
        #![trigger outs[i]]
        #![trigger row_node_ok(bm, sc, ns, i)]
        0 <= i < upto ==> outs[i] == row_id(bm, sc, i) && row_node_ok(bm, sc, ns, i)
}

/// The write-back node, unless the matrix is a permutation.
pub open spec fn wb_node_ok(bm: BlockMat, sc: Seq<Seq<bool>>, ns: Seq<SchedNode>, outs: Seq<NodeId>) -> bool {
    !is_perm(bm) ==> {
        let nd = ns[wb_id(bm, sc) as int];
        let n = bm.rows as int;
        &&& wb_id(bm, sc) < ns.len()
        &&& nd.node_type == NodeType::WriteBack
        &&& nd.arity == n
        &&& nd.transfer_scalars == n * 2
        &&& nd.deps@ == outs
        &&& nd.input_slots@ == Seq::new(n as nat, |i: int| spec_temp_addr(row_id(bm, sc, i) as int) as usize)
        &&& nd.output_slots@ == Seq::new(n as nat, |i: int| spec_output_addr(i) as usize)
        &&& nd.param_handle is None
    }
}

/// `g` is the scheduling graph that lowering builds for `bm`, with `sc[i][j]`
/// the outcome of the scalar test on block `(i, j)`:
/// an `InputRead` (unless the matrix is a permutation or has no live column),
/// a `ParamLoad` (if some parameter must be loaded), one `Broadcast` per
/// column of fan-out above one, one `Core` or `Direct` node per non-zero
/// block in row-major order, one output node per row (`ZeroFill`, `Direct` or
/// `Reduce` by its fan-in), and a `WriteBack` unless the matrix is a
/// permutation; in that order of ids. Each parameter handle is the index of
/// the block's parameter among the distinct parameters in order of first
/// occurrence.
pub open spec fn lowered(bm: BlockMat, sc: Seq<Seq<bool>>, g: SchedGraph) -> bool {
    let ns = g.nodes@;
    &&& ns.len() == node_count(bm, sc)
    &&& forall|id: int| 0 <= id < ns.len() ==> (#[trigger] ns[id]).id == id
    &&& forall|id: int, k: int| 0 <= id < ns.len() && 0 <= k < ns[id].deps@.len() ==> #[trigger] ns[id].deps@[k] < id
    &&& param_keys(bm, sc).no_duplicates()
    &&& input_node_ok(bm, ns)
    &&& param_node_ok(bm, sc, ns)
    &&& bcast_nodes_ok(bm, sc, ns, bm.cols as int)
    &&& kernel_nodes_ok(bm, sc, ns, bm.rows as int, 0)
    &&& row_nodes_ok(bm, sc, ns, g.output_nodes@, bm.rows as int)
    &&& wb_node_ok(bm, sc, ns, g.output_nodes@)
}


// ------------------------------------------------------------------
// Lowering
// ------------------------------------------------------------------
/// The scalar-test outcomes as a sequence of rows.
pub open spec fn flags(sc: &Vec<Vec<bool>>) -> Seq<Seq<bool>> {
    sc@.map_values(|r: Vec<bool>| r@)
}

/// Whether the kernel is `Zero`.
pub(crate) fn kernel_is_zero(k: &KernelRef) -> (r: bool)
    ensures
        r <==> *k is Zero,
{
    match k {
        KernelRef::Zero => true,
        _ => false,
    }
}

/// Fan-out `c_j` of every column.
pub(crate) fn column_counts(bm: &BlockMat) -> (v: Vec<usize>)
    requires
        covers_shape(*bm),
    ensures
        v@.len() == bm.cols,
        forall|j: int| 0 <= j < bm.cols ==> #[trigger] v@[j] == col_count(*bm, j),
{
    let mut v: Vec<usize> = Vec::new();
    let mut j: usize = 0;
    while j < bm.cols
        invariant
            covers_shape(*bm),
            j <= bm.cols,
            v@.len() == j,
            forall|q: int| 0 <= q < j ==> #[trigger] v@[q] == col_count(*bm, q),
        decreases bm.cols - j,
    {
        let mut c: usize = 0;
        let mut i: usize = 0;
        while i < bm.rows
            invariant
                covers_shape(*bm),
                j < bm.cols,
                i <= bm.rows,
                c == count_col(*bm, j as int, i as int),
                c <= i,
            decreases bm.rows - i,
        {
            if !kernel_is_zero(&bm.grid[i][j]) {
                c = c + 1;
            }
            i = i + 1;
        }
        v.push(c);
        j = j + 1;
    }
    v
}

/// Fan-in `r_i` of every row.
pub(crate) fn row_counts(bm: &BlockMat) -> (v: Vec<usize>)
    requires
        covers_shape(*bm),
    ensures
        v@.len() == bm.rows,
        forall|i: int| 0 <= i < bm.rows ==> #[trigger] v@[i] == row_count(*bm, i),
{
    let mut v: Vec<usize> = Vec::new();
    let mut i: usize = 0;
    while i < bm.rows
        invariant
            covers_shape(*bm),
            i <= bm.rows,
            v@.len() == i,
            forall|q: int| 0 <= q < i ==> #[trigger] v@[q] == row_count(*bm, q),
        decreases bm.rows - i,
    {
        let mut c: usize = 0;
        let mut j: usize = 0;
        while j < bm.cols
            invariant
                covers_shape(*bm),
                i < bm.rows,
                j <= bm.cols,
                c == count_row(*bm, i as int, j as int),
                c <= j,
            decreases bm.cols - j,
        {
            if !kernel_is_zero(&bm.grid[i][j]) {
                c = c + 1;
            }
            j = j + 1;
        }
        v.push(c);
        i = i + 1;
    }
    v
}

/// Every kernel of the grid, rows and entries beyond the stated shape
/// included, is `Id` or `Zero`.
pub open spec fn all_structural(bm: BlockMat) -> bool {
    forall|i: int, j: int|
        0 <= i < bm.grid@.len() && 0 <= j < bm.grid@[i]@.len() ==> (#[trigger] bm.grid@[i]@[j] is Id
            || bm.grid@[i]@[j] is Zero)
}

/// The permutation test on a grid that covers its shape: square, one
/// non-zero block in every row and every column of the shape, and no kernel
/// of the grid other than `Id` or `Zero`.
pub open spec fn perm_shape(bm: BlockMat) -> bool {
    &&& bm.rows == bm.cols
    &&& forall|i: int| 0 <= i < bm.rows ==> #[trigger] row_count(bm, i) == 1
    &&& forall|j: int| 0 <= j < bm.cols ==> #[trigger] col_count(bm, j) == 1
    &&& all_structural(bm)
}

/// On a grid of exactly its stated shape the two permutation tests agree.
pub(crate) proof fn lemma_perm_shape(bm: BlockMat)
    requires
        bm.shape_ok(),
    ensures
        perm_shape(bm) == is_perm(bm),
{
    if all_structural(bm) {
        assert forall|i: int, j: int| 0 <= i < bm.rows && 0 <= j < bm.cols implies (#[trigger] bm.cell(i, j) is Id
            || bm.cell(i, j) is Zero) by {
            assert(bm.grid@[i]@[j] == bm.cell(i, j));
        }
    }
    if is_perm(bm) {
        assert forall|i: int, j: int| 0 <= i < bm.grid@.len() && 0 <= j < bm.grid@[i]@.len() implies (#[trigger] bm.grid@[i]@[j] is Id
            || bm.grid@[i]@[j] is Zero) by {
            assert(bm.grid@[i]@[j] == bm.cell(i, j));
        }
    }
}

/// Whether the matrix is a block permutation.
pub(crate) fn is_permutation(bm: &BlockMat, rc: &Vec<usize>, cc: &Vec<usize>) -> (r: bool)
    requires
        covers_shape(*bm),
        rc@.len() == bm.rows,
        cc@.len() == bm.cols,
        forall|i: int| 0 <= i < bm.rows ==> #[trigger] rc@[i] == row_count(*bm, i),
        forall|j: int| 0 <= j < bm.cols ==> #[trigger] cc@[j] == col_count(*bm, j),
    ensures
        r == perm_shape(*bm),
{
    if bm.rows != bm.cols {
        return false;
    }
    let mut i: usize = 0;
    while i < bm.rows
        invariant
            rc@.len() == bm.rows,
            forall|q: int| 0 <= q < bm.rows ==> #[trigger] rc@[q] == row_count(*bm, q),
            i <= bm.rows,
            forall|q: int| 0 <= q < i ==> #[trigger] row_count(*bm, q) == 1,
        decreases bm.rows - i,
    {
        if rc[i] != 1 {
            return false;
        }
        i = i + 1;
    }
    let mut j: usize = 0;
    while j < bm.cols
        invariant
            cc@.len() == bm.cols,
            forall|q: int| 0 <= q < bm.cols ==> #[trigger] cc@[q] == col_count(*bm, q),
            j <= bm.cols,
            forall|q: int| 0 <= q < j ==> #[trigger] col_count(*bm, q) == 1,
        decreases bm.cols - j,
    {
        if cc[j] != 1 {
            return false;
        }
        j = j + 1;
    }
    let mut i: usize = 0;
    while i < bm.grid.len()
        invariant
            i <= bm.grid@.len(),
            forall|a: int, b: int|
                0 <= a < i && 0 <= b < bm.grid@[a]@.len() ==> (#[trigger] bm.grid@[a]@[b] is Id
                    || bm.grid@[a]@[b] is Zero),
        decreases bm.grid@.len() - i,
    {
        let row = &bm.grid[i];
        let mut j: usize = 0;
        while j < row.len()
            invariant
                i < bm.grid@.len(),
                *row == bm.grid@[i as int],
                j <= row@.len(),
                forall|a: int, b: int|
                    0 <= a < i && 0 <= b < bm.grid@[a]@.len() ==> (#[trigger] bm.grid@[a]@[b] is Id
                        || bm.grid@[a]@[b] is Zero),
                forall|b: int| 0 <= b < j ==> (#[trigger] row@[b] is Id || row@[b] is Zero),
            decreases row@.len() - j,
        {
            match &row[j] {
                KernelRef::General(_) => {
                    proof {
                        assert(bm.grid@[i as int]@[j as int] is General);
                    }
                    return false;
                },
                _ => {},
            }
            j = j + 1;
        }
        i = i + 1;
    }
    true
}

/// The live columns, in increasing order.
fn live_columns(bm: &BlockMat, cc: &Vec<usize>) -> (v: Vec<usize>)
    requires
        bm.well_formed(),
        cc@.len() == bm.cols,
        forall|j: int| 0 <= j < bm.cols ==> #[trigger] cc@[j] == col_count(*bm, j),
    ensures
        v@ == live_cols(*bm),
        v@.len() <= bm.cols,
{
    let mut v: Vec<usize> = Vec::new();
    let mut j: usize = 0;
    while j < bm.cols
        invariant
            bm.well_formed(),
            cc@.len() == bm.cols,
            forall|q: int| 0 <= q < bm.cols ==> #[trigger] cc@[q] == col_count(*bm, q),
            j <= bm.cols,
            v@ == live_upto(*bm, j as int),
            v@.len() <= j,
        decreases bm.cols - j,
    {
        if cc[j] > 0 {
            v.push(j);
        }
        j = j + 1;
    }
    v
}

/// Whether two parameter-carrying kernels are the same parameter (same
/// variant, same bits).
fn same_param(a: &ExecKernelRef, b: &ExecKernelRef) -> (r: bool)
    ensures
        r <==> *a == *b,
{
    match (a, b) {
        (ExecKernelRef::General(x), ExecKernelRef::General(y)) => {
            let eq = x[0][0] == y[0][0] && x[0][1] == y[0][1] && x[1][0] == y[1][0] && x[1][1] == y[1][1];
            proof {
                if eq {
                    assert(x[0] =~= y[0]);
                    assert(x[1] =~= y[1]);
                    assert(*x =~= *y);
                }
            }
            eq
        },
        (ExecKernelRef::Scalar(x), ExecKernelRef::Scalar(y)) => *x == *y,
        (ExecKernelRef::Id, ExecKernelRef::Id) => true,
        (ExecKernelRef::Zero, ExecKernelRef::Zero) => true,
        _ => false,
    }
}

/// Position of `e` in `keys`, or `keys.len()` if absent.
fn find_param(keys: &Vec<ExecKernelRef>, e: &ExecKernelRef) -> (r: usize)
    ensures
        r <= keys@.len(),
        r < keys@.len() ==> keys@[r as int] == *e,
        r == keys@.len() ==> !keys@.contains(*e),
{
    let mut k: usize = 0;
    while k < keys.len()
        invariant
            k <= keys@.len(),
            forall|q: int| 0 <= q < k ==> keys@[q] != *e,
        decreases keys@.len() - k,
    {
        if same_param(&keys[k], e) {
            return k;
        }
        k = k + 1;
    }
    k
}


/// A one-element vector.
fn single(x: usize) -> (v: Vec<usize>)
    ensures
        v@ == seq![x],
{
    let mut v: Vec<usize> = Vec::new();
    v.push(x);
    v
}

/// A copy of a vector of numbers.
fn copy_ids(xs: &Vec<usize>) -> (v: Vec<usize>)
    ensures
        v@ == xs@,
{
    let mut v: Vec<usize> = Vec::new();
    let mut k: usize = 0;
    while k < xs.len()
        invariant
            k <= xs@.len(),
            v@ == xs@.take(k as int),
        decreases xs@.len() - k,
    {
        v.push(xs[k]);
        k = k + 1;
        assert(v@ =~= xs@.take(k as int));
    }
    assert(xs@.take(xs@.len() as int) =~= xs@);
    v
}

pub(crate) proof fn lemma_extends_input(bm: BlockMat, ns: Seq<SchedNode>, ns2: Seq<SchedNode>)
    requires
        extends(ns2, ns),
        input_node_ok(bm, ns),
    ensures
        input_node_ok(bm, ns2),
{
    if has_input(bm) {
        assert(ns2[input_id(bm) as int] == ns[input_id(bm) as int]);
    }
}

pub(crate) proof fn lemma_extends_param(bm: BlockMat, sc: Seq<Seq<bool>>, ns: Seq<SchedNode>, ns2: Seq<SchedNode>)
    requires
        extends(ns2, ns),
        param_node_ok(bm, sc, ns),
    ensures
        param_node_ok(bm, sc, ns2),
{
    if has_param(bm, sc) {
        assert(ns2[param_id(bm) as int] == ns[param_id(bm) as int]);
    }
}

pub(crate) proof fn lemma_extends_bcast(bm: BlockMat, sc: Seq<Seq<bool>>, ns: Seq<SchedNode>, ns2: Seq<SchedNode>, bj: int)
    requires
        extends(ns2, ns),
        bcast_nodes_ok(bm, sc, ns, bj),
    ensures
        bcast_nodes_ok(bm, sc, ns2, bj),
{
    assert forall|j: int| 0 <= j < bj && #[trigger] col_count(bm, j) > 1 implies ({
        let id = bcast_id(bm, sc, j) as int;
        let nd = ns2[id];
        &&& id < ns2.len()
        &&& nd.node_type == NodeType::Broadcast
        &&& nd.arity == col_count(bm, j)
        &&& nd.transfer_scalars == 2
        &&& nd.input_slots@ == seq![spec_input_addr(j) as usize]
        &&& nd.output_slots@ == seq![spec_temp_addr(id) as usize]
        &&& nd.param_handle is None
        &&& nd.deps@ == (if has_input(bm) {
            seq![input_id(bm) as NodeId]
        } else {
            Seq::empty()
        })
    }) by {
        assert(ns2[bcast_id(bm, sc, j) as int] == ns[bcast_id(bm, sc, j) as int]);
    }
}

pub(crate) proof fn lemma_extends_kernels(bm: BlockMat, sc: Seq<Seq<bool>>, ns: Seq<SchedNode>, ns2: Seq<SchedNode>, ki: int, kj: int)
    requires
        extends(ns2, ns),
        kernel_nodes_ok(bm, sc, ns, ki, kj),
    ensures
        kernel_nodes_ok(bm, sc, ns2, ki, kj),
{
    assert forall|a: int, b: int|
        0 <= a && 0 <= b < bm.cols && (a < ki || (a == ki && b < kj)) && #[trigger] nz(bm, a, b)
            implies kernel_node_ok(bm, sc, ns2, a, b) by {
        assert(kernel_node_ok(bm, sc, ns, a, b));
        assert(ns2[kernel_id(bm, sc, a, b) as int] == ns[kernel_id(bm, sc, a, b) as int]);
    }
}

pub(crate) proof fn lemma_extends_rows(bm: BlockMat, sc: Seq<Seq<bool>>, ns: Seq<SchedNode>, ns2: Seq<SchedNode>, outs: Seq<NodeId>, ri: int)
    requires
        extends(ns2, ns),
        row_nodes_ok(bm, sc, ns, outs, ri),
    ensures
        row_nodes_ok(bm, sc, ns2, outs, ri),
{
    assert forall|i: int| #![trigger outs[i]] #![trigger row_node_ok(bm, sc, ns2, i)] 0 <= i < ri implies outs[i] == row_id(bm, sc, i) && row_node_ok(bm, sc, ns2, i) by {
        assert(outs[i] == row_id(bm, sc, i));
        assert(row_node_ok(bm, sc, ns, i));
        assert(ns2[row_id(bm, sc, i) as int] == ns[row_id(bm, sc, i) as int]);
    }
}

/// The distinct parameters before `(i, j)` form a prefix of those before any
/// later position.
pub(crate) proof fn lemma_keys_prefix(bm: BlockMat, sc: Seq<Seq<bool>>, i: int, j: int, i2: int, j2: int)
    requires
        0 <= i,
        0 <= j <= bm.cols,
        0 <= j2 <= bm.cols,
        i < i2 || (i == i2 && j <= j2),
    ensures
        keys_upto(bm, sc, i, j).len() <= keys_upto(bm, sc, i2, j2).len(),
        forall|k: int|
            0 <= k < keys_upto(bm, sc, i, j).len() ==> #[trigger] keys_upto(bm, sc, i2, j2)[k]
                == keys_upto(bm, sc, i, j)[k],
    decreases i2, j2,
{
    if i == i2 && j == j2 {
    } else if j2 > 0 {
        if i < i2 || (i == i2 && j <= j2 - 1) {
            lemma_keys_prefix(bm, sc, i, j, i2, j2 - 1);
        }
    } else {
        lemma_keys_prefix(bm, sc, i, j, i2 - 1, bm.cols as int);
    }
}

pub(crate) proof fn lemma_keys_nodup(bm: BlockMat, sc: Seq<Seq<bool>>, i: int, j: int)
    ensures
        keys_upto(bm, sc, i, j).no_duplicates(),
        forall|k: int| 0 <= k < keys_upto(bm, sc, i, j).len() ==> keyed(#[trigger] keys_upto(bm, sc, i, j)[k]),
    decreases i, j,
{
    if i <= 0 && j <= 0 {
    } else if j <= 0 {
        lemma_keys_nodup(bm, sc, i - 1, bm.cols as int);
    } else {
        lemma_keys_nodup(bm, sc, i, j - 1);
    }
}

pub(crate) proof fn lemma_params_size_push(ks: Seq<ExecKernelRef>, e: ExecKernelRef)
    ensures
        params_size(ks.push(e)) == params_size(ks) + param_size(e),
{
    assert(ks.push(e).drop_last() =~= ks);
}

pub(crate) proof fn lemma_params_size_bound(ks: Seq<ExecKernelRef>)
    ensures
        params_size(ks) <= 4 * ks.len(),
    decreases ks.len(),
{
    if ks.len() > 0 {
        lemma_params_size_bound(ks.drop_last());
    }
}

pub(crate) proof fn lemma_count_row_bound(bm: BlockMat, i: int, j: int)
    ensures
        count_row(bm, i, j) <= if j < 0 { 0 } else { j },
    decreases j,
{
    if j > 0 {
        lemma_count_row_bound(bm, i, j - 1);
    }
}

pub(crate) proof fn lemma_nz_rows_bound(bm: BlockMat, i: int)
    requires
        0 <= i,
    ensures
        nz_rows_before(bm, i) <= i * bm.cols,
    decreases i,
{
    if i > 0 {
        lemma_nz_rows_bound(bm, i - 1);
        lemma_count_row_bound(bm, i - 1, bm.cols as int);
        assert((i - 1) * bm.cols + bm.cols == i * bm.cols) by (nonlinear_arith);
    }
}

pub(crate) proof fn lemma_nz_rows_mono(bm: BlockMat, i: int, i2: int)
    requires
        0 <= i <= i2,
    ensures
        nz_rows_before(bm, i) <= nz_rows_before(bm, i2),
    decreases i2,
{
    if i < i2 {
        lemma_nz_rows_mono(bm, i, i2 - 1);
    }
}

pub(crate) proof fn lemma_bcast_bound(bm: BlockMat, j: int)
    ensures
        bcast_before(bm, j) <= if j < 0 { 0 } else { j },
    decreases j,
{
    if j > 0 {
        lemma_bcast_bound(bm, j - 1);
    }
}

/// The matrix is small enough for every id and buffer address of its graph
/// to fit in a `usize`.
pub open spec fn lower_fits(bm: BlockMat) -> bool {
    bm.rows * bm.cols * 4 + 2 * bm.rows + 2 * bm.cols + 20004 <= usize::MAX
}

/// How `validate` refuses `bm` with error `e`.
pub open spec fn validation_fails_with(bm: BlockMat, e: ValidationError) -> bool {
    if bm.rows == 0 || bm.cols == 0 {
        e == ValidationError::ZeroDimension
    } else if bm.grid@.len() != bm.rows {
        e == ValidationError::RowCountMismatch { expected: bm.rows, actual: bm.grid@.len() as usize }
    } else {
        exists|i: int|
            0 <= i < bm.rows && bm.grid@[i]@.len() != bm.cols && (forall|k: int|
                0 <= k < i ==> #[trigger] bm.grid@[k]@.len() == bm.cols) && e == (
            ValidationError::ColCountMismatch {
                row: i as usize,
                expected: bm.cols,
                actual: bm.grid@[i]@.len() as usize,
            })
    }
}


/// Each node has its index as id and depends only on earlier nodes.
pub open spec fn ids_below(ns: Seq<SchedNode>) -> bool {
    &&& forall|id: int| 0 <= id < ns.len() ==> (#[trigger] ns[id]).id == id
    &&& forall|id: int, k: int| 0 <= id < ns.len() && 0 <= k < ns[id].deps@.len() ==> #[trigger] ns[id].deps@[k] < id
}

pub(crate) proof fn lemma_ids_below_push(ns: Seq<SchedNode>, nd: SchedNode)
    requires
        ids_below(ns),
        nd.id == ns.len(),
        forall|k: int| 0 <= k < nd.deps@.len() ==> #[trigger] nd.deps@[k] < ns.len(),
    ensures
        ids_below(ns.push(nd)),
        extends(ns.push(nd), ns),
{
    let ns2 = ns.push(nd);
    assert forall|id: int, k: int| 0 <= id < ns2.len() && 0 <= k < ns2[id].deps@.len() implies #[trigger] ns2[id].deps@[k] < id by {
        if id < ns.len() {
            assert(ns2[id] == ns[id]);
        }
    }
}

/// The distinct parameters of the matrix and their total size.
fn build_keys(bm: &BlockMat, scalar: &Vec<Vec<bool>>) -> (r: (Vec<ExecKernelRef>, usize))
    requires
        bm.well_formed(),
        lower_fits(*bm),
        flags(scalar).len() == bm.rows,
        forall|i: int| 0 <= i < bm.rows ==> #[trigger] flags(scalar)[i].len() == bm.cols,
    ensures
        r.0@ == param_keys(*bm, flags(scalar)),
        r.1 == params_size(r.0@),
        r.0@.len() <= bm.rows * bm.cols,
{
    let ghost sc = flags(scalar);
    let mut keys: Vec<ExecKernelRef> = Vec::new();
    let mut size: usize = 0;
    let mut i: usize = 0;
    proof {
        assert(keys@ =~= keys_upto(*bm, sc, 0, 0));
    }
    while i < bm.rows
        invariant
            bm.well_formed(),
            lower_fits(*bm),
            sc == flags(scalar),
            sc.len() == bm.rows,
            forall|q: int| 0 <= q < bm.rows ==> #[trigger] sc[q].len() == bm.cols,
            i <= bm.rows,
            keys@ == keys_upto(*bm, sc, i as int, 0),
            size == params_size(keys@),
            keys@.len() <= i * bm.cols,
        decreases bm.rows - i,
    {
        let mut j: usize = 0;
        proof {
            assert(i * bm.cols + bm.cols == (i + 1) * bm.cols) by (nonlinear_arith);
            assert((i + 1) * bm.cols <= bm.rows * bm.cols) by (nonlinear_arith)
                requires
                    i < bm.rows,
            ;
            if i > 0 {
                assert(keys_upto(*bm, sc, i as int, 0) == keys_upto(*bm, sc, i - 1, bm.cols as int));
            }
        }
        while j < bm.cols
            invariant
                bm.well_formed(),
                lower_fits(*bm),
                sc == flags(scalar),
                sc.len() == bm.rows,
                forall|q: int| 0 <= q < bm.rows ==> #[trigger] sc[q].len() == bm.cols,
                i < bm.rows,
                j <= bm.cols,
                keys@ == keys_upto(*bm, sc, i as int, j as int),
                size == params_size(keys@),
                keys@.len() <= i * bm.cols + j,
                (i + 1) * bm.cols <= bm.rows * bm.cols,
                i * bm.cols + bm.cols == (i + 1) * bm.cols,
            decreases bm.cols - j,
        {
            let flag = scalar[i][j];
            proof {
                assert(flag == sc[i as int][j as int]);
            }
            let e = ExecKernelRef::from_kernel_ref(&bm.grid[i][j], flag);
            let ghost prev = keys@;
            let is_keyed = match e {
                ExecKernelRef::General(_) => true,
                ExecKernelRef::Scalar(_) => true,
                _ => false,
            };
            if is_keyed {
                let at = find_param(&keys, &e);
                if at == keys.len() {
                    let add = match e {
                        ExecKernelRef::General(_) => 4,
                        _ => 1,
                    };
                    proof {
                        lemma_params_size_bound(keys@);
                        lemma_params_size_push(keys@, e);
                        assert(keys@.len() < bm.rows * bm.cols);
                    }
                    keys.push(e);
                    size = size + add;
                }
            }
            proof {
                assert(e == exec_cell(*bm, sc, i as int, j as int));
                assert(keys_upto(*bm, sc, i as int, j + 1) == (if keyed(e) && !prev.contains(e) {
                    prev.push(e)
                } else {
                    prev
                }));
            }
            j = j + 1;
        }
        i = i + 1;
        proof {
            assert(keys_upto(*bm, sc, i as int, 0) == keys_upto(*bm, sc, i - 1, bm.cols as int));
        }
    }
    (keys, size)
}


/// What lowering needs: a well-formed matrix of addressable size, with one
/// scalar-test outcome per block.
pub open spec fn lower_ready(bm: BlockMat, sc: Seq<Seq<bool>>) -> bool {
    &&& bm.well_formed()
    &&& lower_fits(bm)
    &&& sc.len() == bm.rows
    &&& forall|i: int| 0 <= i < bm.rows ==> #[trigger] sc[i].len() == bm.cols
}

pub(crate) proof fn lemma_sizes(bm: BlockMat, sc: Seq<Seq<bool>>)
    requires
        lower_ready(bm, sc),
    ensures
        nnz(bm) <= bm.rows * bm.cols,
        bcast_before(bm, bm.cols as int) <= bm.cols,
        node_count(bm, sc) <= bm.rows * bm.cols + bm.rows + bm.cols + 3,
        node_count(bm, sc) + 20000 < usize::MAX,
        live_cols(bm).len() <= bm.cols,
{
    lemma_nz_rows_bound(bm, bm.rows as int);
    lemma_bcast_bound(bm, bm.cols as int);
    lemma_live_bound(bm, bm.cols as int);
}

pub(crate) proof fn lemma_live_bound(bm: BlockMat, j: int)
    ensures
        live_upto(bm, j).len() <= if j < 0 { 0 } else { j },
    decreases j,
{
    if j > 0 {
        lemma_live_bound(bm, j - 1);
    }
}

/// Pushes the broadcast nodes; returns, for each column, the id its
/// broadcast node has (or would have).
fn push_broadcasts(
    bm: &BlockMat,
    scalar: &Vec<Vec<bool>>,
    cc: &Vec<usize>,
    has_in: bool,
    nodes: &mut Vec<SchedNode>,
) -> (bcast_of: Vec<usize>)
    requires
        lower_ready(*bm, flags(scalar)),
        cc@.len() == bm.cols,
        forall|j: int| 0 <= j < bm.cols ==> #[trigger] cc@[j] == col_count(*bm, j),
        has_in == has_input(*bm),
        old(nodes)@.len() == bcast_base(*bm, flags(scalar)),
        ids_below(old(nodes)@),
    ensures
        extends(final(nodes)@, old(nodes)@),
        ids_below(final(nodes)@),
        final(nodes)@.len() == kernel_base(*bm, flags(scalar)),
        bcast_nodes_ok(*bm, flags(scalar), final(nodes)@, bm.cols as int),
        bcast_of@.len() == bm.cols,
        forall|j: int| 0 <= j < bm.cols ==> #[trigger] bcast_of@[j] == bcast_id(*bm, flags(scalar), j),
{
    let ghost sc = flags(scalar);
    let ghost start = nodes@;
    proof {
        lemma_sizes(*bm, sc);
    }
    let mut bcast_of: Vec<usize> = Vec::new();
    let mut j: usize = 0;
    while j < bm.cols
        invariant
            lower_ready(*bm, sc),
            sc == flags(scalar),
            cc@.len() == bm.cols,
            forall|q: int| 0 <= q < bm.cols ==> #[trigger] cc@[q] == col_count(*bm, q),
            has_in == has_input(*bm),
            node_count(*bm, sc) + 20000 < usize::MAX,
            kernel_base(*bm, sc) <= node_count(*bm, sc),
            j <= bm.cols,
            nodes@.len() == bcast_base(*bm, sc) + bcast_before(*bm, j as int),
            extends(nodes@, start),
            ids_below(nodes@),
            bcast_nodes_ok(*bm, sc, nodes@, j as int),
            bcast_of@.len() == j,
            forall|q: int| 0 <= q < j ==> #[trigger] bcast_of@[q] == bcast_id(*bm, sc, q),
        decreases bm.cols - j,
    {
        proof {
            lemma_bcast_mono(*bm, j + 1, bm.cols as int);
        }
        let id = nodes.len();
        bcast_of.push(id);
        let ghost old_nodes = nodes@;
        if cc[j] > 1 {
            let deps: Vec<NodeId> = if has_in {
                single(0)
            } else {
                Vec::new()
            };
            let nd = SchedNode {
                id,
                node_type: NodeType::Broadcast,
                arity: cc[j],
                transfer_scalars: 2,
                input_slots: single(input_addr(j)),
                output_slots: single(temp_addr(id)),
                param_handle: None,
                deps,
            };
            proof {
                lemma_ids_below_push(old_nodes, nd);
            }
            nodes.push(nd);
            proof {
                lemma_bcast_step(*bm, sc, old_nodes, nd, j as int);
            }
        } else {
            proof {
                lemma_bcast_skip(*bm, sc, nodes@, j as int);
            }
        }
        proof {
            lemma_extends_trans(start, old_nodes, nodes@);
        }
        j = j + 1;
    }
    bcast_of
}

pub(crate) proof fn lemma_bcast_mono(bm: BlockMat, j: int, j2: int)
    requires
        j <= j2,
    ensures
        bcast_before(bm, j) <= bcast_before(bm, j2),
    decreases j2 - j,
{
    if j < j2 {
        lemma_bcast_mono(bm, j, j2 - 1);
    }
}


pub(crate) proof fn lemma_extends_trans(a: Seq<SchedNode>, b: Seq<SchedNode>, c: Seq<SchedNode>)
    requires
        extends(b, a),
        extends(c, b),
    ensures
        extends(c, a),
{
    assert forall|k: int| 0 <= k < a.len() implies #[trigger] c[k] == a[k] by {
        assert(b[k] == a[k]);
    }
}

pub(crate) proof fn lemma_bcast_skip(bm: BlockMat, sc: Seq<Seq<bool>>, ns: Seq<SchedNode>, j: int)
    requires
        bcast_nodes_ok(bm, sc, ns, j),
        col_count(bm, j) <= 1,
    ensures
        bcast_nodes_ok(bm, sc, ns, j + 1),
{
}

pub(crate) proof fn lemma_bcast_step(bm: BlockMat, sc: Seq<Seq<bool>>, ns: Seq<SchedNode>, nd: SchedNode, j: int)
    requires
        bcast_nodes_ok(bm, sc, ns, j),
        0 <= j,
        col_count(bm, j) > 1,
        ns.len() == bcast_base(bm, sc) + bcast_before(bm, j),
        nd.id == ns.len(),
        nd.node_type == NodeType::Broadcast,
        nd.arity == col_count(bm, j),
        nd.transfer_scalars == 2,
        nd.input_slots@ == seq![j as usize],
        nd.output_slots@ == seq![(20000 + ns.len()) as usize],
        nd.param_handle is None,
        has_input(bm) ==> nd.deps@ == seq![0usize],
        !has_input(bm) ==> nd.deps@.len() == 0,
    ensures
        bcast_nodes_ok(bm, sc, ns.push(nd), j + 1),
{
    let ns2 = ns.push(nd);
    assert forall|q: int| 0 <= q < j + 1 && #[trigger] col_count(bm, q) > 1 implies ({
        let id = bcast_id(bm, sc, q) as int;
        let x = ns2[id];
        &&& id < ns2.len()
        &&& x.node_type == NodeType::Broadcast
        &&& x.arity == col_count(bm, q)
        &&& x.transfer_scalars == 2
        &&& x.input_slots@ == seq![spec_input_addr(q) as usize]
        &&& x.output_slots@ == seq![spec_temp_addr(id) as usize]
        &&& x.param_handle is None
        &&& x.deps@ == (if has_input(bm) {
            seq![input_id(bm) as NodeId]
        } else {
            Seq::empty()
        })
    }) by {
        if q < j {
            assert(ns2[bcast_id(bm, sc, q) as int] == ns[bcast_id(bm, sc, q) as int]);
        } else {
            assert(bcast_id(bm, sc, q) == ns.len());
            if !has_input(bm) {
                assert(nd.deps@ =~= Seq::<NodeId>::empty());
            }
        }
    }
}


pub(crate) proof fn lemma_kernel_skip(bm: BlockMat, sc: Seq<Seq<bool>>, ns: Seq<SchedNode>, i: int, j: int)
    requires
        kernel_nodes_ok(bm, sc, ns, i, j),
        !nz(bm, i, j),
    ensures
        kernel_nodes_ok(bm, sc, ns, i, j + 1),
{
}

pub(crate) proof fn lemma_kernel_next_row(bm: BlockMat, sc: Seq<Seq<bool>>, ns: Seq<SchedNode>, i: int)
    requires
        kernel_nodes_ok(bm, sc, ns, i, bm.cols as int),
    ensures
        kernel_nodes_ok(bm, sc, ns, i + 1, 0),
{
}

pub(crate) proof fn lemma_kernel_step(bm: BlockMat, sc: Seq<Seq<bool>>, ns: Seq<SchedNode>, nd: SchedNode, i: int, j: int)
    requires
        kernel_nodes_ok(bm, sc, ns, i, j),
        0 <= i,
        0 <= j < bm.cols,
        nz(bm, i, j),
        ns.len() == kernel_id(bm, sc, i, j),
        ({
            let e = exec_cell(bm, sc, i, j);
            let keys = param_keys(bm, sc);
            &&& nd.node_type == (if e is Id {
                NodeType::Direct
            } else {
                NodeType::Core(e)
            })
            &&& nd.arity == 1
            &&& nd.transfer_scalars == 0
            &&& nd.input_slots@ == seq![kernel_input(bm, sc, j) as usize]
            &&& nd.output_slots@ == seq![spec_temp_addr(ns.len() as int) as usize]
            &&& (keyed(e) ==> (nd.param_handle matches Some(h) && h < keys.len() && keys[h as int] == e))
            &&& (!keyed(e) ==> nd.param_handle is None)
            &&& nd.deps@ == kernel_deps(bm, sc, i, j)
        }),
    ensures
        kernel_nodes_ok(bm, sc, ns.push(nd), i, j + 1),
{
    let ns2 = ns.push(nd);
    assert forall|a: int, b: int|
        0 <= a && 0 <= b < bm.cols && (a < i || (a == i && b < j + 1)) && #[trigger] nz(bm, a, b)
            implies kernel_node_ok(bm, sc, ns2, a, b) by {
        if a == i && b == j {
            assert(ns2[ns.len() as int] == nd);
        } else {
            assert(kernel_node_ok(bm, sc, ns, a, b));
            assert(ns2[kernel_id(bm, sc, a, b) as int] == ns[kernel_id(bm, sc, a, b) as int]);
        }
    }
}

/// A block that carries a parameter finds it among the distinct parameters.
pub(crate) proof fn lemma_keyed_in_keys(bm: BlockMat, sc: Seq<Seq<bool>>, i: int, j: int)
    requires
        0 <= i < bm.rows,
        0 <= j < bm.cols,
        keyed(exec_cell(bm, sc, i, j)),
    ensures
        param_keys(bm, sc).contains(exec_cell(bm, sc, i, j)),
        has_param(bm, sc),
{
    let e = exec_cell(bm, sc, i, j);
    let pre = keys_upto(bm, sc, i, j + 1);
    assert(pre.contains(e)) by {
        let prev = keys_upto(bm, sc, i, j);
        if !prev.contains(e) {
            assert(pre == prev.push(e));
            assert(pre[prev.len() as int] == e);
        } else {
            let k = choose|k: int| 0 <= k < prev.len() && prev[k] == e;
            assert(pre == prev);
        }
    }
    lemma_keys_prefix(bm, sc, i, j + 1, bm.rows as int, 0);
    let k = choose|k: int| 0 <= k < pre.len() && pre[k] == e;
    assert(param_keys(bm, sc)[k] == e);
}

/// Pushes one kernel node per non-zero block, in row-major order.
fn push_kernels(
    bm: &BlockMat,
    scalar: &Vec<Vec<bool>>,
    cc: &Vec<usize>,
    bcast_of: &Vec<usize>,
    keys: &Vec<ExecKernelRef>,
    has_in: bool,
    pid: usize,
    nodes: &mut Vec<SchedNode>,
)
    requires
        lower_ready(*bm, flags(scalar)),
        cc@.len() == bm.cols,
        forall|j: int| 0 <= j < bm.cols ==> #[trigger] cc@[j] == col_count(*bm, j),
        bcast_of@.len() == bm.cols,
        forall|j: int| 0 <= j < bm.cols ==> #[trigger] bcast_of@[j] == bcast_id(*bm, flags(scalar), j),
        keys@ == param_keys(*bm, flags(scalar)),
        has_in == has_input(*bm),
        pid == param_id(*bm),
        old(nodes)@.len() == kernel_base(*bm, flags(scalar)),
        ids_below(old(nodes)@),
    ensures
        extends(final(nodes)@, old(nodes)@),
        ids_below(final(nodes)@),
        final(nodes)@.len() == row_base(*bm, flags(scalar)),
        kernel_nodes_ok(*bm, flags(scalar), final(nodes)@, bm.rows as int, 0),
{
    let ghost sc = flags(scalar);
    let ghost start = nodes@;
    proof {
        lemma_sizes(*bm, sc);
        lemma_nz_rows_mono(*bm, 0, bm.rows as int);
    }
    let mut i: usize = 0;
    while i < bm.rows
        invariant
            lower_ready(*bm, sc),
            sc == flags(scalar),
            cc@.len() == bm.cols,
            forall|q: int| 0 <= q < bm.cols ==> #[trigger] cc@[q] == col_count(*bm, q),
            bcast_of@.len() == bm.cols,
            forall|q: int| 0 <= q < bm.cols ==> #[trigger] bcast_of@[q] == bcast_id(*bm, sc, q),
            keys@ == param_keys(*bm, sc),
            has_in == has_input(*bm),
            pid == param_id(*bm),
            node_count(*bm, sc) + 20000 < usize::MAX,
            i <= bm.rows,
            nodes@.len() == kernel_base(*bm, sc) + nz_rows_before(*bm, i as int),
            extends(nodes@, start),
            ids_below(nodes@),
            kernel_nodes_ok(*bm, sc, nodes@, i as int, 0),
        decreases bm.rows - i,
    {
        proof {
            lemma_nz_rows_mono(*bm, i + 1, bm.rows as int);
        }
        let mut j: usize = 0;
        while j < bm.cols
            invariant
                lower_ready(*bm, sc),
                sc == flags(scalar),
                cc@.len() == bm.cols,
                forall|q: int| 0 <= q < bm.cols ==> #[trigger] cc@[q] == col_count(*bm, q),
                bcast_of@.len() == bm.cols,
                forall|q: int| 0 <= q < bm.cols ==> #[trigger] bcast_of@[q] == bcast_id(*bm, sc, q),
                keys@ == param_keys(*bm, sc),
                has_in == has_input(*bm),
                pid == param_id(*bm),
                node_count(*bm, sc) + 20000 < usize::MAX,
                i < bm.rows,
                nz_rows_before(*bm, i + 1) <= nnz(*bm),
                j <= bm.cols,
                nodes@.len() == kernel_base(*bm, sc) + nz_before(*bm, i as int, j as int),
                extends(nodes@, start),
                ids_below(nodes@),
                kernel_nodes_ok(*bm, sc, nodes@, i as int, j as int),
            decreases bm.cols - j,
        {
            let ghost old_nodes = nodes@;
            proof {
                lemma_count_row_mono(*bm, i as int, j + 1, bm.cols as int);
            }
            if !kernel_is_zero(&bm.grid[i][j]) {
                let id = nodes.len();
                let flag = scalar[i][j];
                proof {
                    assert(flag == sc[i as int][j as int]);
                }
                let e = ExecKernelRef::from_kernel_ref(&bm.grid[i][j], flag);
                let node_type = match e {
                    ExecKernelRef::Id => NodeType::Direct,
                    _ => NodeType::Core(e),
                };
                proof {
                    lemma_bcast_mono(*bm, j + 1, bm.cols as int);
                    if has_in {
                        assert(param_id(*bm) == 1);
                    }
                }
                let input_slot = if cc[j] > 1 {
                    temp_addr(bcast_of[j])
                } else {
                    input_addr(j)
                };
                let mut deps: Vec<NodeId> = if cc[j] > 1 {
                    single(bcast_of[j])
                } else if has_in {
                    single(0)
                } else {
                    Vec::new()
                };
                let is_keyed = match e {
                    ExecKernelRef::General(_) => true,
                    ExecKernelRef::Scalar(_) => true,
                    _ => false,
                };
                let param_handle = if is_keyed {
                    proof {
                        lemma_keyed_in_keys(*bm, sc, i as int, j as int);
                    }
                    let h = find_param(keys, &e);
                    deps.push(pid);
                    Some(h)
                } else {
                    None
                };
                let nd = SchedNode {
                    id,
                    node_type,
                    arity: 1,
                    transfer_scalars: 0,
                    input_slots: single(input_slot),
                    output_slots: single(temp_addr(id)),
                    param_handle,
                    deps,
                };
                proof {
                    assert(e == exec_cell(*bm, sc, i as int, j as int));
                    lemma_bcast_mono(*bm, j as int, bm.cols as int);
                    if cc@[j as int] > 1 && is_keyed {
                        assert(nd.deps@ =~= seq![bcast_id(*bm, sc, j as int) as NodeId].push(pid));
                    } else if cc@[j as int] > 1 {
                        assert(nd.deps@ =~= seq![bcast_id(*bm, sc, j as int) as NodeId]);
                    } else if has_in && is_keyed {
                        assert(nd.deps@ =~= seq![0usize].push(pid));
                    } else if has_in {
                        assert(nd.deps@ =~= seq![0usize]);
                    } else if is_keyed {
                        assert(nd.deps@ =~= Seq::<NodeId>::empty().push(pid));
                    } else {
                        assert(nd.deps@ =~= Seq::<NodeId>::empty());
                    }
                    assert(nd.deps@ == kernel_deps(*bm, sc, i as int, j as int));
                    lemma_ids_below_push(old_nodes, nd);
                    lemma_kernel_step(*bm, sc, old_nodes, nd, i as int, j as int);
                }
                nodes.push(nd);
            } else {
                proof {
                    lemma_kernel_skip(*bm, sc, nodes@, i as int, j as int);
                }
            }
            proof {
                lemma_extends_trans(start, old_nodes, nodes@);
            }
            j = j + 1;
        }
        proof {
            lemma_kernel_next_row(*bm, sc, nodes@, i as int);
        }
        i = i + 1;
    }
}


pub(crate) proof fn lemma_rows_step(
    bm: BlockMat,
    sc: Seq<Seq<bool>>,
    ns: Seq<SchedNode>,
    outs: Seq<NodeId>,
    nd: SchedNode,
    i: int,
)
    requires
        row_nodes_ok(bm, sc, ns, outs, i),
        0 <= i,
        ns.len() == row_id(bm, sc, i),
        ns.len() < usize::MAX,
        ({
            let base = kernel_base(bm, sc) + nz_rows_before(bm, i);
            &&& nd.node_type == row_type(row_count(bm, i))
            &&& nd.arity == row_count(bm, i)
            &&& nd.transfer_scalars == 0
            &&& nd.deps@ == Seq::new(row_count(bm, i), |t: int| (base + t) as NodeId)
            &&& nd.input_slots@ == Seq::new(row_count(bm, i), |t: int| spec_temp_addr(base + t) as usize)
            &&& nd.output_slots@ == seq![spec_output_addr(i) as usize]
            &&& nd.param_handle is None
        }),
    ensures
        row_nodes_ok(bm, sc, ns.push(nd), outs.push(ns.len() as NodeId), i + 1),
{
    let ns2 = ns.push(nd);
    let outs2 = outs.push(ns.len() as NodeId);
    assert forall|q: int| #![trigger outs2[q]] #![trigger row_node_ok(bm, sc, ns2, q)] 0 <= q < i + 1 implies outs2[q] == row_id(bm, sc, q) && row_node_ok(bm, sc, ns2, q) by {
        if q < i {
            assert(outs[q] == row_id(bm, sc, q) && row_node_ok(bm, sc, ns, q));
            assert(ns2[row_id(bm, sc, q) as int] == ns[row_id(bm, sc, q) as int]);
        } else {
            assert(ns2[ns.len() as int] == nd);
        }
    }
}

/// Pushes one output node per row; returns their ids.
fn push_rows(bm: &BlockMat, scalar: &Vec<Vec<bool>>, kbase: usize, nodes: &mut Vec<SchedNode>) -> (outs: Vec<NodeId>)
    requires
        lower_ready(*bm, flags(scalar)),
        kbase == kernel_base(*bm, flags(scalar)),
        old(nodes)@.len() == row_base(*bm, flags(scalar)),
        ids_below(old(nodes)@),
    ensures
        extends(final(nodes)@, old(nodes)@),
        ids_below(final(nodes)@),
        final(nodes)@.len() == wb_id(*bm, flags(scalar)),
        row_nodes_ok(*bm, flags(scalar), final(nodes)@, outs@, bm.rows as int),
{
    let ghost sc = flags(scalar);
    let ghost start = nodes@;
    proof {
        lemma_sizes(*bm, sc);
    }
    let mut outs: Vec<NodeId> = Vec::new();
    let mut kidx: usize = kbase;
    let mut i: usize = 0;
    while i < bm.rows
        invariant
            lower_ready(*bm, sc),
            sc == flags(scalar),
            node_count(*bm, sc) + 20000 < usize::MAX,
            i <= bm.rows,
            kidx == kernel_base(*bm, sc) + nz_rows_before(*bm, i as int),
            nodes@.len() == row_base(*bm, sc) + i,
            extends(nodes@, start),
            ids_below(nodes@),
            row_nodes_ok(*bm, sc, nodes@, outs@, i as int),
        decreases bm.rows - i,
    {
        proof {
            lemma_nz_rows_mono(*bm, i + 1, bm.rows as int);
        }
        let ghost base = kidx as int;
        let mut deps: Vec<NodeId> = Vec::new();
        let mut slots: Vec<BufferAddr> = Vec::new();
        let mut j: usize = 0;
        while j < bm.cols
            invariant
                lower_ready(*bm, sc),
                node_count(*bm, sc) + 20000 < usize::MAX,
                i < bm.rows,
                nz_rows_before(*bm, i + 1) <= nnz(*bm),
                base == kernel_base(*bm, sc) + nz_rows_before(*bm, i as int),
                j <= bm.cols,
                kidx == base + count_row(*bm, i as int, j as int),
                deps@ == Seq::new(count_row(*bm, i as int, j as int), |t: int| (base + t) as NodeId),
                slots@ == Seq::new(count_row(*bm, i as int, j as int), |t: int| spec_temp_addr(base + t) as usize),
            decreases bm.cols - j,
        {
            proof {
                lemma_count_row_mono(*bm, i as int, j + 1, bm.cols as int);
            }
            if !kernel_is_zero(&bm.grid[i][j]) {
                let ghost d0 = deps@;
                let ghost s0 = slots@;
                deps.push(kidx);
                slots.push(temp_addr(kidx));
                kidx = kidx + 1;
                proof {
                    assert(deps@ =~= Seq::new(count_row(*bm, i as int, j + 1), |t: int| (base + t) as NodeId));
                    assert(slots@ =~= Seq::new(count_row(*bm, i as int, j + 1), |t: int| spec_temp_addr(base + t) as usize));
                }
            }
            j = j + 1;
        }
        let id = nodes.len();
        let k = deps.len();
        let node_type = if k == 0 {
            NodeType::ZeroFill
        } else if k == 1 {
            NodeType::Direct
        } else {
            NodeType::Reduce
        };
        let nd = SchedNode {
            id,
            node_type,
            arity: k,
            transfer_scalars: 0,
            input_slots: slots,
            output_slots: single(output_addr(i)),
            param_handle: None,
            deps,
        };
        let ghost old_nodes = nodes@;
        let ghost old_outs = outs@;
        proof {
            assert forall|t: int| 0 <= t < nd.deps@.len() implies #[trigger] nd.deps@[t] < old_nodes.len() by {
            }
            lemma_ids_below_push(old_nodes, nd);
            lemma_rows_step(*bm, sc, old_nodes, old_outs, nd, i as int);
        }
        nodes.push(nd);
        outs.push(id);
        proof {
            lemma_extends_trans(start, old_nodes, nodes@);
        }
        i = i + 1;
    }
    outs
}

/// The buffer addresses `base + x` of a list of ids.
fn temp_slots(xs: &Vec<NodeId>) -> (v: Vec<BufferAddr>)
    requires
        forall|k: int| 0 <= k < xs@.len() ==> #[trigger] xs@[k] + 20000 <= usize::MAX,
    ensures
        v@ == Seq::new(xs@.len(), |k: int| spec_temp_addr(xs@[k] as int) as usize),
{
    let mut v: Vec<BufferAddr> = Vec::new();
    let mut k: usize = 0;
    while k < xs.len()
        invariant
            k <= xs@.len(),
            forall|q: int| 0 <= q < xs@.len() ==> #[trigger] xs@[q] + 20000 <= usize::MAX,
            v@ == Seq::new(k as nat, |q: int| spec_temp_addr(xs@[q] as int) as usize),
        decreases xs@.len() - k,
    {
        v.push(temp_addr(xs[k]));
        k = k + 1;
        assert(v@ =~= Seq::new(k as nat, |q: int| spec_temp_addr(xs@[q] as int) as usize));
    }
    v
}

/// The output buffer addresses of rows `0..n`.
fn output_slots(n: usize) -> (v: Vec<BufferAddr>)
    requires
        n + 10000 <= usize::MAX,
    ensures
        v@ == Seq::new(n as nat, |i: int| spec_output_addr(i) as usize),
{
    let mut v: Vec<BufferAddr> = Vec::new();
    let mut i: usize = 0;
    while i < n
        invariant
            i <= n,
            n + 10000 <= usize::MAX,
            v@ == Seq::new(i as nat, |q: int| spec_output_addr(q) as usize),
        decreases n - i,
    {
        v.push(output_addr(i));
        i = i + 1;
        assert(v@ =~= Seq::new(i as nat, |q: int| spec_output_addr(q) as usize));
    }
    v
}


/// A graph whose nodes each depend only on earlier nodes is well formed.
pub(crate) proof fn lemma_ids_below_well_formed(g: SchedGraph)
    requires
        ids_below(g.nodes@),
    ensures
        g.well_formed(),
{
    let rank = |u: int| if u >= 0 { u as nat } else { 0nat };
    assert(g.ranked_by(rank));
}

/// Lowers a block matrix to its scheduling graph.
///
/// `scalar[i][j]` is the outcome of the scalar test (R3) on block `(i, j)`.
/// The matrix is validated first and its error returned; otherwise the graph
/// is the one `lowered` describes, and it is well formed.
pub fn lower(bm: &BlockMat, scalar: &Vec<Vec<bool>>) -> (r: Result<SchedGraph, ValidationError>)
    requires
        bm.well_formed() ==> lower_ready(*bm, flags(scalar)),
    ensures
        r is Err <==> !bm.well_formed(),
        r matches Err(e) ==> validation_fails_with(*bm, e),
        r matches Ok(g) ==> lowered(*bm, flags(scalar), g) && g.well_formed(),
{
    match bm.validate() {
        Err(e) => {
            return Err(e);
        },
        Ok(()) => {},
    }
    let ghost sc = flags(scalar);
    proof {
        lemma_sizes(*bm, sc);
        lemma_keys_nodup(*bm, sc, bm.rows as int, 0);
    }
    let cc = column_counts(bm);
    let rc = row_counts(bm);
    let perm = is_permutation(bm, &rc, &cc);
    proof {
        lemma_perm_shape(*bm);
    }
    let live = live_columns(bm, &cc);
    let (keys, psize) = build_keys(bm, scalar);
    let has_in = !perm && live.len() > 0;
    let mut nodes: Vec<SchedNode> = Vec::new();
    proof {
        assert(ids_below(nodes@));
    }
    if has_in {
        let nd = SchedNode {
            id: 0,
            node_type: NodeType::InputRead,
            arity: live.len(),
            transfer_scalars: live.len() * 2,
            input_slots: copy_ids(&live),
            output_slots: copy_ids(&live),
            param_handle: None,
            deps: Vec::new(),
        };
        proof {
            lemma_ids_below_push(nodes@, nd);
        }
        nodes.push(nd);
    }
    let ghost after_input = nodes@;
    proof {
        assert(input_node_ok(*bm, nodes@));
    }
    let pid = nodes.len();
    if keys.len() > 0 {
        let nd = SchedNode {
            id: pid,
            node_type: NodeType::ParamLoad,
            arity: keys.len(),
            transfer_scalars: psize,
            input_slots: Vec::new(),
            output_slots: Vec::new(),
            param_handle: None,
            deps: Vec::new(),
        };
        proof {
            lemma_ids_below_push(nodes@, nd);
            lemma_extends_input(*bm, after_input, nodes@.push(nd));
        }
        nodes.push(nd);
    }
    let ghost after_param = nodes@;
    proof {
        assert(param_node_ok(*bm, sc, nodes@));
        assert(input_node_ok(*bm, nodes@)) by {
            if keys@.len() == 0 {
                assert(nodes@ == after_input);
            }
        }
    }
    let bcast_of = push_broadcasts(bm, scalar, &cc, has_in, &mut nodes);
    let ghost after_bcast = nodes@;
    proof {
        lemma_extends_input(*bm, after_param, nodes@);
        lemma_extends_param(*bm, sc, after_param, nodes@);
    }
    let kbase = nodes.len();
    push_kernels(bm, scalar, &cc, &bcast_of, &keys, has_in, pid, &mut nodes);
    let ghost after_kernels = nodes@;
    proof {
        lemma_extends_input(*bm, after_bcast, nodes@);
        lemma_extends_param(*bm, sc, after_bcast, nodes@);
        lemma_extends_bcast(*bm, sc, after_bcast, nodes@, bm.cols as int);
    }
    let outs = push_rows(bm, scalar, kbase, &mut nodes);
    proof {
        lemma_extends_input(*bm, after_kernels, nodes@);
        lemma_extends_param(*bm, sc, after_kernels, nodes@);
        lemma_extends_bcast(*bm, sc, after_kernels, nodes@, bm.cols as int);
        lemma_extends_kernels(*bm, sc, after_kernels, nodes@, bm.rows as int, 0);
    }
    if !perm {
        let ghost before = nodes@;
        let id = nodes.len();
        proof {
            assert forall|k: int| 0 <= k < outs@.len() implies #[trigger] outs@[k] + 20000 <= usize::MAX by {
                assert(outs@[k] == row_id(*bm, sc, k));
            }
        }
        let nd = SchedNode {
            id,
            node_type: NodeType::WriteBack,
            arity: bm.rows,
            transfer_scalars: bm.rows * 2,
            input_slots: temp_slots(&outs),
            output_slots: output_slots(bm.rows),
            param_handle: None,
            deps: copy_ids(&outs),
        };
        proof {
            assert forall|k: int| 0 <= k < nd.deps@.len() implies #[trigger] nd.deps@[k] < before.len() by {
                assert(outs@[k] == row_id(*bm, sc, k));
            }
            lemma_ids_below_push(before, nd);
        }
        nodes.push(nd);
        proof {
            lemma_extends_input(*bm, before, nodes@);
            lemma_extends_param(*bm, sc, before, nodes@);
            lemma_extends_bcast(*bm, sc, before, nodes@, bm.cols as int);
            lemma_extends_kernels(*bm, sc, before, nodes@, bm.rows as int, 0);
            lemma_extends_rows(*bm, sc, before, nodes@, outs@, bm.rows as int);
            assert(nd.input_slots@ =~= Seq::new(bm.rows as nat, |i: int| spec_temp_addr(row_id(*bm, sc, i) as int) as usize));
        }
    }
    let g = SchedGraph { nodes, output_nodes: outs };
    proof {
        lemma_ids_below_well_formed(g);
    }
    Ok(g)
}


// ------------------------------------------------------------------
// Laws of lowering
// ------------------------------------------------------------------
/// Without `General` blocks there is no parameter to load.
pub(crate) proof fn lemma_no_keys_without_general(bm: BlockMat, sc: Seq<Seq<bool>>, i: int, j: int)
    requires
        bm.well_formed(),
        forall|a: int, b: int|
            0 <= a < bm.rows && 0 <= b < bm.cols ==> (#[trigger] bm.cell(a, b) is Id || bm.cell(a, b) is Zero),
        0 <= i <= bm.rows,
        0 <= j <= bm.cols,
        i == bm.rows ==> j == 0,
    ensures
        keys_upto(bm, sc, i, j).len() == 0,
    decreases i, j,
{
    if i <= 0 && j <= 0 {
    } else if j <= 0 {
        lemma_no_keys_without_general(bm, sc, i - 1, bm.cols as int);
    } else {
        lemma_no_keys_without_general(bm, sc, i, j - 1);
        assert(bm.cell(i, j - 1) is Id || bm.cell(i, j - 1) is Zero);
    }
}

/// Columns of fan-out one need no broadcast.
pub(crate) proof fn lemma_no_bcast_single_cols(bm: BlockMat, j: int)
    requires
        0 <= j <= bm.cols,
        forall|q: int| 0 <= q < bm.cols ==> #[trigger] col_count(bm, q) == 1,
    ensures
        bcast_before(bm, j) == 0,
    decreases j,
{
    if j > 0 {
        lemma_no_bcast_single_cols(bm, j - 1);
        assert(col_count(bm, j - 1) == 1);
    }
}

/// With one non-zero block per row, row `i` starts after `i` blocks.
pub(crate) proof fn lemma_nz_rows_single(bm: BlockMat, i: int)
    requires
        0 <= i <= bm.rows,
        forall|q: int| 0 <= q < bm.rows ==> #[trigger] row_count(bm, q) == 1,
    ensures
        nz_rows_before(bm, i) == i,
    decreases i,
{
    if i > 0 {
        lemma_nz_rows_single(bm, i - 1);
        assert(row_count(bm, i - 1) == 1);
    }
}

/// A row with a non-zero block before column `j` has a first one.
pub(crate) proof fn lemma_first_nz(bm: BlockMat, i: int, j: int)
    requires
        count_row(bm, i, j) > 0,
    ensures
        exists|b: int| 0 <= b < j && #[trigger] nz(bm, i, b) && count_row(bm, i, b) == 0,
    decreases j,
{
    if j > 0 {
        if count_row(bm, i, j - 1) > 0 {
            lemma_first_nz(bm, i, j - 1);
        } else {
            assert(nz(bm, i, j - 1) && count_row(bm, i, j - 1) == 0);
        }
    }
}

/// A block permutation lowers to pass-through nodes only: no input read, no
/// parameter load, no broadcast and no write-back, just one `Direct` node per
/// block and one per row.
pub proof fn lemma_permutation_lowers_to_direct(bm: BlockMat, sc: Seq<Seq<bool>>, g: SchedGraph)
    requires
        bm.well_formed(),
        is_perm(bm),
        lowered(bm, sc, g),
    ensures
        g.nodes@.len() == 2 * bm.rows,
        forall|u: int| 0 <= u < g.nodes@.len() ==> (#[trigger] g.nodes@[u]).node_type == NodeType::Direct,
{
    let ns = g.nodes@;
    let n = bm.rows as int;
    lemma_no_keys_without_general(bm, sc, n, 0);
    lemma_no_bcast_single_cols(bm, bm.cols as int);
    lemma_nz_rows_single(bm, n);
    assert(kernel_base(bm, sc) == 0);
    assert(row_base(bm, sc) == n);
    assert forall|u: int| 0 <= u < ns.len() implies (#[trigger] ns[u]).node_type == NodeType::Direct by {
        if u < n {
            lemma_nz_rows_single(bm, u);
            assert(row_count(bm, u) == 1);
            lemma_first_nz(bm, u, bm.cols as int);
            let b = choose|b: int| 0 <= b < bm.cols && #[trigger] nz(bm, u, b) && count_row(bm, u, b) == 0;
            assert(kernel_id(bm, sc, u, b) == u);
            assert(kernel_node_ok(bm, sc, ns, u, b));
            assert(bm.cell(u, b) is Id || bm.cell(u, b) is Zero);
        } else {
            let i = u - n;
            assert(row_count(bm, i) == 1);
            assert(g.output_nodes@[i] == row_id(bm, sc, i) && row_node_ok(bm, sc, ns, i));
        }
    }
}

/// Blocks with the same parameter share one parameter handle, and blocks with
/// different parameters get different handles: the handle is the position of
/// the parameter among the distinct parameters of the matrix.
pub proof fn lemma_shared_params_share_handle(
    bm: BlockMat,
    sc: Seq<Seq<bool>>,
    g: SchedGraph,
    i1: int,
    j1: int,
    i2: int,
    j2: int,
)
    requires
        lowered(bm, sc, g),
        0 <= i1 < bm.rows,
        0 <= j1 < bm.cols,
        0 <= i2 < bm.rows,
        0 <= j2 < bm.cols,
        keyed(exec_cell(bm, sc, i1, j1)),
        keyed(exec_cell(bm, sc, i2, j2)),
    ensures
        g.nodes@[kernel_id(bm, sc, i1, j1) as int].param_handle is Some,
        (g.nodes@[kernel_id(bm, sc, i1, j1) as int].param_handle == g.nodes@[kernel_id(
            bm,
            sc,
            i2,
            j2,
        ) as int].param_handle) <==> exec_cell(bm, sc, i1, j1) == exec_cell(bm, sc, i2, j2),
{
    assert(nz(bm, i1, j1));
    assert(nz(bm, i2, j2));
    assert(kernel_node_ok(bm, sc, g.nodes@, i1, j1));
    assert(kernel_node_ok(bm, sc, g.nodes@, i2, j2));
}

pub(crate) proof fn lemma_count_row_mono(bm: BlockMat, i: int, j: int, j2: int)
    requires
        j <= j2,
    ensures
        count_row(bm, i, j) <= count_row(bm, i, j2),
    decreases j2 - j,
{
    if j < j2 {
        lemma_count_row_mono(bm, i, j, j2 - 1);
    }
}


/// The nodes that move blocks move whole blocks of `D` scalars: the input
/// read moves `D` scalars for each live column it reads (its arity), a
/// broadcast `D`, the write-back `D` for each of the rows (its arity); kernel
/// and output nodes move none.
pub proof fn lemma_transfers_are_whole_blocks(bm: BlockMat, sc: Seq<Seq<bool>>, g: SchedGraph)
    requires
        lowered(bm, sc, g),
    ensures
        forall|u: int|
            0 <= u < g.nodes@.len() ==> {
                let nd = #[trigger] g.nodes@[u];
                &&& nd.node_type is InputRead ==> nd.transfer_scalars == D * nd.arity && nd.arity == live_cols(
                    bm,
                ).len()
                &&& nd.node_type is Broadcast ==> nd.transfer_scalars == D
                &&& nd.node_type is WriteBack ==> nd.transfer_scalars == D * nd.arity && nd.arity == bm.rows
                &&& (nd.node_type is Core || nd.node_type is Direct || nd.node_type is Reduce
                    || nd.node_type is ZeroFill) ==> nd.transfer_scalars == 0
            },
{
    let ns = g.nodes@;
    assert forall|u: int| 0 <= u < ns.len() implies {
        let nd = #[trigger] ns[u];
        &&& nd.node_type is InputRead ==> nd.transfer_scalars == D * nd.arity && nd.arity == live_cols(bm).len()
        &&& nd.node_type is Broadcast ==> nd.transfer_scalars == D
        &&& nd.node_type is WriteBack ==> nd.transfer_scalars == D * nd.arity && nd.arity == bm.rows
        &&& (nd.node_type is Core || nd.node_type is Direct || nd.node_type is Reduce || nd.node_type is ZeroFill)
            ==> nd.transfer_scalars == 0
    } by {
        crate::dataflow::lemma_role(bm, sc, g, u);
        if u < bcast_base(bm, sc) {
            if has_input(bm) && u == input_id(bm) {
                assert(input_node_ok(bm, ns));
            } else {
                assert(param_node_ok(bm, sc, ns));
            }
        } else if u < kernel_base(bm, sc) {
            let j = choose|j: int| 0 <= j < bm.cols && col_count(bm, j) > 1 && u == #[trigger] bcast_id(bm, sc, j);
            assert(bcast_nodes_ok(bm, sc, ns, bm.cols as int));
        } else if u < row_base(bm, sc) {
            let (i, j) = choose|i: int, j: int| 0 <= i < bm.rows && 0 <= j < bm.cols && nz(bm, i, j) && u == #[trigger] kernel_id(bm, sc, i, j);
            assert(kernel_node_ok(bm, sc, ns, i, j));
        } else if u < wb_id(bm, sc) {
            let i = u - row_base(bm, sc);
            assert(g.output_nodes@[i] == row_id(bm, sc, i) && row_node_ok(bm, sc, ns, i));
        } else {
            assert(wb_node_ok(bm, sc, ns, g.output_nodes@));
        }
    }
}

} // verus!
