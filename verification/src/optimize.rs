//! Structural rewrites (R1, R2) and the structure statistics of a block
//! matrix.
//!
//! Whether a parameter matrix is numerically zero, the identity, or a scalar
//! multiple of the identity, and whether two parameter matrices agree up to
//! rounding, is decided on their single-precision values by the numeric
//! layer; the outcomes come in here as flags, and everything built on them
//! is decided here.
use vstd::prelude::*;
use crate::ir::{BlockMat, KernelRef};
use crate::lower::{
    col_count, column_counts, count_row, is_perm, is_permutation, kernel_is_zero, nnz, nz_rows_before,
    perm_shape, row_count, row_counts,
};
use crate::semantics::covers_shape;

verus! {

/// Structure statistics of a block matrix.
#[derive(Debug, Clone, PartialEq)]
pub struct StructStats {
    /// Non-zero blocks.
    pub n_nz: usize,
    /// Blocks that need a real kernel (`General`).
    pub n_gen: usize,
    /// Scalar kernels (`c * I_d`, R3).
    pub n_scale: usize,
    /// Distinct parameter matrices after sharing (R4).
    pub n_unique: usize,
    /// Distinct scalar-kernel parameters.
    pub n_scale_u: usize,
    /// Non-zero blocks per column `c_j` (broadcast factor).
    pub col_counts: Vec<usize>,
    /// Non-zero blocks per row `r_i` (reduction factor).
    pub row_counts: Vec<usize>,
    /// Columns without a non-zero block.
    pub dead_cols: usize,
    /// Rows without a non-zero block.
    pub dead_rows: usize,
    /// Rows with exactly one non-zero block.
    pub single_rows: usize,
    /// The matrix is a block permutation.
    pub is_permutation: bool,
}

// ------------------------------------------------------------------
// R1 / R2
// ------------------------------------------------------------------
/// A kernel after R1 (a zero parameter matrix becomes `Zero`) and then R2
/// (an identity parameter matrix becomes `Id`); `Id` and `Zero` stay.
pub open spec fn rewrite_kernel(k: KernelRef, is_zero: bool, is_identity: bool) -> KernelRef {
    match k {
        KernelRef::General(m) => if is_zero {
            KernelRef::Zero
        } else if is_identity {
            KernelRef::Id
        } else {
            KernelRef::General(m)
        },
        _ => k,
    }
}

/// The flags are one per block of the grid.
pub open spec fn flags_fit(grid: Seq<Vec<KernelRef>>, f: Seq<Vec<bool>>) -> bool {
    &&& f.len() == grid.len()
    &&& forall|i: int| 0 <= i < grid.len() ==> #[trigger] f[i]@.len() == grid[i]@.len()
}

/// Applies R1 and R2 to every block: `zero[i][j]` and `identity[i][j]` are the
/// outcomes of the zero test and the identity test on block `(i, j)`'s matrix.
pub fn optimize(bm: &BlockMat, zero: &Vec<Vec<bool>>, identity: &Vec<Vec<bool>>) -> (r: BlockMat)
    requires
        flags_fit(bm.grid@, zero@),
        flags_fit(bm.grid@, identity@),
    ensures
        r.rows == bm.rows,
        r.cols == bm.cols,
        r.grid@.len() == bm.grid@.len(),
        forall|i: int| 0 <= i < bm.grid@.len() ==> #[trigger] r.grid@[i]@.len() == bm.grid@[i]@.len(),
        forall|i: int, j: int|
            0 <= i < bm.grid@.len() && 0 <= j < bm.grid@[i]@.len() ==> #[trigger] r.cell(i, j) == rewrite_kernel(
                bm.cell(i, j),
                zero@[i]@[j],
                identity@[i]@[j],
            ),
{
    let mut grid: Vec<Vec<KernelRef>> = Vec::new();
    let mut i: usize = 0;
    while i < bm.grid.len()
        invariant
            flags_fit(bm.grid@, zero@),
            flags_fit(bm.grid@, identity@),
            i <= bm.grid@.len(),
            grid@.len() == i,
            forall|a: int| 0 <= a < i ==> #[trigger] grid@[a]@.len() == bm.grid@[a]@.len(),
            forall|a: int, b: int|
                0 <= a < i && 0 <= b < bm.grid@[a]@.len() ==> #[trigger] grid@[a]@[b] == rewrite_kernel(
                    bm.grid@[a]@[b],
                    zero@[a]@[b],
                    identity@[a]@[b],
                ),
        decreases bm.grid@.len() - i,
    {
        let src = &bm.grid[i];
        let mut row: Vec<KernelRef> = Vec::new();
        let mut j: usize = 0;
        while j < src.len()
            invariant
                flags_fit(bm.grid@, zero@),
                flags_fit(bm.grid@, identity@),
                i < bm.grid@.len(),
                src == &bm.grid@[i as int],
                j <= src@.len(),
                row@.len() == j,
                forall|b: int| 0 <= b < j ==> #[trigger] row@[b] == rewrite_kernel(
                    src@[b],
                    zero@[i as int]@[b],
                    identity@[i as int]@[b],
                ),
            decreases src@.len() - j,
        {
            let k = match &src[j] {
                KernelRef::General(m) => {
                    if zero[i][j] {
                        KernelRef::Zero
                    } else if identity[i][j] {
                        KernelRef::Id
                    } else {
                        KernelRef::General(*m)
                    }
                },
                KernelRef::Id => KernelRef::Id,
                KernelRef::Zero => KernelRef::Zero,
            };
            row.push(k);
            j = j + 1;
        }
        grid.push(row);
        i = i + 1;
    }
    BlockMat { rows: bm.rows, cols: bm.cols, grid }
}

// ------------------------------------------------------------------
// Statistics
// ------------------------------------------------------------------
/// Block `(i, j)` holds a `General` kernel.
pub open spec fn is_gen(bm: BlockMat, i: int, j: int) -> bool {
    bm.cell(i, j) is General
}

/// Number of `General` blocks before `(i, j)` in row-major order: the index
/// of block `(i, j)` among the `General` blocks, when it is one.
pub open spec fn gens_upto(bm: BlockMat, i: int, j: int) -> nat
    decreases i, j,
{
    if i <= 0 && j <= 0 {
        0
    } else if j <= 0 {
        gens_upto(bm, i - 1, bm.cols as int)
    } else {
        gens_upto(bm, i, j - 1) + if is_gen(bm, i, j - 1) {
            1nat
        } else {
            0nat
        }
    }
}

/// Number of `General` blocks.
pub open spec fn gen_count(bm: BlockMat) -> nat {
    gens_upto(bm, bm.rows as int, 0)
}

/// Number of `General` blocks before `(i, j)` that are scalar kernels.
pub open spec fn scalars_upto(bm: BlockMat, sc: Seq<Seq<bool>>, i: int, j: int) -> nat
    decreases i, j,
{
    if i <= 0 && j <= 0 {
        0
    } else if j <= 0 {
        scalars_upto(bm, sc, i - 1, bm.cols as int)
    } else {
        scalars_upto(bm, sc, i, j - 1) + if is_gen(bm, i, j - 1) && sc[i][j - 1] {
            1nat
        } else {
            0nat
        }
    }
}

/// The distinct scalars `c` (by bit pattern) of the scalar kernels before
/// `(i, j)`, in order of first occurrence; the scalar of `c * I_d` is its
/// entry `(0, 0)`.
pub open spec fn scalar_values_upto(bm: BlockMat, sc: Seq<Seq<bool>>, i: int, j: int) -> Seq<u32>
    decreases i, j,
{
    if i <= 0 && j <= 0 {
        Seq::empty()
    } else if j <= 0 {
        scalar_values_upto(bm, sc, i - 1, bm.cols as int)
    } else {
        let prev = scalar_values_upto(bm, sc, i, j - 1);
        match bm.cell(i, j - 1) {
            KernelRef::General(m) => if sc[i][j - 1] && !prev.contains(m[0][0]) {
                prev.push(m[0][0])
            } else {
                prev
            },
            _ => prev,
        }
    }
}

/// The `General` blocks before `(i, j)` kept as distinct parameters (by
/// their index among the `General` blocks): a block is kept unless it is
/// close to a block kept before it; `close[a][b]` says whether the
/// parameters of `General` blocks `a` and `b` agree up to rounding.
pub open spec fn uniq_upto(bm: BlockMat, close: Seq<Seq<bool>>, i: int, j: int) -> Seq<nat>
    decreases i, j,
{
    if i <= 0 && j <= 0 {
        Seq::empty()
    } else if j <= 0 {
        uniq_upto(bm, close, i - 1, bm.cols as int)
    } else {
        let prev = uniq_upto(bm, close, i, j - 1);
        let a = gens_upto(bm, i, j - 1);
        if is_gen(bm, i, j - 1) && !(exists|k: int| 0 <= k < prev.len() && close[#[trigger] prev[k] as int][a as int]) {
            prev.push(a)
        } else {
            prev
        }
    }
}

/// Number of entries of `s` equal to `v`.
pub open spec fn count_eq(s: Seq<usize>, v: usize) -> nat
    decreases s.len(),
{
    if s.len() == 0 {
        0
    } else {
        count_eq(s.drop_last(), v) + if s.last() == v {
            1nat
        } else {
            0nat
        }
    }
}

/// The flags are one per block of a `rows x cols` grid.
pub open spec fn grid_flags(bm: BlockMat, f: Seq<Seq<bool>>) -> bool {
    &&& f.len() == bm.rows
    &&& forall|i: int| 0 <= i < bm.rows ==> #[trigger] f[i].len() == bm.cols
}

/// The flags as a sequence of rows.
pub open spec fn rows_of(f: &Vec<Vec<bool>>) -> Seq<Seq<bool>> {
    f@.map_values(|r: Vec<bool>| r@)
}

/// The closeness table is square over the `General` blocks.
pub open spec fn close_fits(bm: BlockMat, close: Seq<Seq<bool>>) -> bool {
    &&& close.len() == gen_count(bm)
    &&& forall|a: int| 0 <= a < gen_count(bm) ==> #[trigger] close[a].len() == gen_count(bm)
}

proof fn lemma_gens_bound(bm: BlockMat, sc: Seq<Seq<bool>>, i: int, j: int)
    requires
        0 <= i,
        0 <= j <= bm.cols,
    ensures
        gens_upto(bm, i, j) <= i * bm.cols + j,
        scalars_upto(bm, sc, i, j) <= gens_upto(bm, i, j),
    decreases i, j,
{
    if i <= 0 && j <= 0 {
    } else if j <= 0 {
        lemma_gens_bound(bm, sc, i - 1, bm.cols as int);
        assert((i - 1) * bm.cols + bm.cols == i * bm.cols) by (nonlinear_arith);
    } else {
        lemma_gens_bound(bm, sc, i, j - 1);
    }
}

proof fn lemma_gens_mono(bm: BlockMat, i: int, j: int, i2: int, j2: int)
    requires
        0 <= i,
        0 <= j <= bm.cols,
        0 <= j2 <= bm.cols,
        i < i2 || (i == i2 && j <= j2),
    ensures
        gens_upto(bm, i, j) <= gens_upto(bm, i2, j2),
    decreases i2, j2,
{
    if i == i2 && j == j2 {
    } else if j2 > 0 {
        if i < i2 || (i == i2 && j <= j2 - 1) {
            lemma_gens_mono(bm, i, j, i2, j2 - 1);
        }
    } else {
        lemma_gens_mono(bm, i, j, i2 - 1, bm.cols as int);
    }
}


proof fn lemma_distinct_bounds(bm: BlockMat, sc: Seq<Seq<bool>>, close: Seq<Seq<bool>>, i: int, j: int)
    requires
        0 <= i,
        0 <= j <= bm.cols,
    ensures
        uniq_upto(bm, close, i, j).len() <= gens_upto(bm, i, j),
        scalar_values_upto(bm, sc, i, j).len() <= scalars_upto(bm, sc, i, j),
        scalars_upto(bm, sc, i, j) <= gens_upto(bm, i, j),
    decreases i, j,
{
    if i <= 0 && j <= 0 {
    } else if j <= 0 {
        lemma_distinct_bounds(bm, sc, close, i - 1, bm.cols as int);
    } else {
        lemma_distinct_bounds(bm, sc, close, i, j - 1);
    }
}

/// A block permutation holds no `General` block.
proof fn lemma_perm_no_gen(bm: BlockMat, i: int, j: int)
    requires
        bm.well_formed(),
        is_perm(bm),
        0 <= i <= bm.rows,
        0 <= j <= bm.cols,
        i == bm.rows ==> j == 0,
    ensures
        gens_upto(bm, i, j) == 0,
    decreases i, j,
{
    if i <= 0 && j <= 0 {
    } else if j <= 0 {
        lemma_perm_no_gen(bm, i - 1, bm.cols as int);
    } else {
        lemma_perm_no_gen(bm, i, j - 1);
        assert(bm.cell(i, j - 1) is Id || bm.cell(i, j - 1) is Zero);
    }
}

/// A block permutation has no kernel to execute.
pub proof fn lemma_permutation_has_no_kernels(bm: BlockMat)
    requires
        bm.well_formed(),
        is_perm(bm),
    ensures
        gen_count(bm) == 0,
{
    lemma_perm_no_gen(bm, bm.rows as int, 0);
}

/// Whether `v` holds `x`.
fn holds_value(v: &Vec<u32>, x: u32) -> (r: bool)
    ensures
        r == v@.contains(x),
{
    let mut k: usize = 0;
    while k < v.len()
        invariant
            k <= v@.len(),
            forall|q: int| 0 <= q < k ==> v@[q] != x,
        decreases v@.len() - k,
    {
        if v[k] == x {
            assert(v@[k as int] == x);
            return true;
        }
        k = k + 1;
    }
    false
}

/// Whether `General` block `a` is close to one of the kept blocks.
fn close_to_kept(kept: &Vec<usize>, close: &Vec<Vec<bool>>, a: usize) -> (r: bool)
    requires
        forall|k: int| 0 <= k < kept@.len() ==> #[trigger] kept@[k] < close@.len(),
        forall|k: int| 0 <= k < kept@.len() ==> a < #[trigger] close@[kept@[k] as int]@.len(),
    ensures
        r == exists|k: int| 0 <= k < kept@.len() && rows_of(close)[#[trigger] kept@[k] as int][a as int],
{
    let mut k: usize = 0;
    while k < kept.len()
        invariant
            forall|q: int| 0 <= q < kept@.len() ==> #[trigger] kept@[q] < close@.len(),
            forall|q: int| 0 <= q < kept@.len() ==> a < #[trigger] close@[kept@[q] as int]@.len(),
            k <= kept@.len(),
            forall|q: int| 0 <= q < k ==> !rows_of(close)[#[trigger] kept@[q] as int][a as int],
        decreases kept@.len() - k,
    {
        if close[kept[k]][a] {
            assert(rows_of(close)[kept@[k as int] as int][a as int]);
            return true;
        }
        k = k + 1;
    }
    false
}

/// Number of entries of `v` equal to `x`.
fn count_value(v: &Vec<usize>, x: usize) -> (r: usize)
    ensures
        r == count_eq(v@, x),
{
    let mut c: usize = 0;
    let mut k: usize = 0;
    while k < v.len()
        invariant
            k <= v@.len(),
            c == count_eq(v@.take(k as int), x),
            c <= k,
        decreases v@.len() - k,
    {
        proof {
            assert(v@.take(k + 1).drop_last() =~= v@.take(k as int));
        }
        if v[k] == x {
            c = c + 1;
        }
        k = k + 1;
    }
    proof {
        assert(v@.take(v@.len() as int) =~= v@);
    }
    c
}

/// Collects the structure statistics of `bm`.
///
/// `scalar[i][j]` is the outcome of the scalar test (R3) on block `(i, j)`;
/// `close[a][b]` whether the parameters of the `a`-th and `b`-th `General`
/// blocks (in row-major order) agree up to rounding.
pub fn collect_stats(bm: &BlockMat, scalar: &Vec<Vec<bool>>, close: &Vec<Vec<bool>>) -> (r: StructStats)
    requires
        covers_shape(*bm),
        bm.rows * bm.cols <= usize::MAX,
        grid_flags(*bm, rows_of(scalar)),
        close_fits(*bm, rows_of(close)),
    ensures
        r.n_nz == nnz(*bm),
        r.n_gen == gen_count(*bm),
        r.n_scale == scalars_upto(*bm, rows_of(scalar), bm.rows as int, 0),
        r.n_scale_u == scalar_values_upto(*bm, rows_of(scalar), bm.rows as int, 0).len(),
        r.n_unique == uniq_upto(*bm, rows_of(close), bm.rows as int, 0).len(),
        r.col_counts@.len() == bm.cols,
        forall|j: int| 0 <= j < bm.cols ==> #[trigger] r.col_counts@[j] == col_count(*bm, j),
        r.row_counts@.len() == bm.rows,
        forall|i: int| 0 <= i < bm.rows ==> #[trigger] r.row_counts@[i] == row_count(*bm, i),
        r.dead_cols == count_eq(r.col_counts@, 0),
        r.dead_rows == count_eq(r.row_counts@, 0),
        r.single_rows == count_eq(r.row_counts@, 1),
        r.is_permutation == perm_shape(*bm),
        r.n_unique <= r.n_gen,
        r.n_scale_u <= r.n_scale,
        r.n_scale <= r.n_gen,
{
    let ghost sc = rows_of(scalar);
    let ghost cl = rows_of(close);
    let mut n_nz: usize = 0;
    let mut n_gen: usize = 0;
    let mut n_scale: usize = 0;
    let mut scal: Vec<u32> = Vec::new();
    let mut kept: Vec<usize> = Vec::new();
    let mut i: usize = 0;
    proof {
        lemma_gens_mono(*bm, 0, 0, bm.rows as int, 0);
    }
    while i < bm.rows
        invariant
            covers_shape(*bm),
            bm.rows * bm.cols <= usize::MAX,
            sc == rows_of(scalar),
            cl == rows_of(close),
            grid_flags(*bm, sc),
            close_fits(*bm, cl),
            i <= bm.rows,
            n_nz == nz_rows_before(*bm, i as int),
            n_nz <= i * bm.cols,
            n_gen == gens_upto(*bm, i as int, 0),
            n_scale == scalars_upto(*bm, sc, i as int, 0),
            scal@ == scalar_values_upto(*bm, sc, i as int, 0),
            kept@.len() == uniq_upto(*bm, cl, i as int, 0).len(),
            forall|k: int| 0 <= k < kept@.len() ==> #[trigger] kept@[k] == uniq_upto(*bm, cl, i as int, 0)[k],
            forall|k: int| 0 <= k < kept@.len() ==> #[trigger] kept@[k] < n_gen,
        decreases bm.rows - i,
    {
        proof {
            assert(i * bm.cols + bm.cols == (i + 1) * bm.cols) by (nonlinear_arith);
            assert((i + 1) * bm.cols <= bm.rows * bm.cols) by (nonlinear_arith)
                requires
                    i < bm.rows,
            ;
            if i > 0 {
                assert(gens_upto(*bm, i as int, 0) == gens_upto(*bm, i - 1, bm.cols as int));
                assert(scalars_upto(*bm, sc, i as int, 0) == scalars_upto(*bm, sc, i - 1, bm.cols as int));
                assert(scalar_values_upto(*bm, sc, i as int, 0) == scalar_values_upto(*bm, sc, i - 1, bm.cols as int));
                assert(uniq_upto(*bm, cl, i as int, 0) == uniq_upto(*bm, cl, i - 1, bm.cols as int));
            }
        }
        let row = &bm.grid[i];
        let mut j: usize = 0;
        while j < bm.cols
            invariant
                covers_shape(*bm),
                bm.rows * bm.cols <= usize::MAX,
                sc == rows_of(scalar),
                cl == rows_of(close),
                grid_flags(*bm, sc),
                close_fits(*bm, cl),
                i < bm.rows,
                row == &bm.grid@[i as int],
                (i + 1) * bm.cols <= bm.rows * bm.cols,
                i * bm.cols + bm.cols == (i + 1) * bm.cols,
                j <= bm.cols,
                n_nz == nz_rows_before(*bm, i as int) + count_row(*bm, i as int, j as int),
                n_nz <= i * bm.cols + j,
                n_gen == gens_upto(*bm, i as int, j as int),
                n_scale == scalars_upto(*bm, sc, i as int, j as int),
                scal@ == scalar_values_upto(*bm, sc, i as int, j as int),
                kept@.len() == uniq_upto(*bm, cl, i as int, j as int).len(),
                forall|k: int| 0 <= k < kept@.len() ==> #[trigger] kept@[k] == uniq_upto(*bm, cl, i as int, j as int)[k],
                forall|k: int| 0 <= k < kept@.len() ==> #[trigger] kept@[k] < n_gen,
            decreases bm.cols - j,
        {
            proof {
                lemma_gens_bound(*bm, sc, i as int, j as int);
                lemma_gens_mono(*bm, i as int, j + 1, bm.rows as int, 0);
            }
            let ghost prev_kept = uniq_upto(*bm, cl, i as int, j as int);
            match &row[j] {
                KernelRef::Zero => {},
                KernelRef::Id => {
                    n_nz = n_nz + 1;
                },
                KernelRef::General(m) => {
                    let a = n_gen;
                    n_nz = n_nz + 1;
                    n_gen = n_gen + 1;
                    if scalar[i][j] {
                        n_scale = n_scale + 1;
                        let bits = m[0][0];
                        if !holds_value(&scal, bits) {
                            scal.push(bits);
                        }
                    }
                    proof {
                        assert(a < gen_count(*bm));
                        assert forall|k: int| 0 <= k < kept@.len() implies a < #[trigger] close@[kept@[k] as int]@.len() by {
                            assert(cl[kept@[k] as int].len() == gen_count(*bm));
                        }
                    }
                    let dup = close_to_kept(&kept, close, a);
                    proof {
                        assert(dup == exists|k: int| 0 <= k < prev_kept.len() && cl[#[trigger] prev_kept[k] as int][a as int]) by {
                            if dup {
                                let k = choose|k: int| 0 <= k < kept@.len() && rows_of(close)[#[trigger] kept@[k] as int][a as int];
                                assert(prev_kept[k] == kept@[k]);
                            }
                            if exists|k: int| 0 <= k < prev_kept.len() && cl[#[trigger] prev_kept[k] as int][a as int] {
                                let k = choose|k: int| 0 <= k < prev_kept.len() && cl[#[trigger] prev_kept[k] as int][a as int];
                                assert(prev_kept[k] == kept@[k]);
                            }
                        }
                    }
                    if !dup {
                        kept.push(a);
                    }
                },
            }
            proof {
                assert(bm.cell(i as int, j as int) == row@[j as int]);
            }
            j = j + 1;
        }
        i = i + 1;
    }
    proof {
        lemma_distinct_bounds(*bm, sc, cl, bm.rows as int, 0);
    }
    let col_counts = column_counts(bm);
    let row_counts = row_counts(bm);
    let is_permutation = is_permutation(bm, &row_counts, &col_counts);
    let dead_cols = count_value(&col_counts, 0);
    let dead_rows = count_value(&row_counts, 0);
    let single_rows = count_value(&row_counts, 1);
    StructStats {
        n_nz,
        n_gen,
        n_scale,
        n_unique: kept.len(),
        n_scale_u: scal.len(),
        col_counts,
        row_counts,
        dead_cols,
        dead_rows,
        single_rows,
        is_permutation,
    }
}

} // verus!
