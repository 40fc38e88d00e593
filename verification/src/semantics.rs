//! Structural constructors of the IR and the kernel-to-matrix view.
//!
//! These build block matrices made of `Id` and `Zero` kernels, or rearrange
//! existing kernels (`pair`, `copair`, `bimap`). None of them computes with a
//! parameter entry.
use vstd::prelude::*;
use crate::ir::{BlockMat, KernelRef, Mat2, ValidationError};

verus! {

/// Bit pattern of the single-precision number `1.0`.
pub const ONE_BITS: u32 = 0x3f80_0000;

/// The `d x d` zero matrix.
pub fn zero_mat() -> (m: Mat2)
    ensures
        m == [[0u32, 0u32], [0u32, 0u32]],
{
    [[0u32, 0u32], [0u32, 0u32]]
}

/// The `d x d` identity matrix.
pub fn identity_mat() -> (m: Mat2)
    ensures
        m == [[ONE_BITS, 0u32], [0u32, ONE_BITS]],
{
    [[ONE_BITS, 0u32], [0u32, ONE_BITS]]
}

/// The matrix a kernel stands for.
pub open spec fn spec_eval_kernel(k: KernelRef) -> Mat2 {
    match k {
        KernelRef::General(m) => m,
        KernelRef::Id => [[ONE_BITS, 0u32], [0u32, ONE_BITS]],
        KernelRef::Zero => [[0u32, 0u32], [0u32, 0u32]],
    }
}

/// Kernel evaluation: `KernelRef -> Mat2`.
pub fn eval_kernel(k: &KernelRef) -> (m: Mat2)
    ensures
        m == spec_eval_kernel(*k),
{
    match k {
        KernelRef::General(m) => *m,
        KernelRef::Id => identity_mat(),
        KernelRef::Zero => zero_mat(),
    }
}

/// A copy of one grid row.
fn copy_row(row: &Vec<KernelRef>) -> (r: Vec<KernelRef>)
    ensures
        r@ == row@,
{
    let mut r: Vec<KernelRef> = Vec::new();
    let mut j: usize = 0;
    while j < row.len()
        invariant
            j <= row@.len(),
            r@ == row@.subrange(0, j as int),
        decreases row@.len() - j,
    {
        r.push(row[j]);
        j = j + 1;
        assert(r@ =~= row@.subrange(0, j as int));
    }
    assert(r@ =~= row@);
    r
}

/// A row of `n` kernels, `Id` at position `i` and `Zero` elsewhere.
fn unit_row(i: usize, n: usize) -> (r: Vec<KernelRef>)
    ensures
        r@.len() == n,
        forall|j: int| 0 <= j < n ==> #[trigger] r@[j] == (if j == i {
            KernelRef::Id
        } else {
            KernelRef::Zero
        }),
{
    let mut r: Vec<KernelRef> = Vec::new();
    let mut j: usize = 0;
    while j < n
        invariant
            j <= n,
            r@.len() == j,
            forall|k: int| 0 <= k < j ==> #[trigger] r@[k] == (if k == i {
                KernelRef::Id
            } else {
                KernelRef::Zero
            }),
        decreases n - j,
    {
        if j == i {
            r.push(KernelRef::Id);
        } else {
            r.push(KernelRef::Zero);
        }
        j = j + 1;
    }
    r
}

/// A row of `n` copies of one kernel.
fn const_row(k: KernelRef, n: usize) -> (r: Vec<KernelRef>)
    ensures
        r@.len() == n,
        forall|j: int| 0 <= j < n ==> #[trigger] r@[j] == k,
{
    let mut r: Vec<KernelRef> = Vec::new();
    let mut j: usize = 0;
    while j < n
        invariant
            j <= n,
            r@.len() == j,
            forall|q: int| 0 <= q < j ==> #[trigger] r@[q] == k,
        decreases n - j,
    {
        r.push(k);
        j = j + 1;
    }
    r
}

/// `kernelApp(M)`: the `1 x 1` block matrix of one general kernel.
pub fn kernel_app(m: Mat2) -> (r: BlockMat)
    ensures
        r.rows == 1 && r.cols == 1,
        r.shape_ok(),
        r.cell(0, 0) == KernelRef::General(m),
{
    let mut row: Vec<KernelRef> = Vec::new();
    row.push(KernelRef::General(m));
    let mut grid: Vec<Vec<KernelRef>> = Vec::new();
    grid.push(row);
    BlockMat { rows: 1, cols: 1, grid }
}

/// `proj(i, n)`: the `1 x n` block matrix with `Id` in column `i` and `Zero`
/// elsewhere.
pub fn proj(i: usize, n: usize) -> (r: Result<BlockMat, ValidationError>)
    ensures
        n == 0 ==> r == Err::<BlockMat, ValidationError>(ValidationError::ZeroDimension),
        n > 0 && i >= n ==> r == Err::<BlockMat, ValidationError>(
            ValidationError::IndexOutOfRange { index: i, upper_bound: n },
        ),
        i < n ==> r is Ok,
        r matches Ok(b) ==> (b.rows == 1 && b.cols == n && b.shape_ok() && forall|j: int|
            0 <= j < n ==> #[trigger] b.cell(0, j) == (if j == i {
                KernelRef::Id
            } else {
                KernelRef::Zero
            })),
{
    if n == 0 {
        return Err(ValidationError::ZeroDimension);
    }
    if i >= n {
        return Err(ValidationError::IndexOutOfRange { index: i, upper_bound: n });
    }
    let row = unit_row(i, n);
    let mut grid: Vec<Vec<KernelRef>> = Vec::new();
    grid.push(row);
    Ok(BlockMat { rows: 1, cols: n, grid })
}

/// `inj(i, n)`: the `n x 1` block matrix with `Id` in row `i` and `Zero`
/// elsewhere.
pub fn inj(i: usize, n: usize) -> (r: Result<BlockMat, ValidationError>)
    ensures
        n == 0 ==> r == Err::<BlockMat, ValidationError>(ValidationError::ZeroDimension),
        n > 0 && i >= n ==> r == Err::<BlockMat, ValidationError>(
            ValidationError::IndexOutOfRange { index: i, upper_bound: n },
        ),
        i < n ==> r is Ok,
        r matches Ok(b) ==> (b.rows == n && b.cols == 1 && b.shape_ok() && forall|j: int|
            0 <= j < n ==> #[trigger] b.cell(j, 0) == (if j == i {
                KernelRef::Id
            } else {
                KernelRef::Zero
            })),
{
    if n == 0 {
        return Err(ValidationError::ZeroDimension);
    }
    if i >= n {
        return Err(ValidationError::IndexOutOfRange { index: i, upper_bound: n });
    }
    let mut grid: Vec<Vec<KernelRef>> = Vec::new();
    let mut j: usize = 0;
    while j < n
        invariant
            j <= n,
            i < n,
            grid@.len() == j,
            forall|k: int| 0 <= k < j ==> (#[trigger] grid@[k])@.len() == 1,
            forall|k: int| 0 <= k < j ==> (#[trigger] grid@[k])@[0] == (if k == i {
                KernelRef::Id
            } else {
                KernelRef::Zero
            }),
        decreases n - j,
    {
        let k = if j == i {
            KernelRef::Id
        } else {
            KernelRef::Zero
        };
        grid.push(const_row(k, 1));
        j = j + 1;
    }
    Ok(BlockMat { rows: n, cols: 1, grid })
}

/// `copy(n)`: the `n x 1` block matrix whose rows are all `Id`.
pub fn copy(n: usize) -> (r: Result<BlockMat, ValidationError>)
    ensures
        n < 2 ==> r == Err::<BlockMat, ValidationError>(
            ValidationError::ArityTooSmall { op: "copy", min: 2, actual: n },
        ),
        n >= 2 ==> r is Ok,
        r matches Ok(b) ==> (b.rows == n && b.cols == 1 && b.shape_ok() && forall|j: int|
            0 <= j < n ==> #[trigger] b.cell(j, 0) == KernelRef::Id),
{
    if n < 2 {
        return Err(ValidationError::ArityTooSmall { op: "copy", min: 2, actual: n });
    }
    let mut grid: Vec<Vec<KernelRef>> = Vec::new();
    let mut j: usize = 0;
    while j < n
        invariant
            j <= n,
            grid@.len() == j,
            forall|k: int| 0 <= k < j ==> (#[trigger] grid@[k])@.len() == 1,
            forall|k: int| 0 <= k < j ==> (#[trigger] grid@[k])@[0] == KernelRef::Id,
        decreases n - j,
    {
        grid.push(const_row(KernelRef::Id, 1));
        j = j + 1;
    }
    Ok(BlockMat { rows: n, cols: 1, grid })
}

/// `merge(n)`: the `1 x n` block matrix whose columns are all `Id`.
pub fn merge(n: usize) -> (r: Result<BlockMat, ValidationError>)
    ensures
        n < 2 ==> r == Err::<BlockMat, ValidationError>(
            ValidationError::ArityTooSmall { op: "merge", min: 2, actual: n },
        ),
        n >= 2 ==> r is Ok,
        r matches Ok(b) ==> (b.rows == 1 && b.cols == n && b.shape_ok() && forall|j: int|
            0 <= j < n ==> #[trigger] b.cell(0, j) == KernelRef::Id),
{
    if n < 2 {
        return Err(ValidationError::ArityTooSmall { op: "merge", min: 2, actual: n });
    }
    let mut grid: Vec<Vec<KernelRef>> = Vec::new();
    grid.push(const_row(KernelRef::Id, n));
    Ok(BlockMat { rows: 1, cols: n, grid })
}

/// `identity(n)`: the `n x n` block identity.
pub fn identity(n: usize) -> (r: Result<BlockMat, ValidationError>)
    ensures
        n == 0 ==> r == Err::<BlockMat, ValidationError>(ValidationError::ZeroDimension),
        n > 0 ==> r is Ok,
        r matches Ok(b) ==> (b.rows == n && b.cols == n && b.shape_ok() && forall|i: int, j: int|
            0 <= i < n && 0 <= j < n ==> #[trigger] b.cell(i, j) == (if i == j {
                KernelRef::Id
            } else {
                KernelRef::Zero
            })),
{
    if n == 0 {
        return Err(ValidationError::ZeroDimension);
    }
    let mut grid: Vec<Vec<KernelRef>> = Vec::new();
    let mut i: usize = 0;
    while i < n
        invariant
            i <= n,
            grid@.len() == i,
            forall|k: int| 0 <= k < i ==> (#[trigger] grid@[k])@.len() == n,
            forall|k: int, j: int|
                0 <= k < i && 0 <= j < n ==> #[trigger] grid@[k]@[j] == (if k == j {
                    KernelRef::Id
                } else {
                    KernelRef::Zero
                }),
        decreases n - i,
    {
        grid.push(unit_row(i, n));
        i = i + 1;
    }
    Ok(BlockMat { rows: n, cols: n, grid })
}

/// `pair(f, g)`: vertical stacking, the rows of `f` above those of `g`.
pub fn pair(f: &BlockMat, g: &BlockMat) -> (r: Result<BlockMat, ValidationError>)
    requires
        f.rows + g.rows <= usize::MAX,
    ensures
        f.cols != g.cols ==> r == Err::<BlockMat, ValidationError>(
            ValidationError::DimensionMismatch { left_cols: f.cols, right_rows: g.cols },
        ),
        f.cols == g.cols ==> r is Ok,
        r matches Ok(b) ==> (b.rows == f.rows + g.rows && b.cols == f.cols
            && b.cells() == f.cells() + g.cells()),
{
    if f.cols != g.cols {
        return Err(ValidationError::DimensionMismatch { left_cols: f.cols, right_rows: g.cols });
    }
    let mut grid: Vec<Vec<KernelRef>> = Vec::new();
    let mut i: usize = 0;
    while i < f.grid.len()
        invariant
            i <= f.grid@.len(),
            grid@.len() == i,
            forall|k: int| 0 <= k < i ==> (#[trigger] grid@[k])@ == f.grid@[k]@,
        decreases f.grid@.len() - i,
    {
        grid.push(copy_row(&f.grid[i]));
        i = i + 1;
    }
    let mut i: usize = 0;
    while i < g.grid.len()
        invariant
            i <= g.grid@.len(),
            grid@.len() == f.grid@.len() + i,
            forall|k: int| 0 <= k < f.grid@.len() ==> (#[trigger] grid@[k])@ == f.grid@[k]@,
            forall|k: int|
                0 <= k < i ==> (#[trigger] grid@[f.grid@.len() + k])@ == g.grid@[k]@,
        decreases g.grid@.len() - i,
    {
        grid.push(copy_row(&g.grid[i]));
        i = i + 1;
    }
    let r = BlockMat { rows: f.rows + g.rows, cols: f.cols, grid };
    assert forall|k: int| 0 <= k < r.cells().len() implies #[trigger] r.cells()[k] == (f.cells()
        + g.cells())[k] by {
        if k >= f.grid@.len() {
            assert(r.grid@[f.grid@.len() + (k - f.grid@.len())]@ == g.grid@[k - f.grid@.len()]@);
        }
    }
    assert(r.cells() =~= f.cells() + g.cells());
    Ok(r)
}

/// `copair(f, g)`: horizontal juxtaposition, each row of `f` followed by the
/// row of `g` with the same index (as many rows as the shorter grid has).
pub fn copair(f: &BlockMat, g: &BlockMat) -> (r: Result<BlockMat, ValidationError>)
    requires
        f.cols + g.cols <= usize::MAX,
    ensures
        f.rows != g.rows ==> r == Err::<BlockMat, ValidationError>(
            ValidationError::DimensionMismatch { left_cols: f.rows, right_rows: g.rows },
        ),
        f.rows == g.rows ==> r is Ok,
        r matches Ok(b) ==> (b.rows == f.rows && b.cols == f.cols + g.cols
            && b.grid@.len() == (if f.grid@.len() <= g.grid@.len() {
            f.grid@.len()
        } else {
            g.grid@.len()
        }) && forall|i: int|
            0 <= i < b.grid@.len() ==> #[trigger] b.grid@[i]@ == f.grid@[i]@ + g.grid@[i]@),
{
    if f.rows != g.rows {
        return Err(ValidationError::DimensionMismatch { left_cols: f.rows, right_rows: g.rows });
    }
    let n = if f.grid.len() <= g.grid.len() {
        f.grid.len()
    } else {
        g.grid.len()
    };
    let mut grid: Vec<Vec<KernelRef>> = Vec::new();
    let mut i: usize = 0;
    while i < n
        invariant
            i <= n,
            n <= f.grid@.len(),
            n <= g.grid@.len(),
            grid@.len() == i,
            forall|k: int| 0 <= k < i ==> (#[trigger] grid@[k])@ == f.grid@[k]@ + g.grid@[k]@,
        decreases n - i,
    {
        let mut row = copy_row(&f.grid[i]);
        let tail = &g.grid[i];
        let ghost head = row@;
        let mut j: usize = 0;
        while j < tail.len()
            invariant
                j <= tail@.len(),
                row@ == head + tail@.subrange(0, j as int),
            decreases tail@.len() - j,
        {
            row.push(tail[j]);
            j = j + 1;
            assert(row@ =~= head + tail@.subrange(0, j as int));
        }
        assert(row@ =~= f.grid@[i as int]@ + g.grid@[i as int]@);
        grid.push(row);
        i = i + 1;
    }
    Ok(BlockMat { rows: f.rows, cols: f.cols + g.cols, grid })
}

/// Sum of the row counts of the first `k` matrices.
pub open spec fn rows_before(fs: Seq<BlockMat>, k: int) -> nat
    decreases k,
{
    if k <= 0 {
        0
    } else {
        rows_before(fs, k - 1) + fs[k - 1].rows as nat
    }
}

/// Sum of the column counts of the first `k` matrices.
pub open spec fn cols_before(fs: Seq<BlockMat>, k: int) -> nat
    decreases k,
{
    if k <= 0 {
        0
    } else {
        cols_before(fs, k - 1) + fs[k - 1].cols as nat
    }
}

/// The grid of `f` has at least `rows` rows of at least `cols` kernels.
pub open spec fn covers_shape(f: BlockMat) -> bool {
    &&& f.grid@.len() >= f.rows
    &&& forall|i: int| 0 <= i < f.rows ==> #[trigger] f.grid@[i]@.len() >= f.cols
}

/// The kernel that the block-diagonal arrangement of `fs` holds at block
/// `(r, c)`, looking at the matrices from index `k` on: the kernel of the
/// block that covers `(r, c)`, or `Zero` off the diagonal blocks.
pub open spec fn bimap_cell(fs: Seq<BlockMat>, k: int, r: int, c: int) -> KernelRef
    decreases fs.len() - k,
{
    if k < 0 || k >= fs.len() {
        KernelRef::Zero
    } else if rows_before(fs, k) <= r < rows_before(fs, k + 1) && cols_before(fs, k) <= c
        < cols_before(fs, k + 1) {
        fs[k].grid@[r - rows_before(fs, k)]@[c - cols_before(fs, k)]
    } else {
        bimap_cell(fs, k + 1, r, c)
    }
}

proof fn lemma_before_monotone(fs: Seq<BlockMat>, a: int, b: int)
    requires
        0 <= a <= b,
    ensures
        rows_before(fs, a) <= rows_before(fs, b),
        cols_before(fs, a) <= cols_before(fs, b),
    decreases b - a,
{
    if a < b {
        lemma_before_monotone(fs, a, b - 1);
    }
}

/// Cells of block `k` are found by a search that starts at any earlier block.
proof fn lemma_bimap_cell_in_block(fs: Seq<BlockMat>, s: int, k: int, r: int, c: int)
    requires
        0 <= s <= k < fs.len(),
        rows_before(fs, k) <= r < rows_before(fs, k + 1),
        cols_before(fs, k) <= c < cols_before(fs, k + 1),
    ensures
        bimap_cell(fs, s, r, c) == fs[k].grid@[r - rows_before(fs, k)]@[c - cols_before(fs, k)],
    decreases k - s,
{
    if s < k {
        lemma_before_monotone(fs, s + 1, k);
        lemma_bimap_cell_in_block(fs, s + 1, k, r, c);
    }
}

/// Rows in the band of block `k` hold `Zero` outside that block's columns.
proof fn lemma_bimap_cell_off_block(fs: Seq<BlockMat>, s: int, k: int, r: int, c: int)
    requires
        0 <= s <= k < fs.len(),
        rows_before(fs, k) <= r < rows_before(fs, k + 1),
        !(cols_before(fs, k) <= c < cols_before(fs, k + 1)),
    ensures
        bimap_cell(fs, s, r, c) == KernelRef::Zero,
    decreases fs.len() - s,
{
    if s < k {
        lemma_before_monotone(fs, s + 1, k);
        lemma_bimap_cell_off_block(fs, s + 1, k, r, c);
    } else if s == k {
        lemma_bimap_cell_after(fs, k + 1, r, c);
    }
}

/// A search that starts past the band holding row `r` finds `Zero`.
proof fn lemma_bimap_cell_after(fs: Seq<BlockMat>, s: int, r: int, c: int)
    requires
        0 <= s,
        r < rows_before(fs, s),
    ensures
        bimap_cell(fs, s, r, c) == KernelRef::Zero,
    decreases fs.len() - s,
{
    if s < fs.len() {
        lemma_before_monotone(fs, s, s + 1);
        lemma_bimap_cell_after(fs, s + 1, r, c);
    }
}

/// `bimap(fs)`: the block-diagonal arrangement `f_0 ⊕ f_1 ⊕ ...`.
pub fn bimap(fs: &[BlockMat]) -> (r: Result<BlockMat, ValidationError>)
    requires
        rows_before(fs@, fs@.len() as int) <= usize::MAX,
        cols_before(fs@, fs@.len() as int) <= usize::MAX,
        forall|k: int| 0 <= k < fs@.len() ==> covers_shape(#[trigger] fs@[k]),
    ensures
        fs@.len() == 0 ==> r == Err::<BlockMat, ValidationError>(ValidationError::EmptyBimap),
        fs@.len() > 0 ==> r is Ok,
        r matches Ok(b) ==> (b.rows == rows_before(fs@, fs@.len() as int)
            && b.cols == cols_before(fs@, fs@.len() as int) && b.shape_ok() && forall|i: int, j: int|
            0 <= i < b.rows && 0 <= j < b.cols ==> #[trigger] b.cell(i, j) == bimap_cell(fs@, 0, i, j)),
{
    if fs.len() == 0 {
        return Err(ValidationError::EmptyBimap);
    }
    let ghost s = fs@;
    let ghost n = s.len() as int;
    let mut total_rows: usize = 0;
    let mut total_cols: usize = 0;
    let mut k: usize = 0;
    while k < fs.len()
        invariant
            k <= s.len(),
            s == fs@,
            n == s.len(),
            rows_before(s, n) <= usize::MAX,
            cols_before(s, n) <= usize::MAX,
            total_rows == rows_before(s, k as int),
            total_cols == cols_before(s, k as int),
        decreases s.len() - k,
    {
        proof {
            lemma_before_monotone(s, k + 1, n);
        }
        total_rows = total_rows + fs[k].rows;
        total_cols = total_cols + fs[k].cols;
        k = k + 1;
    }
    // Rows are built band by band: block `k` contributes its rows, each padded
    // with `Zero` to the left and right of its columns.
    let mut grid: Vec<Vec<KernelRef>> = Vec::new();
    let mut row_offset: usize = 0;
    let mut col_offset: usize = 0;
    let mut k: usize = 0;
    while k < fs.len()
        invariant
            k <= s.len(),
            s == fs@,
            n == s.len(),
            total_rows == rows_before(s, n),
            total_cols == cols_before(s, n),
            row_offset == rows_before(s, k as int),
            col_offset == cols_before(s, k as int),
            grid@.len() == row_offset,
            forall|q: int| 0 <= q < s.len() ==> covers_shape(#[trigger] s[q]),
            forall|i: int| 0 <= i < grid@.len() ==> (#[trigger] grid@[i])@.len() == total_cols,
            forall|i: int, j: int|
                0 <= i < grid@.len() && 0 <= j < total_cols ==> #[trigger] grid@[i]@[j]
                    == bimap_cell(s, 0, i, j),
        decreases s.len() - k,
    {
        proof {
            lemma_before_monotone(s, k + 1, n);
        }
        let f = &fs[k];
        let mut i: usize = 0;
        while i < f.rows
            invariant
                k < s.len(),
                s == fs@,
                n == s.len(),
                *f == s[k as int],
                total_cols == cols_before(s, n),
                row_offset == rows_before(s, k as int),
                col_offset == cols_before(s, k as int),
                col_offset + f.cols <= total_cols,
                row_offset + f.rows <= rows_before(s, n),
                rows_before(s, n) <= usize::MAX,
                covers_shape(*f),
                i <= f.rows,
                grid@.len() == row_offset + i,
                forall|q: int| 0 <= q < grid@.len() ==> (#[trigger] grid@[q])@.len() == total_cols,
                forall|q: int, j: int|
                    0 <= q < grid@.len() && 0 <= j < total_cols ==> #[trigger] grid@[q]@[j]
                        == bimap_cell(s, 0, q, j),
            decreases f.rows - i,
        {
            let src = &f.grid[i];
            let mut row: Vec<KernelRef> = Vec::new();
            let mut j: usize = 0;
            while j < total_cols
                invariant
                    j <= total_cols,
                    row@.len() == j,
                    *src == f.grid@[i as int],
                    src@.len() >= f.cols,
                    col_offset + f.cols <= total_cols,
                    forall|q: int|
                        0 <= q < j ==> #[trigger] row@[q] == (if col_offset <= q < col_offset
                            + f.cols {
                            src@[q - col_offset]
                        } else {
                            KernelRef::Zero
                        }),
                decreases total_cols - j,
            {
                if col_offset <= j && j < col_offset + f.cols {
                    row.push(src[j - col_offset]);
                } else {
                    row.push(KernelRef::Zero);
                }
                j = j + 1;
            }
            proof {
                let r = row_offset + i;
                assert forall|c: int| 0 <= c < total_cols implies #[trigger] row@[c]
                    == bimap_cell(s, 0, r, c) by {
                    if col_offset <= c < col_offset + f.cols {
                        lemma_bimap_cell_in_block(s, 0, k as int, r, c);
                    } else {
                        lemma_bimap_cell_off_block(s, 0, k as int, r, c);
                    }
                }
            }
            grid.push(row);
            i = i + 1;
        }
        row_offset = row_offset + f.rows;
        col_offset = col_offset + f.cols;
        k = k + 1;
    }
    Ok(BlockMat { rows: total_rows, cols: total_cols, grid })
}


/// Bit pattern of the single-precision number `2.0`.
pub const TWO_BITS: u32 = 0x4000_0000;

/// What is left of a kernel product or sum once its symbolic cases
/// (`Zero`, `Id`) are settled.
#[derive(Debug, Clone, Copy, PartialEq, Eq)]
pub enum KernelStep {
    /// The resulting kernel, known without arithmetic on entries.
    Done(KernelRef),
    /// The result is `General(a * b)`; the matrix product is computed on the numbers.
    Mul(Mat2, Mat2),
    /// The result is `General(a + b)`; the matrix sum is computed on the numbers.
    Add(Mat2, Mat2),
}

/// Kernel composition `g ∘ f` (the product of their matrices): `Zero`
/// absorbs, `Id` is neutral, two parameter matrices are multiplied.
pub open spec fn spec_compose_step(g: KernelRef, f: KernelRef) -> KernelStep {
    match (g, f) {
        (KernelRef::Zero, _) => KernelStep::Done(KernelRef::Zero),
        (_, KernelRef::Zero) => KernelStep::Done(KernelRef::Zero),
        (KernelRef::Id, k) => KernelStep::Done(k),
        (k, KernelRef::Id) => KernelStep::Done(k),
        (KernelRef::General(a), KernelRef::General(b)) => KernelStep::Mul(a, b),
    }
}

/// Kernel sum `a + b`: `Zero` is neutral, `Id + Id` is `2 * I_d`, any other
/// sum adds two matrices (`I_d` standing for `Id`).
pub open spec fn spec_add_step(a: KernelRef, b: KernelRef) -> KernelStep {
    match (a, b) {
        (KernelRef::Zero, k) => KernelStep::Done(k),
        (k, KernelRef::Zero) => KernelStep::Done(k),
        (KernelRef::Id, KernelRef::Id) => KernelStep::Done(
            KernelRef::General([[TWO_BITS, 0u32], [0u32, TWO_BITS]]),
        ),
        (KernelRef::Id, KernelRef::General(m)) => KernelStep::Add(
            [[ONE_BITS, 0u32], [0u32, ONE_BITS]],
            m,
        ),
        (KernelRef::General(m), KernelRef::Id) => KernelStep::Add(
            [[ONE_BITS, 0u32], [0u32, ONE_BITS]],
            m,
        ),
        (KernelRef::General(m1), KernelRef::General(m2)) => KernelStep::Add(m1, m2),
    }
}

/// The symbolic part of kernel composition `g ∘ f`.
pub fn kernel_compose_step(g: &KernelRef, f: &KernelRef) -> (r: KernelStep)
    ensures
        r == spec_compose_step(*g, *f),
{
    match (g, f) {
        (KernelRef::Zero, _) => KernelStep::Done(KernelRef::Zero),
        (_, KernelRef::Zero) => KernelStep::Done(KernelRef::Zero),
        (KernelRef::Id, k) => KernelStep::Done(*k),
        (k, KernelRef::Id) => KernelStep::Done(*k),
        (KernelRef::General(a), KernelRef::General(b)) => KernelStep::Mul(*a, *b),
    }
}

/// The symbolic part of the kernel sum `a + b`.
pub fn kernel_add_step(a: &KernelRef, b: &KernelRef) -> (r: KernelStep)
    ensures
        r == spec_add_step(*a, *b),
{
    match (a, b) {
        (KernelRef::Zero, k) => KernelStep::Done(*k),
        (k, KernelRef::Zero) => KernelStep::Done(*k),
        (KernelRef::Id, KernelRef::Id) => KernelStep::Done(
            KernelRef::General([[TWO_BITS, 0u32], [0u32, TWO_BITS]]),
        ),
        (KernelRef::Id, KernelRef::General(m)) => KernelStep::Add(identity_mat(), *m),
        (KernelRef::General(m), KernelRef::Id) => KernelStep::Add(identity_mat(), *m),
        (KernelRef::General(m1), KernelRef::General(m2)) => KernelStep::Add(*m1, *m2),
    }
}

/// Entry `(i, j)` of the dense `(rows * d) x (cols * d)` matrix that `bm`
/// stands for: entry `(i % d, j % d)` of the matrix of block `(i / d, j / d)`.
pub open spec fn dense_entry(bm: BlockMat, i: int, j: int) -> u32 {
    spec_eval_kernel(bm.cell(i / 2, j / 2))[i % 2][j % 2]
}

/// Row `bi * d + r` of the dense matrix of `bm`.
fn dense_row(bm: &BlockMat, bi: usize, r: usize) -> (v: Vec<u32>)
    requires
        covers_shape(*bm),
        bi < bm.rows,
        r < 2,
        bm.cols * 2 <= usize::MAX,
    ensures
        v@.len() == bm.cols * 2,
        forall|j: int| 0 <= j < v@.len() ==> #[trigger] v@[j] == dense_entry(*bm, bi * 2 + r, j),
{
    let row = &bm.grid[bi];
    let mut v: Vec<u32> = Vec::new();
    let mut bj: usize = 0;
    while bj < bm.cols
        invariant
            bj <= bm.cols,
            bi < bm.rows,
            r < 2,
            bm.cols * 2 <= usize::MAX,
            *row == bm.grid@[bi as int],
            row@.len() >= bm.cols,
            v@.len() == bj * 2,
            forall|j: int| 0 <= j < v@.len() ==> #[trigger] v@[j] == dense_entry(*bm, bi * 2 + r, j),
        decreases bm.cols - bj,
    {
        let km = eval_kernel(&row[bj]);
        let x0 = km[r][0];
        let x1 = km[r][1];
        proof {
            let i = bi * 2 + r;
            assert(i / 2 == bi && i % 2 == r);
            assert((bj * 2) / 2 == bj && (bj * 2) % 2 == 0);
            assert((bj * 2 + 1) / 2 == bj && (bj * 2 + 1) % 2 == 1);
        }
        v.push(x0);
        v.push(x1);
        bj = bj + 1;
    }
    v
}

/// `eval(bm)`: the dense `(rows * d) x (cols * d)` matrix of `bm`, each entry
/// by its bit pattern.
pub fn eval(bm: &BlockMat) -> (m: Vec<Vec<u32>>)
    requires
        covers_shape(*bm),
        bm.rows * 2 <= usize::MAX,
        bm.cols * 2 <= usize::MAX,
    ensures
        m@.len() == bm.rows * 2,
        forall|i: int| 0 <= i < bm.rows * 2 ==> (#[trigger] m@[i])@.len() == bm.cols * 2,
        forall|i: int, j: int|
            0 <= i < bm.rows * 2 && 0 <= j < bm.cols * 2 ==> #[trigger] m@[i]@[j] == dense_entry(
                *bm,
                i,
                j,
            ),
{
    let mut m: Vec<Vec<u32>> = Vec::new();
    let mut bi: usize = 0;
    while bi < bm.rows
        invariant
            bi <= bm.rows,
            covers_shape(*bm),
            bm.rows * 2 <= usize::MAX,
            bm.cols * 2 <= usize::MAX,
            m@.len() == bi * 2,
            forall|i: int| 0 <= i < m@.len() ==> (#[trigger] m@[i])@.len() == bm.cols * 2,
            forall|i: int, j: int|
                0 <= i < m@.len() && 0 <= j < bm.cols * 2 ==> #[trigger] m@[i]@[j]
                    == dense_entry(*bm, i, j),
        decreases bm.rows - bi,
    {
        let r0 = dense_row(bm, bi, 0);
        let r1 = dense_row(bm, bi, 1);
        m.push(r0);
        m.push(r1);
        bi = bi + 1;
    }
    m
}


/// The terms of block `(i, k)` of `g ∘ f`: the kernel pairs
/// `(g[i][j], f[j][k])` for `j` in `0..g.cols`, in that order. The block is
/// the sum of their compositions.
pub open spec fn compose_terms(g: BlockMat, f: BlockMat, i: int, k: int) -> Seq<
    (KernelRef, KernelRef),
> {
    Seq::new(g.cols as nat, |j: int| (g.cell(i, j), f.cell(j, k)))
}

/// The terms of block `(i, k)` of `g ∘ f`.
fn compose_cell_terms(g: &BlockMat, f: &BlockMat, i: usize, k: usize) -> (t: Vec<
    (KernelRef, KernelRef),
>)
    requires
        g.cols == f.rows,
        covers_shape(*g),
        covers_shape(*f),
        i < g.rows,
        k < f.cols,
    ensures
        t@ == compose_terms(*g, *f, i as int, k as int),
{
    let row = &g.grid[i];
    let mut t: Vec<(KernelRef, KernelRef)> = Vec::new();
    let mut j: usize = 0;
    while j < g.cols
        invariant
            j <= g.cols,
            g.cols == f.rows,
            covers_shape(*f),
            k < f.cols,
            *row == g.grid@[i as int],
            row@.len() >= g.cols,
            t@ == compose_terms(*g, *f, i as int, k as int).subrange(0, j as int),
        decreases g.cols - j,
    {
        let a = row[j];
        let b = f.grid[j][k];
        t.push((a, b));
        j = j + 1;
        assert(t@ =~= compose_terms(*g, *f, i as int, k as int).subrange(0, j as int));
    }
    assert(t@ =~= compose_terms(*g, *f, i as int, k as int));
    t
}

/// The plan of `compose(g, f) = g ∘ f`: for each block `(i, k)` of the
/// result, its terms. `g` must take as many blocks as `f` gives.
pub fn compose_plan(g: &BlockMat, f: &BlockMat) -> (r: Result<
    Vec<Vec<Vec<(KernelRef, KernelRef)>>>,
    ValidationError,
>)
    requires
        g.cols == f.rows ==> covers_shape(*g) && covers_shape(*f),
    ensures
        g.cols != f.rows ==> r == Err::<Vec<Vec<Vec<(KernelRef, KernelRef)>>>, ValidationError>(
            ValidationError::DimensionMismatch { left_cols: g.cols, right_rows: f.rows },
        ),
        g.cols == f.rows ==> r is Ok,
        r matches Ok(p) ==> {
            &&& p@.len() == g.rows
            &&& forall|i: int| 0 <= i < g.rows ==> (#[trigger] p@[i])@.len() == f.cols
            &&& forall|i: int, k: int|
                0 <= i < g.rows && 0 <= k < f.cols ==> #[trigger] p@[i]@[k]@ == compose_terms(
                    *g,
                    *f,
                    i,
                    k,
                )
        },
{
    if g.cols != f.rows {
        return Err(ValidationError::DimensionMismatch { left_cols: g.cols, right_rows: f.rows });
    }
    let mut p: Vec<Vec<Vec<(KernelRef, KernelRef)>>> = Vec::new();
    let mut i: usize = 0;
    while i < g.rows
        invariant
            i <= g.rows,
            g.cols == f.rows,
            covers_shape(*g),
            covers_shape(*f),
            p@.len() == i,
            forall|q: int| 0 <= q < i ==> (#[trigger] p@[q])@.len() == f.cols,
            forall|q: int, k: int|
                0 <= q < i && 0 <= k < f.cols ==> #[trigger] p@[q]@[k]@ == compose_terms(
                    *g,
                    *f,
                    q,
                    k,
                ),
        decreases g.rows - i,
    {
        let mut row: Vec<Vec<(KernelRef, KernelRef)>> = Vec::new();
        let mut k: usize = 0;
        while k < f.cols
            invariant
                k <= f.cols,
                i < g.rows,
                g.cols == f.rows,
                covers_shape(*g),
                covers_shape(*f),
                row@.len() == k,
                forall|q: int| 0 <= q < k ==> #[trigger] row@[q]@ == compose_terms(
                    *g,
                    *f,
                    i as int,
                    q,
                ),
            decreases f.cols - k,
        {
            row.push(compose_cell_terms(g, f, i, k));
            k = k + 1;
        }
        p.push(row);
        i = i + 1;
    }
    Ok(p)
}


/// Block `(i, j)` of the codiagonal `∇_n = copair(id_n, id_n)`, an
/// `n x 2n` block matrix.
pub open spec fn codiagonal_cell(n: int, i: int, j: int) -> KernelRef {
    if j == i || j == i + n {
        KernelRef::Id
    } else {
        KernelRef::Zero
    }
}

/// Block `(i, j)` of the diagonal `Δ_n = pair(id_n, id_n)`, a `2n x n`
/// block matrix.
pub open spec fn diagonal_cell(n: int, i: int, j: int) -> KernelRef {
    if i == j || i == j + n {
        KernelRef::Id
    } else {
        KernelRef::Zero
    }
}

/// Block `(i, j)` of the direct sum `f ⊕ g`.
pub open spec fn direct_sum_cell(f: BlockMat, g: BlockMat, i: int, j: int) -> KernelRef {
    if i < f.rows && j < f.cols {
        f.cell(i, j)
    } else if i >= f.rows && j >= f.cols {
        g.cell(i - f.rows, j - f.cols)
    } else {
        KernelRef::Zero
    }
}

/// The structural factors of the morphism sum of parallel `f, g : A -> B`,
/// `f + g = ∇_B ∘ (f ⊕ g) ∘ Δ_A`: the triple `(∇_B, f ⊕ g, Δ_A)`.
///
/// `f` and `g` must be parallel (same rows, same columns), and both
/// dimensions must be at least one.
pub fn morph_add_factors(f: BlockMat, g: BlockMat) -> (r: Result<
    (BlockMat, BlockMat, BlockMat),
    ValidationError,
>)
    requires
        f.rows == g.rows && f.cols == g.cols && f.rows > 0 && f.cols > 0 ==> {
            &&& covers_shape(f)
            &&& covers_shape(g)
            &&& f.rows + f.rows <= usize::MAX
            &&& f.cols + f.cols <= usize::MAX
        },
    ensures
        f.rows != g.rows ==> r == Err::<(BlockMat, BlockMat, BlockMat), ValidationError>(
            ValidationError::DimensionMismatch { left_cols: f.rows, right_rows: g.rows },
        ),
        f.rows == g.rows && f.cols != g.cols ==> r == Err::<
            (BlockMat, BlockMat, BlockMat),
            ValidationError,
        >(ValidationError::DimensionMismatch { left_cols: f.cols, right_rows: g.cols }),
        f.rows == g.rows && f.cols == g.cols && (f.rows == 0 || f.cols == 0) ==> r == Err::<
            (BlockMat, BlockMat, BlockMat),
            ValidationError,
        >(ValidationError::ZeroDimension),
        f.rows == g.rows && f.cols == g.cols && f.rows > 0 && f.cols > 0 ==> r is Ok,
        r matches Ok((sigma, sum, delta)) ==> {
            &&& sigma.rows == f.rows && sigma.cols == f.rows + f.rows && sigma.shape_ok()
            &&& forall|i: int, j: int|
                0 <= i < sigma.rows && 0 <= j < sigma.cols ==> #[trigger] sigma.cell(i, j)
                    == codiagonal_cell(f.rows as int, i, j)
            &&& sum.rows == f.rows + g.rows && sum.cols == f.cols + g.cols && sum.shape_ok()
            &&& forall|i: int, j: int|
                0 <= i < sum.rows && 0 <= j < sum.cols ==> #[trigger] sum.cell(i, j)
                    == direct_sum_cell(f, g, i, j)
            &&& delta.rows == f.cols + f.cols && delta.cols == f.cols && delta.shape_ok()
            &&& forall|i: int, j: int|
                0 <= i < delta.rows && 0 <= j < delta.cols ==> #[trigger] delta.cell(i, j)
                    == diagonal_cell(f.cols as int, i, j)
        },
{
    if f.rows != g.rows {
        return Err(ValidationError::DimensionMismatch { left_cols: f.rows, right_rows: g.rows });
    }
    if f.cols != g.cols {
        return Err(ValidationError::DimensionMismatch { left_cols: f.cols, right_rows: g.cols });
    }
    let id_a = match identity(f.cols) {
        Ok(b) => b,
        Err(e) => {
            return Err(e);
        },
    };
    let id_b = match identity(f.rows) {
        Ok(b) => b,
        Err(e) => {
            return Err(e);
        },
    };
    let delta = match pair(&id_a, &id_a) {
        Ok(b) => b,
        Err(e) => {
            return Err(e);
        },
    };
    let sigma = match copair(&id_b, &id_b) {
        Ok(b) => b,
        Err(e) => {
            return Err(e);
        },
    };
    let ghost gf = f;
    let ghost gg = g;
    let parts = vec![f, g];
    let ghost fs = parts@;
    proof {
        assert(fs[0] == gf && fs[1] == gg);
        assert(rows_before(fs, 2) == gf.rows + gg.rows && cols_before(fs, 2) == gf.cols + gg.cols)
            by {
            reveal_with_fuel(rows_before, 3);
            reveal_with_fuel(cols_before, 3);
        }
    }
    let sum = match bimap(parts.as_slice()) {
        Ok(b) => b,
        Err(e) => {
            return Err(e);
        },
    };
    proof {
        let n = gf.cols as int;
        assert(delta.cells() == id_a.cells() + id_a.cells());
        assert(delta.grid@.len() == delta.cells().len());
        assert forall|i: int| 0 <= i < delta.rows implies #[trigger] delta.grid@[i]@.len()
            == delta.cols by {
            assert(delta.cells()[i] == delta.grid@[i]@);
            if i < n {
                assert(id_a.cells()[i] == id_a.grid@[i]@);
            } else {
                assert(id_a.cells()[i - n] == id_a.grid@[i - n]@);
            }
        }
        assert forall|i: int, j: int|
            0 <= i < delta.rows && 0 <= j < delta.cols implies #[trigger] delta.cell(i, j)
            == diagonal_cell(n, i, j) by {
            assert(delta.cells()[i] == delta.grid@[i]@);
            if i < n {
                assert(id_a.cells()[i] == id_a.grid@[i]@);
                assert(id_a.cell(i, j) == (if i == j {
                    KernelRef::Id
                } else {
                    KernelRef::Zero
                }));
            } else {
                assert(id_a.cells()[i - n] == id_a.grid@[i - n]@);
                assert(id_a.cell(i - n, j) == (if i - n == j {
                    KernelRef::Id
                } else {
                    KernelRef::Zero
                }));
            }
        }
        let m = gf.rows as int;
        assert forall|i: int| 0 <= i < sigma.rows implies #[trigger] sigma.grid@[i]@.len()
            == sigma.cols by {
            assert(sigma.grid@[i]@ == id_b.grid@[i]@ + id_b.grid@[i]@);
        }
        assert forall|i: int, j: int|
            0 <= i < sigma.rows && 0 <= j < sigma.cols implies #[trigger] sigma.cell(i, j)
            == codiagonal_cell(m, i, j) by {
            assert(sigma.grid@[i]@ == id_b.grid@[i]@ + id_b.grid@[i]@);
            if j < m {
                assert(id_b.cell(i, j) == (if i == j {
                    KernelRef::Id
                } else {
                    KernelRef::Zero
                }));
            } else {
                assert(id_b.cell(i, j - m) == (if i == j - m {
                    KernelRef::Id
                } else {
                    KernelRef::Zero
                }));
            }
        }
        assert forall|i: int, j: int|
            0 <= i < sum.rows && 0 <= j < sum.cols implies #[trigger] sum.cell(i, j)
            == direct_sum_cell(gf, gg, i, j) by {
            reveal_with_fuel(rows_before, 3);
            reveal_with_fuel(cols_before, 3);
            reveal_with_fuel(bimap_cell, 3);
        }
    }
    Ok((sigma, sum, delta))
}

} // verus!
