//! The representative validation programs V1 to V8.
//!
//! Parameter entries and input values are single-precision numbers, held by
//! their bit patterns (see `ir`).
use vstd::prelude::*;
use vstd::string::*;
use crate::ir::{BlockMat, KernelRef, Mat2};
use crate::semantics::{bimap, bimap_cell, cols_before, covers_shape, kernel_app, rows_before};

verus! {

/// One benchmark case: a block matrix and the input blocks to run it on.
#[derive(Debug, Clone)]
pub struct BenchmarkCase {
    pub id: &'static str,
    pub title: &'static str,
    pub description: &'static str,
    pub block_mat: BlockMat,
    /// One `d`-vector per block column, entries by bit pattern.
    pub input_blocks: Vec<[u32; 2]>,
}

/// Bit patterns of the numbers the cases use.
pub const F_NEG2: u32 = 0xc000_0000;
pub const F_NEG1: u32 = 0xbf80_0000;
pub const F_ZERO: u32 = 0;
pub const F_HALF: u32 = 0x3f00_0000;
pub const F_ONE: u32 = 0x3f80_0000;
pub const F_TWO: u32 = 0x4000_0000;
pub const F_THREE: u32 = 0x4040_0000;
pub const F_FOUR: u32 = 0x4080_0000;
pub const F_FIVE: u32 = 0x40a0_0000;
pub const F_SIX: u32 = 0x40c0_0000;

/// The `2 x 2` matrix `[[a, b], [c, d]]`.
pub open spec fn mat(a: u32, b: u32, c: u32, d: u32) -> Mat2 {
    [[a, b], [c, d]]
}

pub open spec fn gen(a: u32, b: u32, c: u32, d: u32) -> KernelRef {
    KernelRef::General(mat(a, b, c, d))
}

/// The case has the given matrix shape and cells, and the given inputs.
pub open spec fn case_is(
    c: BenchmarkCase,
    id: Seq<char>,
    title: Seq<char>,
    description: Seq<char>,
    rows: usize,
    cols: usize,
    cells: Seq<Seq<KernelRef>>,
    inputs: Seq<[u32; 2]>,
) -> bool {
    &&& c.id@ == id
    &&& c.title@ == title
    &&& c.description@ == description
    &&& c.block_mat.rows == rows
    &&& c.block_mat.cols == cols
    &&& c.block_mat.shape_ok()
    &&& c.block_mat.cells() == cells
    &&& c.input_blocks@ == inputs
}

fn gen_kernel(a: u32, b: u32, c: u32, d: u32) -> (k: KernelRef)
    ensures
        k == gen(a, b, c, d),
{
    KernelRef::General([[a, b], [c, d]])
}

/// V1: dense 2 x 3.
pub open spec fn is_v1(c: BenchmarkCase) -> bool {
    let m1 = gen(F_ONE, F_TWO, F_THREE, F_FOUR);
    let m2 = gen(F_HALF, F_NEG1, F_ONE, F_HALF);
    let m3 = gen(F_TWO, F_ZERO, F_ZERO, F_TWO);
    case_is(
        c,
        seq!['V', '1'],
        "全稠密基准"@,
        "2x3 全稠密 BlockMat，验证端到端正确性、广播与归约调度。"@,
        2,
        3,
        seq![seq![m1, m2, m3], seq![m3, m1, m2]],
        seq![[F_ONE, F_ZERO], [F_ZERO, F_ONE], [F_ONE, F_ONE]],
    )
}

fn v1_dense() -> (c: BenchmarkCase)
    ensures
        is_v1(c),
{
    let m1 = gen_kernel(F_ONE, F_TWO, F_THREE, F_FOUR);
    let m2 = gen_kernel(F_HALF, F_NEG1, F_ONE, F_HALF);
    let m3 = gen_kernel(F_TWO, F_ZERO, F_ZERO, F_TWO);
    let grid = vec![vec![m1, m2, m3], vec![m3, m1, m2]];
    let c = BenchmarkCase {
        id: "V1",
        title: "全稠密基准",
        description: "2x3 全稠密 BlockMat，验证端到端正确性、广播与归约调度。",
        block_mat: BlockMat { rows: 2, cols: 3, grid },
        input_blocks: vec![[F_ONE, F_ZERO], [F_ZERO, F_ONE], [F_ONE, F_ONE]],
    };
    proof {
        reveal_strlit("V1");
        assert(c.id@ =~= seq!['V', '1']);
        assert(c.input_blocks@ =~= seq![[F_ONE, F_ZERO], [F_ZERO, F_ONE], [F_ONE, F_ONE]]);
        assert(c.block_mat.shape_ok());
        assert(c.block_mat.cells() =~= seq![seq![m1, m2, m3], seq![m3, m1, m2]]);
    }
    c
}


/// V2: a zero parameter matrix, for R1.
pub open spec fn is_v2(c: BenchmarkCase) -> bool {
    let m = gen(F_ONE, F_TWO, F_THREE, F_FOUR);
    let z = gen(F_ZERO, F_ZERO, F_ZERO, F_ZERO);
    case_is(
        c,
        seq!['V', '2'],
        "含零块"@,
        "2x3 含单个零块，验证 R1 零块消去。"@,
        2,
        3,
        seq![seq![m, m, z], seq![m, m, m]],
        seq![[F_ONE, F_ZERO], [F_ZERO, F_ONE], [F_ONE, F_ONE]],
    )
}

fn v2_zero_block() -> (c: BenchmarkCase)
    ensures
        is_v2(c),
{
    let m = gen_kernel(F_ONE, F_TWO, F_THREE, F_FOUR);
    let z = gen_kernel(F_ZERO, F_ZERO, F_ZERO, F_ZERO);
    let c = BenchmarkCase {
        id: "V2",
        title: "含零块",
        description: "2x3 含单个零块，验证 R1 零块消去。",
        block_mat: BlockMat { rows: 2, cols: 3, grid: vec![vec![m, m, z], vec![m, m, m]] },
        input_blocks: vec![[F_ONE, F_ZERO], [F_ZERO, F_ONE], [F_ONE, F_ONE]],
    };
    proof {
        reveal_strlit("V2");
        assert(c.id@ =~= seq!['V', '2']);
        assert(c.input_blocks@ =~= seq![[F_ONE, F_ZERO], [F_ZERO, F_ONE], [F_ONE, F_ONE]]);
        assert(c.block_mat.shape_ok());
        assert(c.block_mat.cells() =~= seq![seq![m, m, z], seq![m, m, m]]);
    }
    c
}

/// V3: an identity parameter matrix, for R2.
pub open spec fn is_v3(c: BenchmarkCase) -> bool {
    let id = gen(F_ONE, F_ZERO, F_ZERO, F_ONE);
    let m = gen(F_ONE, F_ONE, F_ZERO, F_ONE);
    let z = KernelRef::Zero;
    case_is(
        c,
        seq!['V', '3'],
        "含恒等块"@,
        "2x3 含显式恒等块，验证 R2 恒等块特化。"@,
        2,
        3,
        seq![seq![id, m, z], seq![z, m, m]],
        seq![[F_TWO, F_ONE], [F_ONE, F_ONE], [F_HALF, F_TWO]],
    )
}

fn v3_identity() -> (c: BenchmarkCase)
    ensures
        is_v3(c),
{
    let id = gen_kernel(F_ONE, F_ZERO, F_ZERO, F_ONE);
    let m = gen_kernel(F_ONE, F_ONE, F_ZERO, F_ONE);
    let z = KernelRef::Zero;
    let c = BenchmarkCase {
        id: "V3",
        title: "含恒等块",
        description: "2x3 含显式恒等块，验证 R2 恒等块特化。",
        block_mat: BlockMat { rows: 2, cols: 3, grid: vec![vec![id, m, z], vec![z, m, m]] },
        input_blocks: vec![[F_TWO, F_ONE], [F_ONE, F_ONE], [F_HALF, F_TWO]],
    };
    proof {
        reveal_strlit("V3");
        assert(c.id@ =~= seq!['V', '3']);
        assert(c.input_blocks@ =~= seq![[F_TWO, F_ONE], [F_ONE, F_ONE], [F_HALF, F_TWO]]);
        assert(c.block_mat.shape_ok());
        assert(c.block_mat.cells() =~= seq![seq![id, m, z], seq![z, m, m]]);
    }
    c
}

/// V4: block diagonal, every row with a single block.
pub open spec fn is_v4(c: BenchmarkCase) -> bool {
    let a = gen(F_TWO, F_ZERO, F_ZERO, F_TWO);
    let b = gen(F_ONE, F_ZERO, F_ONE, F_ONE);
    let d = gen(F_ZERO, F_ONE, F_ONE, F_ZERO);
    let z = KernelRef::Zero;
    case_is(
        c,
        seq!['V', '4'],
        "块对角"@,
        "3x3 块对角矩阵，验证单项行特化与结构利用度。"@,
        3,
        3,
        seq![seq![a, z, z], seq![z, b, z], seq![z, z, d]],
        seq![[F_ONE, F_TWO], [F_TWO, F_ONE], [F_THREE, F_FOUR]],
    )
}

fn v4_block_diagonal() -> (c: BenchmarkCase)
    ensures
        is_v4(c),
{
    let a = gen_kernel(F_TWO, F_ZERO, F_ZERO, F_TWO);
    let b = gen_kernel(F_ONE, F_ZERO, F_ONE, F_ONE);
    let d = gen_kernel(F_ZERO, F_ONE, F_ONE, F_ZERO);
    let z = KernelRef::Zero;
    let c = BenchmarkCase {
        id: "V4",
        title: "块对角",
        description: "3x3 块对角矩阵，验证单项行特化与结构利用度。",
        block_mat: BlockMat { rows: 3, cols: 3, grid: vec![vec![a, z, z], vec![z, b, z], vec![z, z, d]] },
        input_blocks: vec![[F_ONE, F_TWO], [F_TWO, F_ONE], [F_THREE, F_FOUR]],
    };
    proof {
        reveal_strlit("V4");
        assert(c.id@ =~= seq!['V', '4']);
        assert(c.input_blocks@ =~= seq![[F_ONE, F_TWO], [F_TWO, F_ONE], [F_THREE, F_FOUR]]);
        assert(c.block_mat.shape_ok());
        assert(c.block_mat.cells() =~= seq![seq![a, z, z], seq![z, b, z], seq![z, z, d]]);
    }
    c
}

/// V5: a block permutation.
pub open spec fn is_v5(c: BenchmarkCase) -> bool {
    let i = KernelRef::Id;
    let z = KernelRef::Zero;
    case_is(
        c,
        seq!['V', '5'],
        "置换矩阵"@,
        "3x3 置换矩阵，验证零执行成本的纯结构路径。"@,
        3,
        3,
        seq![seq![z, i, z], seq![z, z, i], seq![i, z, z]],
        seq![[F_ONE, F_TWO], [F_THREE, F_FOUR], [F_FIVE, F_SIX]],
    )
}

fn v5_permutation() -> (c: BenchmarkCase)
    ensures
        is_v5(c),
{
    let i = KernelRef::Id;
    let z = KernelRef::Zero;
    let c = BenchmarkCase {
        id: "V5",
        title: "置换矩阵",
        description: "3x3 置换矩阵，验证零执行成本的纯结构路径。",
        block_mat: BlockMat { rows: 3, cols: 3, grid: vec![vec![z, i, z], vec![z, z, i], vec![i, z, z]] },
        input_blocks: vec![[F_ONE, F_TWO], [F_THREE, F_FOUR], [F_FIVE, F_SIX]],
    };
    proof {
        reveal_strlit("V5");
        assert(c.id@ =~= seq!['V', '5']);
        assert(c.input_blocks@ =~= seq![[F_ONE, F_TWO], [F_THREE, F_FOUR], [F_FIVE, F_SIX]]);
        assert(c.block_mat.shape_ok());
        assert(c.block_mat.cells() =~= seq![seq![z, i, z], seq![z, z, i], seq![i, z, z]]);
    }
    c
}

/// V6: larger, mixed structure.
pub open spec fn is_v6(c: BenchmarkCase) -> bool {
    let a = gen(F_ONE, F_ZERO, F_ZERO, F_ONE);
    let b = gen(F_TWO, F_ZERO, F_ZERO, F_TWO);
    let d = gen(F_ONE, F_ONE, F_ZERO, F_ONE);
    let z = KernelRef::Zero;
    case_is(
        c,
        seq!['V', '6'],
        "大规模混合"@,
        "4x3 输入输出规模的混合结构矩阵，验证完整闭环与代价对比。"@,
        3,
        4,
        seq![seq![a, d, z, b], seq![z, b, d, z], seq![b, z, a, d]],
        seq![[F_ONE, F_ZERO], [F_ZERO, F_ONE], [F_TWO, F_TWO], [F_ONE, F_THREE]],
    )
}

fn v6_large_mixed() -> (c: BenchmarkCase)
    ensures
        is_v6(c),
{
    let a = gen_kernel(F_ONE, F_ZERO, F_ZERO, F_ONE);
    let b = gen_kernel(F_TWO, F_ZERO, F_ZERO, F_TWO);
    let d = gen_kernel(F_ONE, F_ONE, F_ZERO, F_ONE);
    let z = KernelRef::Zero;
    let c = BenchmarkCase {
        id: "V6",
        title: "大规模混合",
        description: "4x3 输入输出规模的混合结构矩阵，验证完整闭环与代价对比。",
        block_mat: BlockMat {
            rows: 3,
            cols: 4,
            grid: vec![vec![a, d, z, b], vec![z, b, d, z], vec![b, z, a, d]],
        },
        input_blocks: vec![[F_ONE, F_ZERO], [F_ZERO, F_ONE], [F_TWO, F_TWO], [F_ONE, F_THREE]],
    };
    proof {
        reveal_strlit("V6");
        assert(c.id@ =~= seq!['V', '6']);
        assert(c.input_blocks@ =~= seq![[F_ONE, F_ZERO], [F_ZERO, F_ONE], [F_TWO, F_TWO], [F_ONE, F_THREE]]);
        assert(c.block_mat.shape_ok());
        assert(c.block_mat.cells() =~= seq![seq![a, d, z, b], seq![z, b, d, z], seq![b, z, a, d]]);
    }
    c
}

/// V7: the biproduct sum of two local maps, each injected into `B ⊕ B`:
/// `inj_0 ∘ a ∘ proj_0 + inj_1 ∘ b ∘ proj_1`, which is the block diagonal of
/// `a` and `b`.
pub open spec fn is_v7(c: BenchmarkCase) -> bool {
    let a = gen(F_ONE, F_TWO, F_ZERO, F_ONE);
    let b = gen(F_TWO, F_ZERO, F_ONE, F_ONE);
    let z = KernelRef::Zero;
    case_is(
        c,
        seq!['V', '7'],
        "双积分解加法"@,
        "用 morph_add 将两个局部态射注入到 B⊕B 上并求和，形成显式双积分解实验案例。"@,
        2,
        2,
        seq![seq![a, z], seq![z, b]],
        seq![[F_ONE, F_ONE], [F_TWO, F_THREE]],
    )
}

fn v7_biproduct_sum() -> (c: BenchmarkCase)
    ensures
        is_v7(c),
{
    let ma: Mat2 = [[F_ONE, F_TWO], [F_ZERO, F_ONE]];
    let mb: Mat2 = [[F_TWO, F_ZERO], [F_ONE, F_ONE]];
    let parts = vec![kernel_app(ma), kernel_app(mb)];
    let ghost fs = parts@;
    proof {
        assert(rows_before(fs, 2) == 2 && cols_before(fs, 2) == 2) by {
            reveal_with_fuel(rows_before, 3);
            reveal_with_fuel(cols_before, 3);
        }
        assert(covers_shape(fs[0]) && covers_shape(fs[1]));
    }
    let summed = match bimap(parts.as_slice()) {
        Ok(b) => b,
        Err(_) => {
            proof {
                assert(false);
            }
            kernel_app(ma)
        },
    };
    let c = BenchmarkCase {
        id: "V7",
        title: "双积分解加法",
        description: "用 morph_add 将两个局部态射注入到 B⊕B 上并求和，形成显式双积分解实验案例。",
        block_mat: summed,
        input_blocks: vec![[F_ONE, F_ONE], [F_TWO, F_THREE]],
    };
    proof {
        reveal_strlit("V7");
        reveal_with_fuel(rows_before, 3);
        reveal_with_fuel(cols_before, 3);
        reveal_with_fuel(bimap_cell, 3);
        assert(c.id@ =~= seq!['V', '7']);
        assert(c.input_blocks@ =~= seq![[F_ONE, F_ONE], [F_TWO, F_THREE]]);
        let a = gen(F_ONE, F_TWO, F_ZERO, F_ONE);
        let b = gen(F_TWO, F_ZERO, F_ONE, F_ONE);
        assert(summed.cell(0, 0) == a);
        assert(summed.cell(0, 1) == KernelRef::Zero);
        assert(summed.cell(1, 0) == KernelRef::Zero);
        assert(summed.cell(1, 1) == b);
        assert(summed.grid@[0]@ =~= seq![a, KernelRef::Zero]);
        assert(summed.grid@[1]@ =~= seq![KernelRef::Zero, b]);
        assert(c.block_mat.cells() =~= seq![seq![a, KernelRef::Zero], seq![KernelRef::Zero, b]]);
    }
    c
}


/// Bit pattern of a small integer `v` in `-2..=5`.
pub open spec fn small_bits(v: int) -> u32 {
    if v == -2 {
        F_NEG2
    } else if v == -1 {
        F_NEG1
    } else if v == 0 {
        F_ZERO
    } else if v == 1 {
        F_ONE
    } else if v == 2 {
        F_TWO
    } else if v == 3 {
        F_THREE
    } else if v == 4 {
        F_FOUR
    } else {
        F_FIVE
    }
}

fn small_int_bits(v: i64) -> (r: u32)
    requires
        -2 <= v <= 5,
    ensures
        r == small_bits(v as int),
{
    if v == -2 {
        F_NEG2
    } else if v == -1 {
        F_NEG1
    } else if v == 0 {
        F_ZERO
    } else if v == 1 {
        F_ONE
    } else if v == 2 {
        F_TWO
    } else if v == 3 {
        F_THREE
    } else if v == 4 {
        F_FOUR
    } else {
        F_FIVE
    }
}

/// Number of block rows and columns of V8.
pub const V8_BLOCKS: usize = 64;

/// The kernel of V8 at block `(r, c)`, section by section:
/// A (rows 0..16) single identity rows; B (16..32) two shared scalar kernels
/// per row; C (32..48) a shared shear, a shared swap and, on alternate rows,
/// a scalar kernel or an identity, at rotating columns; D (48..56) hot
/// columns 2, 18, 34, 50 broadcast to every row; E (56..60) single general
/// rows; rows 60..64 and columns 60..64 stay empty.
pub open spec fn v8_cell(r: int, c: int) -> KernelRef {
    let two = gen(F_TWO, F_ZERO, F_ZERO, F_TWO);
    let neg = gen(F_NEG1, F_ZERO, F_ZERO, F_NEG1);
    let half = gen(F_HALF, F_ZERO, F_ZERO, F_HALF);
    let shear = gen(F_ONE, F_ONE, F_ZERO, F_ONE);
    let swap = gen(F_ZERO, F_ONE, F_ONE, F_ZERO);
    let mix = gen(F_ONE, F_NEG1, F_TWO, F_ZERO);
    if r < 16 {
        if c == r {
            KernelRef::Id
        } else {
            KernelRef::Zero
        }
    } else if r < 32 {
        let b = r - 16;
        if c == b {
            two
        } else if c == 16 + b {
            neg
        } else {
            KernelRef::Zero
        }
    } else if r < 48 {
        let b = r - 32;
        if c == (2 * b) % 56 {
            shear
        } else if c == (2 * b + 5) % 56 {
            swap
        } else if c == (2 * b + 9) % 56 {
            if b % 2 == 0 {
                half
            } else {
                KernelRef::Id
            }
        } else {
            KernelRef::Zero
        }
    } else if r < 56 {
        if c == 2 {
            shear
        } else if c == 18 {
            mix
        } else if c == 34 {
            two
        } else if c == 50 {
            swap
        } else {
            KernelRef::Zero
        }
    } else if r < 60 {
        if c == r {
            mix
        } else {
            KernelRef::Zero
        }
    } else {
        KernelRef::Zero
    }
}

fn v8_kernel(r: usize, c: usize) -> (k: KernelRef)
    requires
        r < V8_BLOCKS,
        c < V8_BLOCKS,
    ensures
        k == v8_cell(r as int, c as int),
{
    if r < 16 {
        if c == r {
            KernelRef::Id
        } else {
            KernelRef::Zero
        }
    } else if r < 32 {
        let b = r - 16;
        if c == b {
            gen_kernel(F_TWO, F_ZERO, F_ZERO, F_TWO)
        } else if c == 16 + b {
            gen_kernel(F_NEG1, F_ZERO, F_ZERO, F_NEG1)
        } else {
            KernelRef::Zero
        }
    } else if r < 48 {
        let b = r - 32;
        if c == (2 * b) % 56 {
            gen_kernel(F_ONE, F_ONE, F_ZERO, F_ONE)
        } else if c == (2 * b + 5) % 56 {
            gen_kernel(F_ZERO, F_ONE, F_ONE, F_ZERO)
        } else if c == (2 * b + 9) % 56 {
            if b % 2 == 0 {
                gen_kernel(F_HALF, F_ZERO, F_ZERO, F_HALF)
            } else {
                KernelRef::Id
            }
        } else {
            KernelRef::Zero
        }
    } else if r < 56 {
        if c == 2 {
            gen_kernel(F_ONE, F_ONE, F_ZERO, F_ONE)
        } else if c == 18 {
            gen_kernel(F_ONE, F_NEG1, F_TWO, F_ZERO)
        } else if c == 34 {
            gen_kernel(F_TWO, F_ZERO, F_ZERO, F_TWO)
        } else if c == 50 {
            gen_kernel(F_ZERO, F_ONE, F_ONE, F_ZERO)
        } else {
            KernelRef::Zero
        }
    } else if r < 60 {
        if c == r {
            gen_kernel(F_ONE, F_NEG1, F_TWO, F_ZERO)
        } else {
            KernelRef::Zero
        }
    } else {
        KernelRef::Zero
    }
}

/// V8's input block `idx`: `[idx mod 5 + 1, (3 idx) mod 7 - 2]`.
pub open spec fn v8_input(idx: int) -> [u32; 2] {
    [small_bits(idx % 5 + 1), small_bits((idx * 3) % 7 - 2)]
}

/// V8: 64 x 64 blocks (128 dimensions) mixing every structure.
pub open spec fn is_v8(c: BenchmarkCase) -> bool {
    &&& c.id@ == seq!['V', '8']
    &&& c.title@ == "128维多结构混合"@
    &&& c.description@ == "64 个 2D 基础块构成的 128 维输入输出混合 BlockMat，在单一案例中同时覆盖 Zero/Id/Scalar/共享参数/死行死列/单项行/高扇出广播与多项归约。"@
    &&& c.block_mat.rows == V8_BLOCKS
    &&& c.block_mat.cols == V8_BLOCKS
    &&& c.block_mat.shape_ok()
    &&& forall|i: int, j: int| 0 <= i < V8_BLOCKS && 0 <= j < V8_BLOCKS ==> #[trigger] c.block_mat.cell(i, j) == v8_cell(i, j)
    &&& c.input_blocks@.len() == V8_BLOCKS
    &&& forall|k: int| 0 <= k < V8_BLOCKS ==> #[trigger] c.input_blocks@[k] == v8_input(k)
}

fn v8_hundred_dim_banded() -> (c: BenchmarkCase)
    ensures
        is_v8(c),
{
    let mut grid: Vec<Vec<KernelRef>> = Vec::new();
    let mut r: usize = 0;
    while r < V8_BLOCKS
        invariant
            r <= V8_BLOCKS,
            grid@.len() == r,
            forall|i: int| 0 <= i < r ==> #[trigger] grid@[i]@.len() == V8_BLOCKS,
            forall|i: int, j: int| 0 <= i < r && 0 <= j < V8_BLOCKS ==> #[trigger] grid@[i]@[j] == v8_cell(i, j),
        decreases V8_BLOCKS - r,
    {
        let mut row: Vec<KernelRef> = Vec::new();
        let mut c: usize = 0;
        while c < V8_BLOCKS
            invariant
                r < V8_BLOCKS,
                c <= V8_BLOCKS,
                row@.len() == c,
                forall|j: int| 0 <= j < c ==> #[trigger] row@[j] == v8_cell(r as int, j),
            decreases V8_BLOCKS - c,
        {
            row.push(v8_kernel(r, c));
            c = c + 1;
        }
        grid.push(row);
        r = r + 1;
    }
    let mut inputs: Vec<[u32; 2]> = Vec::new();
    let mut k: usize = 0;
    while k < V8_BLOCKS
        invariant
            k <= V8_BLOCKS,
            inputs@.len() == k,
            forall|q: int| 0 <= q < k ==> #[trigger] inputs@[q] == v8_input(q),
        decreases V8_BLOCKS - k,
    {
        let x = small_int_bits((k % 5) as i64 + 1);
        let y = small_int_bits(((k * 3) % 7) as i64 - 2);
        inputs.push([x, y]);
        k = k + 1;
    }
    let c = BenchmarkCase {
        id: "V8",
        title: "128维多结构混合",
        description: "64 个 2D 基础块构成的 128 维输入输出混合 BlockMat，在单一案例中同时覆盖 Zero/Id/Scalar/共享参数/死行死列/单项行/高扇出广播与多项归约。",
        block_mat: BlockMat { rows: V8_BLOCKS, cols: V8_BLOCKS, grid },
        input_blocks: inputs,
    };
    proof {
        reveal_strlit("V8");
        assert(c.id@ =~= seq!['V', '8']);
    }
    c
}

// ------------------------------------------------------------------
// The collection
// ------------------------------------------------------------------
/// Number of cases.
pub const CASE_COUNT: usize = 8;

/// The id of case `k` (`"V1"` to `"V8"`).
pub open spec fn case_id_of(k: int) -> Seq<char> {
    if k == 0 {
        seq!['V', '1']
    } else if k == 1 {
        seq!['V', '2']
    } else if k == 2 {
        seq!['V', '3']
    } else if k == 3 {
        seq!['V', '4']
    } else if k == 4 {
        seq!['V', '5']
    } else if k == 5 {
        seq!['V', '6']
    } else if k == 6 {
        seq!['V', '7']
    } else {
        seq!['V', '8']
    }
}

/// `c` is case `k`.
pub open spec fn is_case(k: int, c: BenchmarkCase) -> bool {
    if k == 0 {
        is_v1(c)
    } else if k == 1 {
        is_v2(c)
    } else if k == 2 {
        is_v3(c)
    } else if k == 3 {
        is_v4(c)
    } else if k == 4 {
        is_v5(c)
    } else if k == 5 {
        is_v6(c)
    } else if k == 6 {
        is_v7(c)
    } else {
        is_v8(c)
    }
}

proof fn lemma_case_id(k: int, c: BenchmarkCase)
    requires
        0 <= k < CASE_COUNT,
        is_case(k, c),
    ensures
        c.id@ == case_id_of(k),
{
}

fn case_at(k: usize) -> (c: BenchmarkCase)
    requires
        k < CASE_COUNT,
    ensures
        is_case(k as int, c),
{
    if k == 0 {
        v1_dense()
    } else if k == 1 {
        v2_zero_block()
    } else if k == 2 {
        v3_identity()
    } else if k == 3 {
        v4_block_diagonal()
    } else if k == 4 {
        v5_permutation()
    } else if k == 5 {
        v6_large_mixed()
    } else if k == 6 {
        v7_biproduct_sum()
    } else {
        v8_hundred_dim_banded()
    }
}

/// All cases, V1 to V8 in order.
pub fn list_cases() -> (r: Vec<BenchmarkCase>)
    ensures
        r@.len() == CASE_COUNT,
        forall|k: int| 0 <= k < CASE_COUNT ==> is_case(k, #[trigger] r@[k]),
{
    let mut r: Vec<BenchmarkCase> = Vec::new();
    let mut k: usize = 0;
    while k < CASE_COUNT
        invariant
            k <= CASE_COUNT,
            r@.len() == k,
            forall|q: int| 0 <= q < k ==> is_case(q, #[trigger] r@[q]),
        decreases CASE_COUNT - k,
    {
        r.push(case_at(k));
        k = k + 1;
    }
    r
}

/// The case ids, V1 to V8 in order.
pub fn case_ids() -> (r: Vec<&'static str>)
    ensures
        r@.len() == CASE_COUNT,
        forall|k: int| 0 <= k < CASE_COUNT ==> (#[trigger] r@[k])@ == case_id_of(k),
{
    let mut r: Vec<&'static str> = Vec::new();
    let mut k: usize = 0;
    while k < CASE_COUNT
        invariant
            k <= CASE_COUNT,
            r@.len() == k,
            forall|q: int| 0 <= q < k ==> (#[trigger] r@[q])@ == case_id_of(q),
        decreases CASE_COUNT - k,
    {
        let c = case_at(k);
        proof {
            lemma_case_id(k as int, c);
        }
        r.push(c.id);
        k = k + 1;
    }
    r
}

/// Two characters are equal up to ASCII case.
pub open spec fn same_ignoring_ascii_case(a: char, b: char) -> bool {
    let x = a as u32;
    let y = b as u32;
    x == y || (65 <= x <= 90 && y == x + 32) || (65 <= y <= 90 && x == y + 32)
}

/// Two strings are equal up to ASCII case.
pub open spec fn eq_ignoring_ascii_case(a: Seq<char>, b: Seq<char>) -> bool {
    &&& a.len() == b.len()
    &&& forall|i: int| 0 <= i < a.len() ==> #[trigger] same_ignoring_ascii_case(a[i], b[i])
}

fn char_matches(a: char, b: char) -> (r: bool)
    ensures
        r == same_ignoring_ascii_case(a, b),
{
    let x = a as u32;
    let y = b as u32;
    x == y || (65 <= x && x <= 90 && y == x + 32) || (65 <= y && y <= 90 && x == y + 32)
}

fn str_matches(a: &str, b: &str) -> (r: bool)
    ensures
        r == eq_ignoring_ascii_case(a@, b@),
{
    let n = a.unicode_len();
    if n != b.unicode_len() {
        return false;
    }
    let mut i: usize = 0;
    while i < n
        invariant
            n == a@.len(),
            n == b@.len(),
            i <= n,
            forall|q: int| 0 <= q < i ==> #[trigger] same_ignoring_ascii_case(a@[q], b@[q]),
        decreases n - i,
    {
        if !char_matches(a.get_char(i), b.get_char(i)) {
            return false;
        }
        i = i + 1;
    }
    true
}

/// The first case whose id equals `case_id` up to ASCII case, if any.
pub fn get_case(case_id: &str) -> (r: Option<BenchmarkCase>)
    ensures
        r is Some <==> exists|k: int| 0 <= k < CASE_COUNT && eq_ignoring_ascii_case(#[trigger] case_id_of(k), case_id@),
        r matches Some(c) ==> exists|k: int|
            0 <= k < CASE_COUNT && eq_ignoring_ascii_case(#[trigger] case_id_of(k), case_id@) && is_case(k, c)
                && forall|q: int| 0 <= q < k ==> !eq_ignoring_ascii_case(#[trigger] case_id_of(q), case_id@),
{
    let mut k: usize = 0;
    while k < CASE_COUNT
        invariant
            k <= CASE_COUNT,
            forall|q: int| 0 <= q < k ==> !eq_ignoring_ascii_case(#[trigger] case_id_of(q), case_id@),
        decreases CASE_COUNT - k,
    {
        let c = case_at(k);
        proof {
            lemma_case_id(k as int, c);
        }
        if str_matches(c.id, case_id) {
            return Some(c);
        }
        k = k + 1;
    }
    None
}

} // verus!
