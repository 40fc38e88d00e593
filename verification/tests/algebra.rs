use csimulator::ir::{BlockMat, KernelRef, ValidationError};
use csimulator::semantics::{
    bimap, compose_plan, copy, eval, identity, inj, kernel_add_step, kernel_app, kernel_compose_step,
    merge, morph_add_factors, proj, KernelStep, ONE_BITS, TWO_BITS,
};

// The numeric side of the algebra, as the command-line program carries it out:
// the library settles the symbolic cases and names the products and sums left.

type FMat = [[f32; 2]; 2];

fn to_f(m: &[[u32; 2]; 2]) -> FMat {
    [
        [f32::from_bits(m[0][0]), f32::from_bits(m[0][1])],
        [f32::from_bits(m[1][0]), f32::from_bits(m[1][1])],
    ]
}

fn to_bits(m: &FMat) -> [[u32; 2]; 2] {
    [[m[0][0].to_bits(), m[0][1].to_bits()], [m[1][0].to_bits(), m[1][1].to_bits()]]
}

fn general(m: FMat) -> KernelRef {
    KernelRef::General(to_bits(&m))
}

fn finish(step: KernelStep) -> KernelRef {
    match step {
        KernelStep::Done(k) => k,
        KernelStep::Mul(a, b) => {
            let (a, b) = (to_f(&a), to_f(&b));
            let mut r = [[0.0f32; 2]; 2];
            for i in 0..2 {
                for j in 0..2 {
                    for k in 0..2 {
                        r[i][j] += a[i][k] * b[k][j];
                    }
                }
            }
            general(r)
        }
        KernelStep::Add(a, b) => {
            let (a, b) = (to_f(&a), to_f(&b));
            let mut r = [[0.0f32; 2]; 2];
            for i in 0..2 {
                for j in 0..2 {
                    r[i][j] = a[i][j] + b[i][j];
                }
            }
            general(r)
        }
    }
}

fn compose(g: &BlockMat, f: &BlockMat) -> Result<BlockMat, ValidationError> {
    let plan = compose_plan(g, f)?;
    let grid = plan
        .iter()
        .map(|row| {
            row.iter()
                .map(|terms| {
                    terms.iter().fold(KernelRef::Zero, |acc, (a, b)| {
                        finish(kernel_add_step(&acc, &finish(kernel_compose_step(a, b))))
                    })
                })
                .collect()
        })
        .collect();
    Ok(BlockMat { rows: g.rows, cols: f.cols, grid })
}

fn morph_add(f: &BlockMat, g: &BlockMat) -> Result<BlockMat, ValidationError> {
    let (sigma, sum, delta) = morph_add_factors(f.clone(), g.clone())?;
    compose(&sigma, &compose(&sum, &delta)?)
}

fn eval_f(bm: &BlockMat) -> Vec<Vec<f32>> {
    eval(bm).iter().map(|row| row.iter().map(|x| f32::from_bits(*x)).collect()).collect()
}

fn app(m: FMat) -> BlockMat {
    kernel_app(to_bits(&m))
}

#[test]
fn test_eval_identity() {
    let bm = identity(2).unwrap();
    let m = eval(&bm);
    assert_eq!(m.len(), 4);
    for i in 0..4 {
        for j in 0..4 {
            let expected = if i == j { 1.0 } else { 0.0 };
            assert!((f32::from_bits(m[i][j]) - expected).abs() < 1e-7);
        }
    }
}

#[test]
fn test_compose_identity() {
    let id2 = identity(2).unwrap();
    let result = compose(&id2, &id2).unwrap();
    assert_eq!(result.rows, 2);
    assert_eq!(result.cols, 2);
    for i in 0..2 {
        for j in 0..2 {
            if i == j {
                assert_eq!(result.grid[i][j], KernelRef::Id);
            } else {
                assert_eq!(result.grid[i][j], KernelRef::Zero);
            }
        }
    }
}

#[test]
fn test_proj_inj_roundtrip() {
    let p = proj(0, 2).unwrap();
    let i = inj(0, 2).unwrap();
    let result = compose(&p, &i).unwrap();
    assert_eq!(result.rows, 1);
    assert_eq!(result.cols, 1);
    assert_eq!(result.grid[0][0], KernelRef::Id);
}

#[test]
fn test_proj_inj_zero_when_indices_differ() {
    let p = proj(0, 2).unwrap();
    let i = inj(1, 2).unwrap();
    let result = compose(&p, &i).unwrap();
    assert_eq!(result.grid[0][0], KernelRef::Zero);
}

#[test]
fn test_merge_copy_gives_scaled_identity() {
    let result = compose(&merge(3).unwrap(), &copy(3).unwrap()).unwrap();
    assert_eq!(result.rows, 1);
    assert_eq!(result.cols, 1);
    assert_eq!(result.grid[0][0], general([[3.0, 0.0], [0.0, 3.0]]));
}

#[test]
fn test_bimap_distributes_over_compose() {
    let f1 = app([[1.0, 2.0], [0.0, 1.0]]);
    let f2 = app([[2.0, 0.0], [0.0, 2.0]]);
    let g1 = app([[0.0, 1.0], [1.0, 0.0]]);
    let g2 = app([[1.0, 0.0], [3.0, 1.0]]);

    let lhs = compose(&bimap(&[f1.clone(), f2.clone()]).unwrap(), &bimap(&[g1.clone(), g2.clone()]).unwrap())
        .unwrap();
    let rhs = bimap(&[compose(&f1, &g1).unwrap(), compose(&f2, &g2).unwrap()]).unwrap();

    assert_eq!(eval_f(&lhs), eval_f(&rhs));
}

#[test]
fn test_morph_add_has_zero_unit() {
    let f = app([[1.0, 2.0], [3.0, 4.0]]);
    let zero = BlockMat { rows: 1, cols: 1, grid: vec![vec![KernelRef::Zero]] };

    assert_eq!(eval_f(&morph_add(&f, &zero).unwrap()), eval_f(&f));
    assert_eq!(eval_f(&morph_add(&zero, &f).unwrap()), eval_f(&f));
}

#[test]
fn test_morph_add_is_associative() {
    let f = app([[1.0, 0.0], [0.0, 1.0]]);
    let g = app([[0.0, 1.0], [1.0, 0.0]]);
    let h = app([[2.0, 0.0], [0.0, 2.0]]);

    let lhs = morph_add(&morph_add(&f, &g).unwrap(), &h).unwrap();
    let rhs = morph_add(&f, &morph_add(&g, &h).unwrap()).unwrap();

    assert_eq!(eval_f(&lhs), eval_f(&rhs));
}

#[test]
fn test_morph_add_is_commutative() {
    let f = app([[1.0, 2.0], [0.0, 1.0]]);
    let g = app([[0.0, 1.0], [1.0, 0.0]]);

    let lhs = morph_add(&f, &g).unwrap();
    let rhs = morph_add(&g, &f).unwrap();

    assert_eq!(eval_f(&lhs), eval_f(&rhs));
}

#[test]
fn test_compose_distributes_over_morph_add() {
    let f = app([[1.0, 1.0], [0.0, 1.0]]);
    let g = app([[2.0, 0.0], [0.0, 2.0]]);
    let h = app([[0.0, 1.0], [1.0, 0.0]]);

    let left_lhs = compose(&h, &morph_add(&f, &g).unwrap()).unwrap();
    let left_rhs = morph_add(&compose(&h, &f).unwrap(), &compose(&h, &g).unwrap()).unwrap();
    assert_eq!(eval_f(&left_lhs), eval_f(&left_rhs));

    let right_lhs = compose(&morph_add(&f, &g).unwrap(), &h).unwrap();
    let right_rhs = morph_add(&compose(&f, &h).unwrap(), &compose(&g, &h).unwrap()).unwrap();
    assert_eq!(eval_f(&right_lhs), eval_f(&right_rhs));
}

#[test]
fn test_biproduct_resolution_of_identity() {
    let term0 = compose(&inj(0, 2).unwrap(), &proj(0, 2).unwrap()).unwrap();
    let term1 = compose(&inj(1, 2).unwrap(), &proj(1, 2).unwrap()).unwrap();
    let lhs = morph_add(&term0, &term1).unwrap();
    let rhs = identity(2).unwrap();

    assert_eq!(eval_f(&lhs), eval_f(&rhs));
}

#[test]
fn test_morph_add_rejects_non_parallel_morphisms() {
    let f = identity(2).unwrap();
    let g = proj(0, 2).unwrap();
    assert!(matches!(morph_add(&f, &g), Err(ValidationError::DimensionMismatch { .. })));
}

#[test]
fn kernel_steps_settle_the_symbolic_cases() {
    let m = to_bits(&[[1.0, 2.0], [3.0, 4.0]]);
    let n = to_bits(&[[5.0, 6.0], [7.0, 8.0]]);
    let id = [[ONE_BITS, 0], [0, ONE_BITS]];
    let gm = KernelRef::General(m);
    let gn = KernelRef::General(n);
    assert_eq!(kernel_compose_step(&KernelRef::Zero, &gm), KernelStep::Done(KernelRef::Zero));
    assert_eq!(kernel_compose_step(&KernelRef::Id, &KernelRef::Zero), KernelStep::Done(KernelRef::Zero));
    assert_eq!(kernel_compose_step(&KernelRef::Id, &gm), KernelStep::Done(gm));
    assert_eq!(kernel_compose_step(&gm, &KernelRef::Id), KernelStep::Done(gm));
    assert_eq!(kernel_compose_step(&gm, &gn), KernelStep::Mul(m, n));
    assert_eq!(kernel_add_step(&KernelRef::Zero, &gm), KernelStep::Done(gm));
    assert_eq!(kernel_add_step(&KernelRef::Id, &KernelRef::Zero), KernelStep::Done(KernelRef::Id));
    assert_eq!(
        kernel_add_step(&KernelRef::Id, &KernelRef::Id),
        KernelStep::Done(KernelRef::General([[TWO_BITS, 0], [0, TWO_BITS]]))
    );
    assert_eq!(kernel_add_step(&gm, &KernelRef::Id), KernelStep::Add(id, m));
    assert_eq!(kernel_add_step(&KernelRef::Id, &gm), KernelStep::Add(id, m));
    assert_eq!(kernel_add_step(&gm, &gn), KernelStep::Add(m, n));
    assert_eq!(TWO_BITS, 2.0f32.to_bits());
}

#[test]
fn compose_plan_lists_the_terms_of_each_block() {
    let p = proj(1, 3).unwrap();
    let c = copy(3).unwrap();
    let plan = compose_plan(&p, &c).unwrap();
    assert_eq!(plan.len(), 1);
    assert_eq!(plan[0].len(), 1);
    assert_eq!(
        plan[0][0],
        vec![
            (KernelRef::Zero, KernelRef::Id),
            (KernelRef::Id, KernelRef::Id),
            (KernelRef::Zero, KernelRef::Id)
        ]
    );
    assert_eq!(
        compose_plan(&p, &p),
        Err(ValidationError::DimensionMismatch { left_cols: 3, right_rows: 1 })
    );
}

#[test]
fn morph_add_factors_are_codiagonal_sum_and_diagonal() {
    let f = app([[1.0, 2.0], [3.0, 4.0]]);
    let g = app([[5.0, 6.0], [7.0, 8.0]]);
    let (sigma, sum, delta) = morph_add_factors(f.clone(), g.clone()).unwrap();
    assert_eq!(sigma.rows, 1);
    assert_eq!(sigma.grid, vec![vec![KernelRef::Id, KernelRef::Id]]);
    assert_eq!(sum.grid, vec![vec![f.grid[0][0], KernelRef::Zero], vec![KernelRef::Zero, g.grid[0][0]]]);
    assert_eq!(delta.cols, 1);
    assert_eq!(delta.grid, vec![vec![KernelRef::Id], vec![KernelRef::Id]]);
    let sum = morph_add(&f, &g).unwrap();
    assert_eq!(sum.grid[0][0], general([[6.0, 8.0], [10.0, 12.0]]));
}

#[test]
fn morph_add_factors_report_each_error() {
    let f = identity(2).unwrap();
    let g = proj(0, 2).unwrap();
    assert_eq!(
        morph_add_factors(f.clone(), g.clone()),
        Err(ValidationError::DimensionMismatch { left_cols: 2, right_rows: 1 })
    );
    let h = inj(0, 2).unwrap();
    assert_eq!(
        morph_add_factors(f.clone(), h),
        Err(ValidationError::DimensionMismatch { left_cols: 2, right_rows: 1 })
    );
    let empty = BlockMat { rows: 0, cols: 0, grid: vec![] };
    assert_eq!(morph_add_factors(empty.clone(), empty), Err(ValidationError::ZeroDimension));
}

#[test]
fn eval_lays_out_blocks_row_major() {
    let m = to_bits(&[[1.0, 2.0], [3.0, 4.0]]);
    let bm = BlockMat { rows: 1, cols: 2, grid: vec![vec![KernelRef::General(m), KernelRef::Id]] };
    let dense = eval(&bm);
    assert_eq!(dense.len(), 2);
    assert_eq!(dense[0], vec![m[0][0], m[0][1], ONE_BITS, 0]);
    assert_eq!(dense[1], vec![m[1][0], m[1][1], 0, ONE_BITS]);
}
