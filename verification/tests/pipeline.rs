use std::collections::HashMap;

use csimulator::benchmarks::get_case;
use csimulator::ir::{BlockMat, KernelRef, Mat2};
use csimulator::lower::{lower, ExecKernelRef};
use csimulator::optimize::{collect_stats, optimize, StructStats};
use csimulator::report::{report_from_schedule, CostReport};
use csimulator::schedule::{schedule_graph, SchedParams, Schedule, TimedNode};
use csimulator::simulate::{simulate, DataSrc, SimResult, SimStep};

fn val(b: u32) -> f32 {
    f32::from_bits(b)
}

fn bits(x: f32) -> u32 {
    x.to_bits()
}

fn general(m: [[f32; 2]; 2]) -> KernelRef {
    KernelRef::General([[bits(m[0][0]), bits(m[0][1])], [bits(m[1][0]), bits(m[1][1])]])
}

fn is_zero_mat(m: &Mat2) -> bool {
    m.iter().flatten().all(|&b| val(b).abs() <= 1e-7)
}

fn is_identity_mat(m: &Mat2) -> bool {
    (0..2).all(|i| (0..2).all(|j| (val(m[i][j]) - if i == j { 1.0 } else { 0.0 }).abs() <= 1e-7))
}

fn is_scalar_mat(m: &Mat2) -> bool {
    let c = val(m[0][0]);
    (0..2).all(|i| (0..2).all(|j| (val(m[i][j]) - if i == j { c } else { 0.0 }).abs() <= 1e-7))
}

fn close_mats(a: &Mat2, b: &Mat2) -> bool {
    (0..2).all(|i| (0..2).all(|j| (val(a[i][j]) - val(b[i][j])).abs() < 1e-7))
}

fn flags(bm: &BlockMat, pred: fn(&Mat2) -> bool) -> Vec<Vec<bool>> {
    bm.grid
        .iter()
        .map(|row| {
            row.iter()
                .map(|k| match k {
                    KernelRef::General(m) => pred(m),
                    _ => false,
                })
                .collect()
        })
        .collect()
}

fn close_table(bm: &BlockMat) -> Vec<Vec<bool>> {
    let gens: Vec<Mat2> = bm
        .grid
        .iter()
        .flatten()
        .filter_map(|k| match k {
            KernelRef::General(m) => Some(*m),
            _ => None,
        })
        .collect();
    gens.iter().map(|a| gens.iter().map(|b| close_mats(a, b)).collect()).collect()
}

fn apply(m: &Mat2, v: [f32; 2]) -> [f32; 2] {
    let mut r = [0.0f32; 2];
    for i in 0..2 {
        for j in 0..2 {
            r[i] += val(m[i][j]) * v[j];
        }
    }
    r
}

fn run_steps(steps: &[SimStep], inputs: &[[f32; 2]], n_out: usize) -> Vec<[f32; 2]> {
    let mut temps: HashMap<usize, [f32; 2]> = HashMap::new();
    let mut outs = vec![[0.0f32; 2]; n_out];
    let read = |temps: &HashMap<usize, [f32; 2]>, src: &DataSrc| -> [f32; 2] {
        match src {
            DataSrc::Temp(d) => temps[d],
            DataSrc::Input(a) => inputs[*a],
            DataSrc::Zeros => [0.0, 0.0],
        }
    };
    for step in steps {
        match step {
            SimStep::Store { node, src } => {
                let v = read(&temps, src);
                temps.insert(*node, v);
            }
            SimStep::Apply { node, kernel, src } => {
                let v = read(&temps, src);
                let out = match kernel {
                    ExecKernelRef::General(m) => apply(m, v),
                    ExecKernelRef::Scalar(c) => [val(*c) * v[0], val(*c) * v[1]],
                    ExecKernelRef::Id => v,
                    ExecKernelRef::Zero => [0.0, 0.0],
                };
                temps.insert(*node, out);
            }
            SimStep::Emit { pos, src } => {
                outs[*pos] = read(&temps, src);
            }
            SimStep::Sum { pos, terms } => {
                let mut acc = [0.0f32; 2];
                for t in terms {
                    let v = temps[t];
                    acc[0] += v[0];
                    acc[1] += v[1];
                }
                outs[*pos] = acc;
            }
        }
    }
    outs
}

fn dense_output(bm: &BlockMat, inputs: &[[f32; 2]]) -> Vec<[f32; 2]> {
    (0..bm.rows)
        .map(|i| {
            let mut acc = [0.0f32; 2];
            for j in 0..bm.cols {
                let m: Mat2 = match bm.grid[i][j] {
                    KernelRef::General(m) => m,
                    KernelRef::Id => [[bits(1.0), 0], [0, bits(1.0)]],
                    KernelRef::Zero => [[0, 0], [0, 0]],
                };
                let y = apply(&m, inputs[j]);
                acc[0] += y[0];
                acc[1] += y[1];
            }
            acc
        })
        .collect()
}

fn max_rel_error(expected: &[[f32; 2]], actual: &[[f32; 2]]) -> f32 {
    let mut worst = 0.0f32;
    for (e, a) in expected.iter().zip(actual.iter()) {
        for k in 0..2 {
            let abs_err = (e[k] - a[k]).abs();
            let rel = if e[k].abs() > 1e-10 { abs_err / e[k].abs() } else { abs_err };
            worst = worst.max(rel);
        }
    }
    worst
}

struct Run {
    stats: StructStats,
    schedule: Schedule,
    sim: SimResult,
    outputs: Vec<[f32; 2]>,
    report: CostReport,
}

fn run_pipeline(bm: BlockMat, input_bits: Vec<[u32; 2]>) -> Run {
    let inputs: Vec<[f32; 2]> = input_bits.iter().map(|b| [val(b[0]), val(b[1])]).collect();
    let opt = optimize(&bm, &flags(&bm, is_zero_mat), &flags(&bm, is_identity_mat));
    let scalar = flags(&opt, is_scalar_mat);
    let stats = collect_stats(&opt, &scalar, &close_table(&opt));
    let graph = lower(&opt, &scalar).unwrap();
    let params = SchedParams::default_phase1();
    let schedule = schedule_graph(&graph, &params);
    let sim = simulate(&graph, &schedule, &params, inputs.len());
    let outputs = run_steps(&sim.steps, &inputs, graph.output_nodes.len());
    let expected = dense_output(&opt, &inputs);
    assert_eq!(outputs.len(), expected.len());
    let err = max_rel_error(&expected, &outputs);
    assert!(err < 1e-6, "oracle mismatch: rel={}", err);
    let report = report_from_schedule(&opt, &stats, &graph, &schedule, &sim, &params);
    Run { stats, schedule, sim, outputs, report }
}

fn run_case(id: &str) -> Run {
    let case = get_case(id).unwrap();
    run_pipeline(case.block_mat, case.input_blocks)
}

#[test]
fn test_v1_dense_end_to_end() {
    let run = run_case("V1");
    assert!(run.report.analytic_total_eff > 0);
    assert!(run.report.sched_total_cycles > 0);
}

#[test]
fn test_v2_zero_block_elimination() {
    let run = run_case("V2");
    assert_eq!(run.stats.n_nz, 5);
    assert_eq!(run.report.dead_cols, 0);
}

#[test]
fn test_v3_identity_specialization() {
    let run = run_case("V3");
    assert_eq!(run.stats.n_gen, 3);
    assert_eq!(run.stats.single_rows, 0);
    assert!(run.report.analytic_exec_cycles > 0);
}

#[test]
fn test_v4_block_diagonal_single_rows() {
    let run = run_case("V4");
    assert_eq!(run.stats.single_rows, 3);
    assert_eq!(run.report.reduce_rows, 0);
    assert_eq!(run.schedule.total_cycles, run.report.sched_total_cycles);
}

#[test]
fn test_v5_permutation_is_zero_cost_structure() {
    let run = run_case("V5");
    assert!(run.stats.is_permutation);
    assert_eq!(run.report.analytic_exec_cycles, 0);
    assert_eq!(run.report.sched_total_cycles, 0);
    assert_eq!(run.schedule.total_cycles, 0);
}

#[test]
fn test_v6_large_mixed_end_to_end() {
    let run = run_case("V6");
    assert_eq!(run.outputs.len(), 3);
    assert!(run.stats.n_unique <= run.stats.n_gen);
    assert!(run.report.peak_temp_buffer_blocks >= 1);
    assert!(run.report.flat_total >= run.report.analytic_total_eff);
}

#[test]
fn test_v7_biproduct_sum_end_to_end() {
    let run = run_case("V7");
    assert_eq!(run.outputs.len(), 2);
    assert_eq!(run.stats.n_nz, 2);
    assert_eq!(run.report.reduce_rows, 0);
    assert!(run.report.sched_total_cycles > 0);
}

#[test]
fn test_v8_hundred_dim_banded_end_to_end() {
    let run = run_case("V8");
    assert_eq!(run.outputs.len(), 64);
    assert_eq!(run.stats.n_nz, 132);
    assert_eq!(run.stats.dead_cols, 22);
    assert_eq!(run.stats.dead_rows, 4);
    assert_eq!(run.stats.single_rows, 20);
    assert_eq!(run.stats.n_unique, 6);
    assert_eq!(run.stats.n_scale_u, 3);
    assert_eq!(run.stats.n_scale, 48);
    assert_eq!(run.report.reduce_rows, 40);
    assert_eq!(run.report.bcast_cols, 36);
    assert_eq!(run.report.peak_input_buffer_blocks, 42);
    assert!(run.schedule.total_cycles > 0);
}

#[test]
fn test_r5_dead_col_reduces_peak_input_buffer() {
    let live = BlockMat {
        rows: 2,
        cols: 3,
        grid: vec![
            vec![
                general([[1.0, 0.0], [0.0, 1.0]]),
                general([[2.0, 0.0], [0.0, 2.0]]),
                general([[1.0, 1.0], [0.0, 1.0]]),
            ],
            vec![
                general([[1.0, 0.0], [0.0, 1.0]]),
                general([[1.0, 1.0], [0.0, 1.0]]),
                general([[2.0, 0.0], [0.0, 2.0]]),
            ],
        ],
    };
    let dead_col = BlockMat {
        rows: 2,
        cols: 3,
        grid: vec![
            vec![general([[1.0, 0.0], [0.0, 1.0]]), general([[2.0, 0.0], [0.0, 2.0]]), KernelRef::Zero],
            vec![general([[1.0, 0.0], [0.0, 1.0]]), general([[1.0, 1.0], [0.0, 1.0]]), KernelRef::Zero],
        ],
    };
    let common_input: Vec<[u32; 2]> =
        vec![[bits(1.0), bits(0.0)], [bits(0.0), bits(1.0)], [bits(2.0), bits(3.0)]];
    let live_run = run_pipeline(live, common_input.clone());
    let dead_run = run_pipeline(dead_col, common_input);

    assert_eq!(dead_run.stats.dead_cols, 1);
    assert!(dead_run.report.peak_input_buffer_blocks < live_run.report.peak_input_buffer_blocks);
    assert_eq!(dead_run.report.peak_input_buffer_blocks, 2);
    assert_eq!(
        dead_run.sim.per_cycle_trace.last().map(|snapshot| snapshot.input_buffer_occupancy),
        Some(0)
    );
}

#[test]
fn test_v1_outputs_match_dense_evaluation() {
    // y0 = m1 x0 + m2 x1 + m3 x2, y1 = m3 x0 + m1 x1 + m2 x2 with
    // x = [1,0], [0,1], [1,1].
    let run = run_case("v1");
    assert_eq!(run.outputs, vec![[2.0, 5.5], [3.5, 5.5]]);
}

#[test]
fn test_v5_outputs_are_permuted_inputs() {
    let run = run_case("V5");
    assert_eq!(run.outputs, vec![[3.0, 4.0], [5.0, 6.0], [1.0, 2.0]]);
    assert_eq!(run.sim.peak_temp_buffer, 3);
    assert_eq!(run.sim.per_cycle_trace.len(), 1);
    assert_eq!(run.sim.per_cycle_trace[0].end_of_cycle_occupancy, 0);
}

#[test]
fn test_single_contributor_output_row_is_written_back() {
    let m = general([[2.0, 0.0], [0.0, 3.0]]);
    let bm = BlockMat { rows: 1, cols: 1, grid: vec![vec![m]] };
    let scalar = flags(&bm, is_scalar_mat);
    let graph = lower(&bm, &scalar).unwrap();
    let params = SchedParams::default_phase1();
    let schedule = schedule_graph(&graph, &params);
    let result = simulate(&graph, &schedule, &params, 1);
    let outputs = run_steps(&result.steps, &[[4.0, 5.0]], graph.output_nodes.len());

    assert_eq!(outputs, vec![[8.0, 15.0]]);
}

#[test]
fn test_temp_buffer_released_after_last_consumer() {
    let m = general([[1.0, 0.0], [0.0, 1.0]]);
    let bm = BlockMat { rows: 2, cols: 1, grid: vec![vec![m], vec![m]] };
    let scalar = flags(&bm, is_scalar_mat);
    let graph = lower(&bm, &scalar).unwrap();
    let params = SchedParams::default_phase1();
    let schedule = schedule_graph(&graph, &params);
    let result = simulate(&graph, &schedule, &params, 1);
    let outputs = run_steps(&result.steps, &[[1.0, 2.0]], graph.output_nodes.len());

    assert!(result.peak_temp_buffer >= 1);
    assert_eq!(outputs, vec![[1.0, 2.0], [1.0, 2.0]]);
    assert_eq!(
        result.per_cycle_trace.iter().map(|snapshot| snapshot.instant_peak_occupancy).max(),
        Some(result.peak_temp_buffer)
    );
    assert_eq!(
        result.per_cycle_trace.last().map(|snapshot| snapshot.end_of_cycle_occupancy),
        Some(0)
    );
    assert_eq!(result.per_cycle_trace.last().map(|snapshot| snapshot.input_buffer_occupancy), Some(0));
}

#[test]
fn single_kernel_plan_reads_input_then_emits() {
    // A general kernel reading input 0 directly, and its row emitting it.
    let m = general([[2.0, 0.0], [0.0, 3.0]]);
    let bm = BlockMat { rows: 1, cols: 1, grid: vec![vec![m]] };
    let scalar = vec![vec![false]];
    let graph = lower(&bm, &scalar).unwrap();
    let params = SchedParams::default_phase1();
    let schedule = schedule_graph(&graph, &params);
    let result = simulate(&graph, &schedule, &params, 1);
    // nodes: 0 input read, 1 parameter load, 2 kernel, 3 row, 4 write-back
    let kernel = match m {
        KernelRef::General(x) => ExecKernelRef::General(x),
        _ => unreachable!(),
    };
    assert_eq!(
        result.steps,
        vec![
            SimStep::Apply { node: 2, kernel, src: DataSrc::Input(0) },
            SimStep::Emit { pos: 0, src: DataSrc::Temp(2) },
        ]
    );
    assert_eq!(result.peak_input_buffer_blocks, 1);
    assert_eq!(result.output_buffer_blocks, 1);
    assert_eq!(result.peak_output_buffer_blocks, 1);
}

#[test]
fn missing_input_block_reads_zeros() {
    let m = general([[2.0, 0.0], [0.0, 3.0]]);
    let bm = BlockMat { rows: 1, cols: 1, grid: vec![vec![m]] };
    let graph = lower(&bm, &vec![vec![false]]).unwrap();
    let params = SchedParams::default_phase1();
    let schedule = schedule_graph(&graph, &params);
    let result = simulate(&graph, &schedule, &params, 0);
    let outputs = run_steps(&result.steps, &[], graph.output_nodes.len());
    assert_eq!(outputs, vec![[0.0, 0.0]]);
}

#[test]
fn repeated_entries_complete_once_each() {
    // nodes: 0 input read, 1 parameter load, 2 kernel, 3 row, 4 write-back;
    // the kernel has two entries and appears twice in the order.
    let m = general([[2.0, 0.0], [0.0, 3.0]]);
    let bm = BlockMat { rows: 1, cols: 1, grid: vec![vec![m]] };
    let graph = lower(&bm, &vec![vec![false]]).unwrap();
    let params = SchedParams::default_phase1();
    let entry = |id: usize, start_cycle: usize, finish_cycle: usize| TimedNode { id, start_cycle, finish_cycle };
    let schedule = Schedule {
        topo_order: vec![0, 2, 1, 2, 3, 4],
        batches: vec![],
        timed_nodes: vec![entry(0, 0, 1), entry(1, 0, 1), entry(2, 1, 2), entry(2, 1, 2), entry(3, 2, 2), entry(4, 2, 3)],
        total_cycles: 3,
    };
    let result = simulate(&graph, &schedule, &params, 1);
    let kernel = match m {
        KernelRef::General(x) => ExecKernelRef::General(x),
        _ => unreachable!(),
    };
    assert_eq!(
        result.steps,
        vec![
            SimStep::Apply { node: 2, kernel, src: DataSrc::Input(0) },
            SimStep::Apply { node: 2, kernel, src: DataSrc::Input(0) },
            SimStep::Emit { pos: 0, src: DataSrc::Temp(2) },
        ]
    );
    assert_eq!(result.per_cycle_trace[1].active_nodes, vec![2, 2]);
    assert_eq!(result.per_cycle_trace[2].active_nodes, vec![4]);
    assert_eq!(result.peak_temp_buffer, 1);
}

#[test]
fn simulated_outputs_are_the_matrix_applied_to_the_input() {
    // Column 0 is broadcast to both rows; row 0 sums two blocks; row 1 has
    // one; row 2 none.
    let a = general([[1.0, 2.0], [0.0, 1.0]]);
    let b = general([[3.0, 0.0], [0.0, 3.0]]);
    let bm = BlockMat {
        rows: 3,
        cols: 2,
        grid: vec![vec![a, KernelRef::Id], vec![b, KernelRef::Zero], vec![KernelRef::Zero, KernelRef::Zero]],
    };
    let graph = lower(&bm, &vec![vec![false, false], vec![false, false], vec![false, false]]).unwrap();
    let params = SchedParams::default_phase1();
    let schedule = schedule_graph(&graph, &params);
    let sim = simulate(&graph, &schedule, &params, 2);
    let outputs = run_steps(&sim.steps, &[[1.0, 2.0], [5.0, 7.0]], graph.output_nodes.len());
    assert_eq!(outputs, vec![[10.0, 9.0], [3.0, 6.0], [0.0, 0.0]]);
}

#[test]
fn no_resource_is_over_capacity_at_any_cycle() {
    let case = get_case("V6").unwrap();
    let bm = case.block_mat;
    let graph = lower(&bm, &flags(&bm, is_scalar_mat)).unwrap();
    let params = SchedParams::default_phase1();
    let schedule = schedule_graph(&graph, &params);
    for t in 0..=schedule.total_cycles {
        let mut busy: HashMap<&str, usize> = HashMap::new();
        for e in &schedule.timed_nodes {
            if e.start_cycle == t || (e.start_cycle < t && t < e.finish_cycle) {
                let class = csimulator::lower::resource_class(&graph.nodes[e.id].node_type);
                *busy.entry(class).or_insert(0) += 1;
            }
        }
        assert!(busy.get("core").copied().unwrap_or(0) <= params.core_slots);
        assert!(busy.get("bcast").copied().unwrap_or(0) <= params.bcast_ports);
        assert!(busy.get("reduce").copied().unwrap_or(0) <= params.reduce_ports);
        for class in ["input", "load", "writeback"] {
            assert!(busy.get(class).copied().unwrap_or(0) <= 1);
        }
    }
}

#[test]
fn direct_nodes_issue_when_their_last_dependency_finishes() {
    let case = get_case("V4").unwrap();
    let bm = case.block_mat;
    let graph = lower(&bm, &flags(&bm, is_scalar_mat)).unwrap();
    let params = SchedParams::default_phase1();
    let schedule = schedule_graph(&graph, &params);
    let finish: HashMap<usize, usize> = schedule.timed_nodes.iter().map(|e| (e.id, e.finish_cycle)).collect();
    let mut seen = 0;
    for e in &schedule.timed_nodes {
        if csimulator::lower::resource_class(&graph.nodes[e.id].node_type) == "none" {
            let last = graph.nodes[e.id].deps.iter().map(|d| finish[d]).max().unwrap_or(0);
            assert_eq!(e.start_cycle, last);
            seen += 1;
        }
    }
    assert!(seen > 0);
}
