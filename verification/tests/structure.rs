use std::collections::HashMap;

use csimulator::benchmarks::{case_ids, get_case, list_cases};
use csimulator::ir::{BlockMat, KernelRef, ValidationError};
use csimulator::lower::{
    input_addr, lower, output_addr, resource_class, temp_addr, ExecKernelRef, NodeType, ParamAddr, SchedGraph,
    SchedNode,
};
use csimulator::optimize::{collect_stats, optimize};
use csimulator::schedule::{ceil_div, latency, node_latency, schedule_graph, LatencyModel, SchedParams};
use csimulator::semantics::{bimap, copair, copy, identity, identity_mat, inj, kernel_app, merge, pair, proj};
use csimulator::simulate::{is_input_addr, MachineState};

fn bits(x: f32) -> u32 {
    x.to_bits()
}

fn general(m: [[f32; 2]; 2]) -> KernelRef {
    KernelRef::General([[bits(m[0][0]), bits(m[0][1])], [bits(m[1][0]), bits(m[1][1])]])
}

fn no_flags(bm: &BlockMat) -> Vec<Vec<bool>> {
    bm.grid.iter().map(|row| vec![false; row.len()]).collect()
}

#[test]
fn test_validate_ok() {
    let bm = BlockMat {
        rows: 2,
        cols: 3,
        grid: vec![
            vec![KernelRef::Id, KernelRef::Zero, KernelRef::Zero],
            vec![KernelRef::Zero, KernelRef::Id, KernelRef::Zero],
        ],
    };
    assert!(bm.validate().is_ok());
}

#[test]
fn test_validate_zero_dim() {
    let bm = BlockMat { rows: 0, cols: 1, grid: vec![] };
    assert!(matches!(bm.validate(), Err(ValidationError::ZeroDimension)));
}

#[test]
fn validate_reports_row_and_column_mismatches() {
    let short = BlockMat { rows: 2, cols: 1, grid: vec![vec![KernelRef::Id]] };
    assert_eq!(short.validate(), Err(ValidationError::RowCountMismatch { expected: 2, actual: 1 }));
    let ragged = BlockMat {
        rows: 3,
        cols: 2,
        grid: vec![
            vec![KernelRef::Id, KernelRef::Zero],
            vec![KernelRef::Id],
            vec![KernelRef::Zero],
        ],
    };
    assert_eq!(
        ragged.validate(),
        Err(ValidationError::ColCountMismatch { row: 1, expected: 2, actual: 1 })
    );
    assert_eq!(ragged.type_of(), (2, 3));
}

#[test]
fn lower_returns_the_validation_error() {
    let bm = BlockMat { rows: 2, cols: 1, grid: vec![vec![KernelRef::Id]] };
    let r = lower(&bm, &vec![vec![false]]);
    assert!(matches!(r, Err(ValidationError::RowCountMismatch { expected: 2, actual: 1 })));
}

#[test]
fn test_lower_2x3() {
    let m1 = general([[1.0, 2.0], [3.0, 4.0]]);
    let bm = BlockMat { rows: 2, cols: 3, grid: vec![vec![m1, m1, m1], vec![m1, m1, m1]] };
    let graph = lower(&bm, &no_flags(&bm)).unwrap();
    // 1 InputRead + 1 ParamLoad + 3 Broadcast + 6 Core + 2 Reduce + 1 WriteBack
    assert_eq!(graph.nodes.len(), 14);
    assert_eq!(graph.output_nodes.len(), 2);
}

#[test]
fn test_lower_reuses_param_handle_for_shared_params() {
    let m = general([[1.0, 2.0], [3.0, 4.0]]);
    let bm = BlockMat { rows: 1, cols: 2, grid: vec![vec![m, m]] };
    let graph = lower(&bm, &no_flags(&bm)).unwrap();
    let mut handles: Vec<ParamAddr> = graph.nodes.iter().filter_map(|node| node.param_handle).collect();
    handles.sort_unstable();
    handles.dedup();
    assert_eq!(handles, vec![0]);
}

#[test]
fn distinct_params_get_distinct_handles_in_order_of_first_use() {
    let a = general([[1.0, 2.0], [3.0, 4.0]]);
    let b = general([[0.0, 1.0], [1.0, 0.0]]);
    let bm = BlockMat { rows: 2, cols: 2, grid: vec![vec![b, a], vec![a, b]] };
    let graph = lower(&bm, &no_flags(&bm)).unwrap();
    let handles: Vec<Option<ParamAddr>> = graph
        .nodes
        .iter()
        .filter(|node| matches!(node.node_type, NodeType::Core(_)))
        .map(|node| node.param_handle)
        .collect();
    assert_eq!(handles, vec![Some(0), Some(1), Some(1), Some(0)]);
    let load = graph.nodes.iter().find(|n| n.node_type == NodeType::ParamLoad).unwrap();
    assert_eq!(load.arity, 2);
    assert_eq!(load.transfer_scalars, 8);
}

#[test]
fn lowered_ids_are_positions_and_deps_point_back() {
    let case = get_case("V6").unwrap();
    let bm = case.block_mat;
    let graph = lower(&bm, &no_flags(&bm)).unwrap();
    for (i, node) in graph.nodes.iter().enumerate() {
        assert_eq!(node.id, i);
        assert!(node.deps.iter().all(|&d| d < i));
    }
}

#[test]
fn permutation_lowers_to_direct_nodes_only() {
    let case = get_case("V5").unwrap();
    let bm = case.block_mat;
    let graph = lower(&bm, &no_flags(&bm)).unwrap();
    assert_eq!(graph.nodes.len(), 6);
    assert!(graph.nodes.iter().all(|n| n.node_type == NodeType::Direct));
    let params = SchedParams::default_phase1();
    let schedule = schedule_graph(&graph, &params);
    assert_eq!(schedule.total_cycles, 0);
}

#[test]
fn scalar_flag_turns_general_into_scalar_kernel() {
    let m = general([[3.0, 0.0], [0.0, 3.0]]);
    assert_eq!(ExecKernelRef::from_kernel_ref(&m, true), ExecKernelRef::Scalar(bits(3.0)));
    match m {
        KernelRef::General(x) => assert_eq!(ExecKernelRef::from_kernel_ref(&m, false), ExecKernelRef::General(x)),
        _ => unreachable!(),
    }
    assert_eq!(ExecKernelRef::from_kernel_ref(&KernelRef::Id, true), ExecKernelRef::Id);
    assert!(ExecKernelRef::from_kernel_ref(&KernelRef::Zero, true).is_zero());
    assert!(!ExecKernelRef::Id.is_zero());
}

#[test]
fn resource_classes_are_named() {
    assert_eq!(resource_class(&NodeType::InputRead), "input");
    assert_eq!(resource_class(&NodeType::ParamLoad), "load");
    assert_eq!(resource_class(&NodeType::Broadcast), "bcast");
    assert_eq!(resource_class(&NodeType::Reduce), "reduce");
    assert_eq!(resource_class(&NodeType::ZeroFill), "reduce");
    assert_eq!(resource_class(&NodeType::WriteBack), "writeback");
    assert_eq!(resource_class(&NodeType::Direct), "none");
    assert_eq!(resource_class(&NodeType::Core(ExecKernelRef::Id)), "core");
}

#[test]
fn test_schedule_simple() {
    let m = general([[1.0, 0.0], [0.0, 1.0]]);
    let bm = BlockMat { rows: 1, cols: 1, grid: vec![vec![m]] };
    let graph = lower(&bm, &vec![vec![true]]).unwrap();
    let params = SchedParams::default_phase1();
    let sched = schedule_graph(&graph, &params);
    assert!(sched.total_cycles > 0 || params.direct_latency == 0);
}

#[test]
fn test_broadcast_latency_uses_fanout() {
    let m = general([[2.0, 1.0], [0.0, 1.0]]);
    let bm = BlockMat { rows: 2, cols: 1, grid: vec![vec![m], vec![m]] };
    let graph = lower(&bm, &no_flags(&bm)).unwrap();
    let params = SchedParams::default_phase1();

    let broadcast = graph.nodes.iter().find(|node| matches!(node.node_type, NodeType::Broadcast)).unwrap();

    assert_eq!(broadcast.arity, 2);
    assert_eq!(node_latency(&params, broadcast), 1);
}

#[test]
fn broadcast_latency_grows_with_fanout() {
    let m = general([[2.0, 1.0], [0.0, 1.0]]);
    let bm = BlockMat { rows: 5, cols: 1, grid: vec![vec![m]; 5] };
    let graph = lower(&bm, &no_flags(&bm)).unwrap();
    let mut params = SchedParams::default_phase1();
    let broadcast = graph.nodes.iter().find(|node| matches!(node.node_type, NodeType::Broadcast)).unwrap();
    assert_eq!(broadcast.arity, 5);
    assert_eq!(node_latency(&params, broadcast), 3);
    params.bcast_model = LatencyModel::Pipeline;
    assert_eq!(node_latency(&params, broadcast), 5);
    params.bcast_model = LatencyModel::Fixed(7);
    assert_eq!(node_latency(&params, broadcast), 7);
}

fn direct_node(id: usize, deps: Vec<usize>) -> SchedNode {
    SchedNode {
        id,
        node_type: NodeType::Direct,
        arity: 1,
        transfer_scalars: 0,
        input_slots: vec![id],
        output_slots: vec![id + 1],
        param_handle: None,
        deps,
    }
}

#[test]
fn test_direct_nodes_do_not_consume_core_slots() {
    let graph = SchedGraph { nodes: vec![direct_node(0, vec![]), direct_node(1, vec![0])], output_nodes: vec![1] };
    let params = SchedParams::default_phase1();
    let sched = schedule_graph(&graph, &params);
    assert_eq!(sched.total_cycles, 0);
}

#[test]
fn schedule_respects_dependencies_and_capacity() {
    let case = get_case("V1").unwrap();
    let bm = case.block_mat;
    let graph = lower(&bm, &no_flags(&bm)).unwrap();
    let params = SchedParams::default_phase1();
    let sched = schedule_graph(&graph, &params);
    assert_eq!(sched.timed_nodes.len(), graph.nodes.len());
    let mut finish: HashMap<usize, usize> = HashMap::new();
    for t in &sched.timed_nodes {
        for d in &graph.nodes[t.id].deps {
            assert!(finish[d] <= t.start_cycle);
        }
        assert_eq!(t.finish_cycle, t.start_cycle + node_latency(&params, &graph.nodes[t.id]));
        finish.insert(t.id, t.finish_cycle);
    }
    for c in 0..=sched.total_cycles {
        let cores = sched
            .timed_nodes
            .iter()
            .filter(|t| matches!(graph.nodes[t.id].node_type, NodeType::Core(_)))
            .filter(|t| t.start_cycle == c || (t.start_cycle < c && c < t.finish_cycle))
            .count();
        assert!(cores <= params.core_slots);
    }
    assert_eq!(sched.total_cycles, sched.timed_nodes.iter().map(|t| t.finish_cycle).max().unwrap());
    let in_batches: usize = sched.batches.iter().map(|b| b.node_ids.len()).sum();
    assert_eq!(in_batches, graph.nodes.len());
    assert_eq!(sched.topo_order.len(), graph.nodes.len());
}

#[test]
fn latency_models_and_ceil_div() {
    assert_eq!(latency(&LatencyModel::Tree, 0), 0);
    assert_eq!(latency(&LatencyModel::Tree, 1), 0);
    assert_eq!(latency(&LatencyModel::Tree, 2), 1);
    assert_eq!(latency(&LatencyModel::Tree, 3), 2);
    assert_eq!(latency(&LatencyModel::Tree, 4), 2);
    assert_eq!(latency(&LatencyModel::Tree, 5), 3);
    assert_eq!(latency(&LatencyModel::Tree, 1024), 10);
    assert_eq!(latency(&LatencyModel::Pipeline, 9), 9);
    assert_eq!(latency(&LatencyModel::Fixed(3), 9), 3);
    assert_eq!(ceil_div(7, 2), 4);
    assert_eq!(ceil_div(8, 2), 4);
    assert_eq!(ceil_div(0, 5), 0);
    assert_eq!(ceil_div(5, 0), 0);
    assert_eq!(ceil_div(usize::MAX, 1), usize::MAX);
    assert_eq!(ceil_div(usize::MAX, 2), usize::MAX / 2 + 1);
}

#[test]
fn phase_one_defaults() {
    let p = SchedParams::default_phase1();
    assert_eq!(
        (p.core_slots, p.bcast_ports, p.reduce_ports, p.core_latency, p.scale_latency),
        (4, 2, 2, 4, 1)
    );
    assert_eq!((p.direct_latency, p.bw_params, p.bw_writeback), (0, 2, 4));
    assert_eq!(p.bcast_model, LatencyModel::Tree);
    assert_eq!(p.reduce_model, LatencyModel::Tree);
}

#[test]
fn test_optimize_r1_r2() {
    let bm = BlockMat {
        rows: 1,
        cols: 2,
        grid: vec![vec![general([[1.0, 0.0], [0.0, 1.0]]), general([[0.0, 0.0], [0.0, 0.0]])]],
    };
    // The numeric tests: block 0 is the identity, block 1 is zero.
    let opt = optimize(&bm, &vec![vec![false, true]], &vec![vec![true, false]]);
    assert_eq!(opt.grid[0][0], KernelRef::Id);
    assert_eq!(opt.grid[0][1], KernelRef::Zero);
}

#[test]
fn optimize_prefers_zero_and_keeps_structural_kernels() {
    let m = general([[5.0, 0.0], [0.0, 5.0]]);
    let bm = BlockMat { rows: 1, cols: 3, grid: vec![vec![m, KernelRef::Id, KernelRef::Zero]] };
    let opt = optimize(&bm, &vec![vec![true, true, true]], &vec![vec![true, false, true]]);
    assert_eq!(opt.grid[0], vec![KernelRef::Zero, KernelRef::Id, KernelRef::Zero]);
    let kept = optimize(&bm, &vec![vec![false, false, false]], &vec![vec![false, false, false]]);
    assert_eq!(kept, bm);
}

#[test]
fn stats_count_structure() {
    let a = general([[1.0, 2.0], [3.0, 4.0]]);
    let s = general([[2.0, 0.0], [0.0, 2.0]]);
    let bm = BlockMat {
        rows: 3,
        cols: 3,
        grid: vec![
            vec![a, KernelRef::Zero, s],
            vec![KernelRef::Zero, KernelRef::Zero, s],
            vec![KernelRef::Zero, KernelRef::Zero, KernelRef::Zero],
        ],
    };
    let scalar = vec![vec![false, false, true], vec![false, false, true], vec![false, false, false]];
    // General blocks in row-major order: a, s, s.
    let close = vec![vec![true, false, false], vec![false, true, true], vec![false, true, true]];
    let st = collect_stats(&bm, &scalar, &close);
    assert_eq!((st.n_nz, st.n_gen, st.n_scale, st.n_unique, st.n_scale_u), (3, 3, 2, 2, 1));
    assert_eq!(st.col_counts, vec![1, 0, 2]);
    assert_eq!(st.row_counts, vec![2, 1, 0]);
    assert_eq!((st.dead_cols, st.dead_rows, st.single_rows), (1, 1, 1));
    assert!(!st.is_permutation);
}

#[test]
fn stats_read_the_stated_shape_and_the_whole_grid_for_permutations() {
    let a = general([[1.0, 2.0], [3.0, 4.0]]);
    // A 1 x 1 matrix whose grid row carries one more kernel than stated.
    let bm = BlockMat { rows: 1, cols: 1, grid: vec![vec![KernelRef::Id, a]] };
    let st = collect_stats(&bm, &vec![vec![false]], &vec![]);
    assert_eq!((st.n_nz, st.n_gen), (1, 0));
    assert_eq!(st.col_counts, vec![1]);
    assert_eq!(st.row_counts, vec![1]);
    assert!(!st.is_permutation);
    let bm = BlockMat { rows: 1, cols: 1, grid: vec![vec![KernelRef::Id, KernelRef::Zero]] };
    assert!(collect_stats(&bm, &vec![vec![false]], &vec![]).is_permutation);
}

#[test]
fn test_pair_of_projections_is_identity() {
    let p0 = proj(0, 2).unwrap();
    let p1 = proj(1, 2).unwrap();
    let paired = pair(&p0, &p1).unwrap();
    assert_eq!(paired, identity(2).unwrap());
}

#[test]
fn test_copair_of_injections_is_identity() {
    let i0 = inj(0, 2).unwrap();
    let i1 = inj(1, 2).unwrap();
    let copaired = copair(&i0, &i1).unwrap();
    assert_eq!(copaired, identity(2).unwrap());
}

#[test]
fn test_constructor_validation() {
    assert!(matches!(proj(2, 2), Err(ValidationError::IndexOutOfRange { .. })));
    assert!(matches!(inj(0, 0), Err(ValidationError::ZeroDimension)));
    assert!(matches!(copy(1), Err(ValidationError::ArityTooSmall { .. })));
    assert!(matches!(merge(1), Err(ValidationError::ArityTooSmall { .. })));
    assert!(matches!(identity(0), Err(ValidationError::ZeroDimension)));
    let none: [BlockMat; 0] = [];
    assert!(matches!(bimap(&none), Err(ValidationError::EmptyBimap)));
}

#[test]
fn constructor_errors_carry_their_arguments() {
    assert_eq!(proj(3, 2), Err(ValidationError::IndexOutOfRange { index: 3, upper_bound: 2 }));
    assert_eq!(copy(1), Err(ValidationError::ArityTooSmall { op: "copy", min: 2, actual: 1 }));
    assert_eq!(merge(0), Err(ValidationError::ArityTooSmall { op: "merge", min: 2, actual: 0 }));
    let wide = proj(0, 2).unwrap();
    let tall = inj(0, 3).unwrap();
    assert_eq!(pair(&wide, &tall), Err(ValidationError::DimensionMismatch { left_cols: 2, right_rows: 1 }));
    assert_eq!(copair(&wide, &tall), Err(ValidationError::DimensionMismatch { left_cols: 1, right_rows: 3 }));
}

#[test]
fn constructors_build_the_expected_grids() {
    let c = copy(3).unwrap();
    assert_eq!((c.rows, c.cols), (3, 1));
    assert!(c.grid.iter().all(|row| row == &vec![KernelRef::Id]));
    let m = merge(3).unwrap();
    assert_eq!(m.grid, vec![vec![KernelRef::Id; 3]]);
    let k = kernel_app([[1, 2], [3, 4]]);
    assert_eq!(k.grid, vec![vec![KernelRef::General([[1, 2], [3, 4]])]]);
    let d = bimap(&[k.clone(), copy(2).unwrap()]).unwrap();
    assert_eq!((d.rows, d.cols), (3, 2));
    assert_eq!(
        d.grid,
        vec![
            vec![KernelRef::General([[1, 2], [3, 4]]), KernelRef::Zero],
            vec![KernelRef::Zero, KernelRef::Id],
            vec![KernelRef::Zero, KernelRef::Id],
        ]
    );
    assert_eq!(identity_mat(), [[bits(1.0), 0], [0, bits(1.0)]]);
}

#[test]
fn benchmark_collection() {
    let ids = case_ids();
    assert_eq!(ids, vec!["V1", "V2", "V3", "V4", "V5", "V6", "V7", "V8"]);
    let cases = list_cases();
    assert_eq!(cases.len(), 8);
    for (case, id) in cases.iter().zip(ids.iter()) {
        assert_eq!(case.id, *id);
        assert!(case.block_mat.validate().is_ok());
        assert_eq!(case.input_blocks.len(), case.block_mat.cols);
    }
    assert_eq!(get_case("v3").unwrap().id, "V3");
    assert_eq!(get_case("V8").unwrap().block_mat.rows, 64);
    assert!(get_case("V9").is_none());
    assert!(get_case("").is_none());
    assert!(get_case("V").is_none());
}

#[test]
fn v7_is_the_block_diagonal_of_its_kernels() {
    let case = get_case("V7").unwrap();
    let a = general([[1.0, 2.0], [0.0, 1.0]]);
    let b = general([[2.0, 0.0], [1.0, 1.0]]);
    assert_eq!(case.block_mat.grid, vec![vec![a, KernelRef::Zero], vec![KernelRef::Zero, b]]);
}

#[test]
fn v8_inputs_follow_their_pattern() {
    let case = get_case("V8").unwrap();
    for (idx, block) in case.input_blocks.iter().enumerate() {
        let x = (idx % 5) as f32 + 1.0;
        let y = ((idx * 3) % 7) as f32 - 2.0;
        assert_eq!(*block, [bits(x), bits(y)]);
    }
}

#[test]
fn machine_state_tracks_temporaries() {
    let p = SchedParams::default_phase1();
    let mut s = MachineState::new(&p);
    assert_eq!((s.core_slots.len(), s.bcast_ports.len(), s.reduce_ports.len()), (4, 2, 2));
    s.track_temp_alloc();
    s.track_temp_alloc();
    s.track_temp_free();
    assert_eq!((s.temp_buffer_occupancy, s.peak_temp_buffer), (1, 2));
    s.track_temp_free();
    s.track_temp_free();
    assert_eq!((s.temp_buffer_occupancy, s.peak_temp_buffer), (0, 2));
}

#[test]
fn input_addresses_are_below_ten_thousand() {
    assert!(is_input_addr(0));
    assert!(is_input_addr(9999));
    assert!(!is_input_addr(10000));
    assert!(!is_input_addr(20003));
}

#[test]
fn buffer_addresses() {
    assert_eq!(input_addr(3), 3);
    assert_eq!(output_addr(3), 10003);
    assert_eq!(temp_addr(3), 20003);
}

#[test]
fn lowered_slots_use_the_address_spaces() {
    let m = general([[2.0, 1.0], [0.0, 1.0]]);
    let bm = BlockMat { rows: 2, cols: 1, grid: vec![vec![m], vec![m]] };
    let graph = lower(&bm, &no_flags(&bm)).unwrap();
    // 0 input read, 1 parameter load, 2 broadcast, 3..5 kernels, 5..7 rows, 7 write-back
    assert_eq!(graph.nodes.len(), 8);
    assert_eq!(graph.nodes[2].input_slots, vec![0]);
    assert_eq!(graph.nodes[2].output_slots, vec![20002]);
    assert_eq!(graph.nodes[3].input_slots, vec![20002]);
    assert_eq!(graph.nodes[3].deps, vec![2, 1]);
    assert_eq!(graph.nodes[5].deps, vec![3]);
    assert_eq!(graph.nodes[5].output_slots, vec![10000]);
    assert_eq!(graph.nodes[7].input_slots, vec![20005, 20006]);
    assert_eq!(graph.nodes[7].output_slots, vec![10000, 10001]);
    assert_eq!(graph.output_nodes, vec![5, 6]);
}
