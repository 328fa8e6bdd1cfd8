use lib::bench_cramer::{build_cramer_2x2, build_cramer_3x3};
use lib::bench_ode::build_step;
use lib::bench_stb::build_gamma_pipeline;
use lib::bench_transformer::build_layer;
use lib::ir::{is_exception_op, Op, Program, Sort};
use lib::pass_resolve::resolve_to_fixpoint;

// --- Cramer's rule ---

#[test]
fn cramer_2x2_all_non_exceptions_resolve() {
    let mut prog = Program::new();
    build_cramer_2x2(&mut prog);
    resolve_to_fixpoint(&mut prog);

    // Every non-exception op should be contents.
    let non_exception_unknown = prog
        .instructions
        .iter()
        .filter(|inst| !is_exception_op(&inst.op) && inst.sort == Sort::Unknown)
        .count();
    assert_eq!(non_exception_unknown, 0);
}

#[test]
fn cramer_2x2_only_divs_are_unknown() {
    let mut prog = Program::new();
    build_cramer_2x2(&mut prog);
    resolve_to_fixpoint(&mut prog);

    let unknown: Vec<_> = prog
        .instructions
        .iter()
        .filter(|inst| inst.sort == Sort::Unknown)
        .collect();

    // Only the two divisions should be unknown.
    assert_eq!(unknown.len(), 2);
    for inst in &unknown {
        assert_eq!(inst.op, Op::Div);
    }
}

#[test]
fn cramer_3x3_only_divs_are_unknown() {
    let mut prog = Program::new();
    build_cramer_3x3(&mut prog);
    resolve_to_fixpoint(&mut prog);

    let unknown: Vec<_> = prog
        .instructions
        .iter()
        .filter(|inst| inst.sort == Sort::Unknown)
        .collect();

    // Only the three divisions (x1/det, x2/det, x3/det) should be unknown.
    assert_eq!(unknown.len(), 3);
    for inst in &unknown {
        assert_eq!(inst.op, Op::Div);
    }
}

#[test]
fn cramer_builders_return_the_last_division() {
    let mut prog = Program::new();
    let last = build_cramer_2x2(&mut prog);
    assert_eq!(last, 16);
    assert_eq!(prog.instructions.len(), 17);
    let mut prog3 = Program::new();
    let last3 = build_cramer_3x3(&mut prog3);
    assert_eq!(last3, 52);
    assert_eq!(prog3.instructions.len(), 53);
    assert_eq!(prog3.instructions[52].op, Op::Div);
    assert_eq!(prog3.instructions[52].operands, vec![51, 25]);
}

#[test]
fn cramer_report_numbers() {
    let r = lib::bench_cramer::benchmark_report();
    assert_eq!(r.two_by_two.total, 17);
    assert_eq!(r.two_by_two.counts.contents, 15);
    assert_eq!(r.two_by_two.counts.unknown, 2);
    assert_eq!(r.two_by_two.checks, 2);
    assert_eq!(r.two_by_two.unresolved, 0);
    assert_eq!(r.two_by_two.folded, 0);
    assert_eq!(r.three_by_three.total, 53);
    assert_eq!(r.three_by_three.counts.contents, 50);
    assert_eq!(r.three_by_three.counts.unknown, 3);
    assert_eq!(r.three_by_three.checks, 3);
    assert_eq!(r.three_by_three.unresolved, 0);
    assert_eq!(r.three_by_three.folded, 0);
    assert_eq!(lib::bench_cramer::run_benchmark_quiet().hypotheses, 0);
}

// --- ODE integrator ---

fn ode_initial_conditions(prog: &mut Program<u64>) -> (usize, usize, usize, usize, usize, usize) {
    let x0 = prog.add(Op::Input { name: "x0".into(), sort: Sort::Contents }, vec![]);
    let y0 = prog.add(Op::Input { name: "y0".into(), sort: Sort::Contents }, vec![]);
    let vx0 = prog.add(Op::Input { name: "vx0".into(), sort: Sort::Contents }, vec![]);
    let vy0 = prog.add(Op::Input { name: "vy0".into(), sort: Sort::Contents }, vec![]);
    let dt = prog.add(Op::Constant(0.1f64.to_bits()), vec![]);
    let gravity = prog.add(Op::Constant((-9.81f64).to_bits()), vec![]);
    (x0, y0, vx0, vy0, dt, gravity)
}

#[test]
fn steps_before_bad_are_clean() {
    let mut prog = Program::new();
    let (x0, y0, vx0, vy0, dt, gravity) = ode_initial_conditions(&mut prog);

    // Build 3 clean steps (no bad step)
    let (mut x, mut y, mut vx, mut vy) = (x0, y0, vx0, vy0);
    for step in 0..3 {
        let (nx, ny, nvx, nvy) = build_step(&mut prog, x, y, vx, vy, dt, gravity, step, None);
        x = nx;
        y = ny;
        vx = nvx;
        vy = nvy;
    }

    resolve_to_fixpoint(&mut prog);

    // No origin should exist in a clean simulation
    let origin_count = prog.instructions.iter().filter(|inst| inst.sort == Sort::Origin).count();
    assert_eq!(origin_count, 0);
}

#[test]
fn bad_step_produces_origin_at_div() {
    let mut prog = Program::new();
    let (x0, y0, vx0, vy0, dt, gravity) = ode_initial_conditions(&mut prog);

    // Build 1 bad step
    build_step(&mut prog, x0, y0, vx0, vy0, dt, gravity, 0, Some(0));

    resolve_to_fixpoint(&mut prog);

    // The division by speed = 0 is an exception op (Unknown): its operands
    // are contents, but no static rule proves the divisor nonzero.
    let divs: Vec<_> = prog.instructions.iter().filter(|inst| inst.op == Op::Div).collect();
    assert!(divs.len() >= 2, "should have drag_x and drag_y divisions");
    for div in &divs {
        assert_eq!(div.sort, Sort::Unknown);
    }
}

#[test]
fn bad_step_reads_speed_zero() {
    let mut prog = Program::new();
    let (x0, y0, vx0, vy0, dt, gravity) = ode_initial_conditions(&mut prog);
    let out = build_step(&mut prog, x0, y0, vx0, vy0, dt, gravity, 2, Some(2));
    assert_eq!(out, (22, 23, 18, 19));
    assert_eq!(prog.instructions[9].op, Op::Constant(0));
    let mut good = Program::new();
    let (x0, y0, vx0, vy0, dt, gravity) = ode_initial_conditions(&mut good);
    build_step(&mut good, x0, y0, vx0, vy0, dt, gravity, 2, Some(3));
    assert_eq!(good.instructions[9].op, Op::Sqrt);
}

#[test]
fn ode_report_numbers() {
    let r = lib::bench_ode::benchmark_report();
    assert_eq!(r.total, 366);
    assert_eq!(r.counts.contents, 32);
    assert_eq!(r.counts.unknown, 334);
    assert_eq!(r.exception_ops, 59);
    assert_eq!(r.steps.len(), 20);
    assert_eq!(r.steps[0].contents, 6);
    assert_eq!(r.steps[5].contents, 2);
    assert_eq!(r.steps[7].unknown, 17);
    assert_eq!(r.folded, 0);
    assert_eq!(r.tainted_ops, 0);
    assert_eq!(r.clean_ops, 90);
    assert_eq!(r.runtime_steps[4].contents, 18);
    assert_eq!(r.runtime_steps[5].origin, 11);
    assert_eq!(r.runtime_steps[19].origin, 17);
    assert_eq!(r.runtime_folded, 0);
    assert_eq!(r.total_origin, 249);
    assert_eq!(r.total_contents, 111);
    let q = lib::bench_ode::run_benchmark_quiet();
    assert_eq!(q.nan_steps, 15);
    assert_eq!(q.origin_ops, 249);
}

// --- stb_image gamma bug ---

#[test]
fn gamma_bug_div_is_exception() {
    let mut prog = Program::new();
    build_gamma_pipeline(&mut prog, 4, true);
    resolve_to_fixpoint(&mut prog);

    // The div (1.0/0.0) should be unknown (exception op)
    let divs: Vec<_> = prog.instructions.iter().filter(|inst| inst.op == Op::Div).collect();
    assert!(!divs.is_empty());
    assert_eq!(divs[0].sort, Sort::Unknown);
}

#[test]
fn clean_gamma_has_no_origin() {
    let mut prog = Program::new();
    build_gamma_pipeline(&mut prog, 4, false);
    resolve_to_fixpoint(&mut prog);

    let origin_count = prog.instructions.iter().filter(|inst| inst.sort == Sort::Origin).count();
    assert_eq!(origin_count, 0);
}

#[test]
fn bug_path_taints_all_pixels() {
    let mut prog = Program::new();
    let outputs = build_gamma_pipeline(&mut prog, 8, true);
    resolve_to_fixpoint(&mut prog);

    // Simulate full runtime:
    // 1. The gamma div (1.0/0.0) produces container
    // 2. All per-pixel Log ops resolve to contents (pixel values are positive)
    // 3. Container propagates through everything downstream of gamma_i
    let mut first_div = true;
    for inst in prog.instructions.iter_mut() {
        if inst.sort == Sort::Unknown {
            if inst.op == Op::Div && first_div {
                inst.sort = Sort::Container; // 1.0 / 0.0 -> container
                first_div = false;
            } else if is_exception_op(&inst.op) {
                inst.sort = Sort::Contents; // pixel-level exceptions resolve clean
            }
        }
    }
    resolve_to_fixpoint(&mut prog);

    // All output pixels should be container (tainted by gamma bug)
    let tainted = outputs
        .iter()
        .filter(|&&id| prog.instructions[id].sort == Sort::Container)
        .count();
    assert_eq!(tainted, 8, "all pixels should be tainted by container");
}

#[test]
fn pixel_names_are_indexed() {
    let mut prog = Program::new();
    let outputs = build_gamma_pipeline(&mut prog, 12, true);
    assert_eq!(outputs.len(), 12);
    assert_eq!(outputs[11], 6 + 8 * 11 + 7);
    assert_eq!(
        prog.instructions[6 + 8 * 11].op,
        Op::Input { name: "pixel_11".to_string(), sort: Sort::Contents }
    );
}

#[test]
fn stb_report_numbers() {
    let r = lib::bench_stb::benchmark_report();
    assert_eq!(r.total, 518);
    assert_eq!(r.counts.contents, 69);
    assert_eq!(r.counts.unknown, 449);
    assert_eq!(r.exception_ops, 65);
    assert_eq!(r.runtime_counts.container, 385);
    assert_eq!(r.runtime_counts.contents, 133);
    assert_eq!(r.container_count, 385);
    assert_eq!(r.pixels_tainted, 64);
    assert_eq!(r.num_pixels, 64);
    assert_eq!(r.clean_total, 518);
    assert_eq!(r.clean_counts.unknown, 449);
    assert_eq!(r.clean_exceptions, 65);
    assert_eq!(r.broad_total, 17);
    assert_eq!(r.broad_exceptions, 3);
    assert_eq!(r.broad_contents, 14);
    let q = lib::bench_stb::run_benchmark_quiet();
    assert_eq!(q.tainted_ops, 385);
    assert_eq!(q.tainted_pixels, 64);
    assert_eq!(q.total_pixels, 64);
}

// --- Transformer ---

#[test]
fn transformer_builds_and_runs() {
    // Run the whole analysis; it must not panic.
    let r = lib::bench_transformer::benchmark_report();
    assert_eq!(r.total, 193);
    let q = lib::bench_transformer::run_benchmark_quiet();
    assert_eq!(q.total, 193);
}

#[test]
fn single_layer_has_exception_ops() {
    let mut prog = Program::new();
    let input = prog.add(Op::Input { name: "input".into(), sort: Sort::Contents }, vec![]);
    build_layer(&mut prog, input, 0);

    resolve_to_fixpoint(&mut prog);
    let counts = prog.count_by_sort();

    // Exception ops (div, rsqrt) remain unknown, and their downstream
    // dependents cascade to unknown: the sort pass can't prove rsqrt's input
    // is positive without value analysis.
    assert!(counts.unknown > 0, "exception ops should remain unknown");
    // Both contents and unknown should be present in a single layer.
    assert!(counts.contents > 0, "constants and inputs should be contents");
}

#[test]
fn single_layer_counts() {
    let mut prog = Program::new();
    let input = prog.add(Op::Input { name: "input".into(), sort: Sort::Contents }, vec![]);
    let out = build_layer(&mut prog, input, 3);
    assert_eq!(out, 48);
    assert_eq!(
        prog.instructions[9].op,
        Op::Input { name: "gamma_3".to_string(), sort: Sort::Contents }
    );
    resolve_to_fixpoint(&mut prog);
    let counts = prog.count_by_sort();
    assert_eq!(counts.total, 49);
    assert_eq!(counts.contents, 21);
    assert_eq!(counts.unknown, 28);
}

#[test]
fn transformer_report_numbers() {
    let r = lib::bench_transformer::benchmark_report();
    assert_eq!(r.total, 193);
    assert_eq!(r.before.contents, 61);
    assert_eq!(r.before.unknown, 132);
    assert_eq!(r.after_resolve.contents, 66);
    assert_eq!(r.after_resolve.unknown, 127);
    assert_eq!(r.resolved, 5);
    assert_eq!(r.after_fold.unknown, 127);
    assert_eq!(r.folded, 0);
    assert_eq!(r.exception_ops, 12);
    assert_eq!(r.foldable, 126);
    let q = lib::bench_transformer::run_benchmark_quiet();
    assert_eq!(q.exception_ops, 12);
    assert_eq!(q.foldable, 127);
}
