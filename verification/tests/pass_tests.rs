use lib::ir::{Op, Program, Sort};
use lib::pass_fold::{count_foldable, fold_origin};
use lib::pass_resolve::{resolve_sorts, resolve_to_fixpoint};

// --- Pass 1: static sort resolution ---

#[test]
fn resolves_add_of_constants() {
    let mut prog = Program::new();
    let a = prog.add(Op::Constant(1.0), vec![]);
    let b = prog.add(Op::Constant(2.0), vec![]);
    prog.add(Op::Add, vec![a, b]);

    resolve_sorts(&mut prog);
    assert_eq!(prog.instructions[2].sort, Sort::Contents);
}

#[test]
fn resolves_chain_of_contents() {
    let mut prog = Program::new();
    let a = prog.add(Op::Constant(1.0), vec![]);
    let b = prog.add(Op::Constant(2.0), vec![]);
    let c = prog.add(Op::Add, vec![a, b]);
    let d = prog.add(Op::Constant(3.0), vec![]);
    prog.add(Op::Mul, vec![c, d]);

    resolve_sorts(&mut prog);
    assert_eq!(prog.instructions[2].sort, Sort::Contents);
    assert_eq!(prog.instructions[4].sort, Sort::Contents);
}

#[test]
fn origin_absorbs_through_chain() {
    let mut prog = Program::new();
    let a = prog.add(Op::Input { name: "bad".into(), sort: Sort::Origin }, vec![]);
    let b = prog.add(Op::Constant(2.0), vec![]);
    let c = prog.add(Op::Add, vec![a, b]);
    let d = prog.add(Op::Constant(3.0), vec![]);
    prog.add(Op::Mul, vec![c, d]);

    resolve_sorts(&mut prog);
    assert_eq!(prog.instructions[2].sort, Sort::Origin);
    assert_eq!(prog.instructions[4].sort, Sort::Origin);
}

#[test]
fn div_stays_unknown_even_with_contents_operands() {
    let mut prog = Program::<f64>::new();
    let a = prog.add(Op::Input { name: "x".into(), sort: Sort::Contents }, vec![]);
    let b = prog.add(Op::Input { name: "y".into(), sort: Sort::Contents }, vec![]);
    prog.add(Op::Div, vec![a, b]);

    resolve_sorts(&mut prog);
    assert_eq!(prog.instructions[2].sort, Sort::Unknown);
}

#[test]
fn unknown_input_blocks_resolution() {
    let mut prog = Program::new();
    let a = prog.add(Op::Constant(1.0), vec![]);
    let b = prog.add(Op::Input { name: "ext".into(), sort: Sort::Unknown }, vec![]);
    prog.add(Op::Add, vec![a, b]);

    resolve_sorts(&mut prog);
    assert_eq!(prog.instructions[2].sort, Sort::Unknown);
}

#[test]
fn container_propagates() {
    let mut prog = Program::new();
    let a = prog.add(Op::Input { name: "edge".into(), sort: Sort::Container }, vec![]);
    let b = prog.add(Op::Constant(5.0), vec![]);
    prog.add(Op::Add, vec![a, b]);

    resolve_sorts(&mut prog);
    assert_eq!(prog.instructions[2].sort, Sort::Container);
}

#[test]
fn origin_beats_container() {
    let mut prog = Program::<f64>::new();
    let a = prog.add(Op::Input { name: "dead".into(), sort: Sort::Origin }, vec![]);
    let b = prog.add(Op::Input { name: "edge".into(), sort: Sort::Container }, vec![]);
    prog.add(Op::Add, vec![a, b]);

    resolve_sorts(&mut prog);
    assert_eq!(prog.instructions[2].sort, Sort::Origin);
}

#[test]
fn matmul_contents_contents_is_contents() {
    let mut prog = Program::<f64>::new();
    let a = prog.add(Op::Input { name: "x".into(), sort: Sort::Contents }, vec![]);
    let b = prog.add(Op::Input { name: "w".into(), sort: Sort::Contents }, vec![]);
    prog.add(Op::MatMul, vec![a, b]);

    resolve_sorts(&mut prog);
    assert_eq!(prog.instructions[2].sort, Sort::Contents);
}

#[test]
fn relu_contents_is_contents() {
    let mut prog = Program::<f64>::new();
    let a = prog.add(Op::Input { name: "x".into(), sort: Sort::Contents }, vec![]);
    prog.add(Op::Relu, vec![a]);

    resolve_sorts(&mut prog);
    assert_eq!(prog.instructions[1].sort, Sort::Contents);
}

#[test]
fn resolve_reports_number_resolved() {
    let mut prog = Program::new();
    let a = prog.add(Op::Constant(1.0), vec![]);
    let b = prog.add(Op::Input { name: "ext".into(), sort: Sort::Unknown }, vec![]);
    let c = prog.add(Op::Add, vec![a, a]);
    prog.add(Op::Add, vec![a, b]);
    prog.add(Op::Mul, vec![c, c]);
    assert_eq!(resolve_sorts(&mut prog), 2);
    assert_eq!(resolve_sorts(&mut prog), 0);
}

#[test]
fn fixpoint_resolves_forward_references() {
    // Instruction 0 uses instruction 1, which comes later: one pass cannot
    // see it, the second pass can.
    let mut prog = Program::new();
    prog.add(Op::Relu, vec![1]);
    prog.add(Op::Constant(1.0), vec![]);
    assert_eq!(resolve_to_fixpoint(&mut prog), 1);
    assert_eq!(prog.instructions[0].sort, Sort::Contents);

    let mut prog = Program::new();
    prog.add(Op::Relu, vec![1]);
    prog.add(Op::Relu, vec![2]);
    prog.add(Op::Constant(1.0), vec![]);
    assert_eq!(resolve_to_fixpoint(&mut prog), 2);
    assert_eq!(prog.instructions[0].sort, Sort::Contents);
}

// --- Pass 2: origin folding ---

#[test]
fn folds_chain_from_origin() {
    let mut prog = Program::new();
    let a = prog.add(Op::Input { name: "bad".into(), sort: Sort::Origin }, vec![]);
    let b = prog.add(Op::Constant(2.0), vec![]);
    let c = prog.add(Op::Add, vec![a, b]);
    let d = prog.add(Op::Constant(3.0), vec![]);
    let e = prog.add(Op::Mul, vec![c, d]);
    let f = prog.add(Op::Constant(1.0), vec![]);
    prog.add(Op::Add, vec![e, f]);

    resolve_sorts(&mut prog);

    assert_eq!(prog.instructions[2].sort, Sort::Origin);
    assert_eq!(prog.instructions[4].sort, Sort::Origin);
    assert_eq!(prog.instructions[6].sort, Sort::Origin);

    let folded = fold_origin(&mut prog);
    assert_eq!(folded, 0);
}

#[test]
fn no_fold_on_all_contents() {
    let mut prog = Program::new();
    let a = prog.add(Op::Constant(1.0), vec![]);
    let b = prog.add(Op::Constant(2.0), vec![]);
    let c = prog.add(Op::Add, vec![a, b]);
    let d = prog.add(Op::Constant(3.0), vec![]);
    prog.add(Op::Mul, vec![c, d]);

    resolve_sorts(&mut prog);
    let folded = fold_origin(&mut prog);

    assert_eq!(folded, 0);
    assert_eq!(prog.instructions[2].sort, Sort::Contents);
    assert_eq!(prog.instructions[4].sort, Sort::Contents);
}

#[test]
fn origin_propagates_through_branches() {
    let mut prog = Program::<f64>::new();
    let x = prog.add(Op::Input { name: "x".into(), sort: Sort::Contents }, vec![]);
    let w = prog.add(Op::Input { name: "w".into(), sort: Sort::Contents }, vec![]);
    let h = prog.add(Op::MatMul, vec![x, w]);
    let poison = prog.add(Op::Input { name: "poison".into(), sort: Sort::Origin }, vec![]);
    let bad = prog.add(Op::Add, vec![h, poison]);
    let w2 = prog.add(Op::Input { name: "w2".into(), sort: Sort::Contents }, vec![]);
    prog.add(Op::MatMul, vec![bad, w2]);

    resolve_sorts(&mut prog);

    assert_eq!(prog.instructions[2].sort, Sort::Contents);
    assert_eq!(prog.instructions[4].sort, Sort::Origin);
    assert_eq!(prog.instructions[6].sort, Sort::Origin);

    let folded = fold_origin(&mut prog);
    assert_eq!(folded, 0);
}

#[test]
fn count_foldable_matches_fold() {
    let mut prog = Program::new();
    let a = prog.add(Op::Input { name: "bad".into(), sort: Sort::Origin }, vec![]);
    let b = prog.add(Op::Constant(2.0), vec![]);
    let c = prog.add(Op::Add, vec![a, b]);
    let d = prog.add(Op::Constant(3.0), vec![]);
    prog.add(Op::Mul, vec![c, d]);

    resolve_sorts(&mut prog);

    let foldable = count_foldable(&prog);
    let folded = fold_origin(&mut prog);

    assert_eq!(foldable, folded);
}

#[test]
fn fold_marks_every_dependent_of_an_origin() {
    // Without resolution first, folding does the propagation itself.
    let mut prog = Program::new();
    let a = prog.add(Op::Input { name: "bad".into(), sort: Sort::Origin }, vec![]);
    let b = prog.add(Op::Constant(2.0), vec![]);
    let c = prog.add(Op::Add, vec![a, b]);
    let d = prog.add(Op::Mul, vec![c, b]);
    prog.add(Op::Exp, vec![b]);
    prog.add(Op::Add, vec![d, d]);

    assert_eq!(count_foldable(&prog), 3);
    assert_eq!(fold_origin(&mut prog), 3);
    assert_eq!(prog.instructions[2].sort, Sort::Origin);
    assert_eq!(prog.instructions[3].sort, Sort::Origin);
    assert_eq!(prog.instructions[4].sort, Sort::Unknown);
    assert_eq!(prog.instructions[5].sort, Sort::Origin);
    assert_eq!(prog.instructions[1].sort, Sort::Contents);
    assert_eq!(fold_origin(&mut prog), 0);
}
