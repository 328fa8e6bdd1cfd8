use lib::ir::{Op, Program, Sort};
use lib::ops::{val_add, val_div, val_neg};
use lib::pass_fold::{count_foldable, fold_origin};
use lib::pass_resolve::{resolve_sorts, resolve_to_fixpoint};
use lib::val::Val;

fn input(prog: &mut Program<f64>, name: &str, sort: Sort) -> usize {
    prog.add(Op::Input { name: name.to_string(), sort }, vec![])
}

#[test]
fn folding_twice_folds_nothing_the_second_time() {
    let mut prog = Program::new();
    let bad = input(&mut prog, "bad", Sort::Origin);
    let c = prog.add(Op::Constant(1.0), vec![]);
    let x = prog.add(Op::Add, vec![bad, c]);
    prog.add(Op::Mul, vec![x, c]);

    assert_eq!(fold_origin(&mut prog), 2);
    let sorts: Vec<Sort> = prog.instructions.iter().map(|i| i.sort).collect();
    assert_eq!(fold_origin(&mut prog), 0);
    let again: Vec<Sort> = prog.instructions.iter().map(|i| i.sort).collect();
    assert_eq!(sorts, again);
}

#[test]
fn resolution_keeps_declared_and_resolved_sorts() {
    let mut prog = Program::new();
    let edge = input(&mut prog, "edge", Sort::Container);
    let ext = input(&mut prog, "ext", Sort::Unknown);
    let c = prog.add(Op::Constant(2.0), vec![]);
    prog.add(Op::Add, vec![edge, c]);

    resolve_to_fixpoint(&mut prog);
    assert_eq!(prog.instructions[edge].sort, Sort::Container);
    assert_eq!(prog.instructions[ext].sort, Sort::Unknown);
    assert_eq!(prog.instructions[c].sort, Sort::Contents);
    assert_eq!(prog.instructions[3].sort, Sort::Container);
}

#[test]
fn one_pass_suffices_in_ssa_order() {
    let mut prog = Program::new();
    let a = prog.add(Op::Constant(1.0), vec![]);
    let b = prog.add(Op::Constant(2.0), vec![]);
    let c = prog.add(Op::Add, vec![a, b]);
    let d = prog.add(Op::Mul, vec![c, c]);
    prog.add(Op::Sub, vec![d, a]);

    let mut copy = prog.clone();
    assert_eq!(resolve_sorts(&mut prog), 3);
    assert_eq!(resolve_sorts(&mut prog), 0);
    assert_eq!(resolve_to_fixpoint(&mut copy), 3);
}

#[test]
fn resolution_leaves_nothing_to_fold() {
    let mut prog = Program::new();
    let bad = input(&mut prog, "bad", Sort::Origin);
    let c = prog.add(Op::Constant(3.0), vec![]);
    let x = prog.add(Op::Div, vec![c, bad]);
    let y = prog.add(Op::Add, vec![x, c]);
    prog.add(Op::Relu, vec![y]);

    resolve_to_fixpoint(&mut prog);
    assert_eq!(count_foldable(&prog), 0);
    assert_eq!(fold_origin(&mut prog), 0);
    assert_eq!(prog.instructions[4].sort, Sort::Origin);
}

#[test]
fn passing_checks_leave_everything_contents() {
    let mut prog = Program::new();
    let a = input(&mut prog, "a", Sort::Contents);
    let b = input(&mut prog, "b", Sort::Contents);
    let q = prog.add(Op::Div, vec![a, b]);
    let r = prog.add(Op::Add, vec![q, a]);
    prog.add(Op::Softmax, vec![r]);

    resolve_to_fixpoint(&mut prog);
    assert_eq!(prog.instructions[q].sort, Sort::Unknown);
    assert_eq!(prog.instructions[4].sort, Sort::Unknown);

    // The runtime check at the division passes.
    prog.instructions[q].sort = Sort::Contents;
    resolve_to_fixpoint(&mut prog);
    assert!(prog.instructions.iter().all(|i| i.sort == Sort::Contents));
}

#[test]
fn folding_touches_only_dependents_of_origin() {
    let mut prog = Program::new();
    let bad = input(&mut prog, "bad", Sort::Origin);
    let good = input(&mut prog, "good", Sort::Contents);
    let x = prog.add(Op::Exp, vec![bad]);
    let y = prog.add(Op::Exp, vec![good]);
    let z = prog.add(Op::Add, vec![y, good]);

    assert_eq!(count_foldable(&prog), 1);
    assert_eq!(fold_origin(&mut prog), 1);
    assert_eq!(prog.instructions[x].sort, Sort::Origin);
    assert_eq!(prog.instructions[y].sort, Sort::Unknown);
    assert_eq!(prog.instructions[z].sort, Sort::Unknown);
}

#[test]
fn static_sorts_match_value_sorts() {
    // An addition of an origin and a contents value: the value is origin,
    // and so is the sort the pass gives the instruction.
    assert_eq!(val_add(Val::Origin, Val::Contents(5i64)), Val::Origin);
    let mut prog = Program::new();
    let o = input(&mut prog, "o", Sort::Origin);
    let c = input(&mut prog, "c", Sort::Contents);
    let s = prog.add(Op::Add, vec![o, c]);
    resolve_sorts(&mut prog);
    assert_eq!(prog.instructions[s].sort, Sort::Origin);

    // A container beside contents: both stay container.
    assert_eq!(val_add(Val::Container(2i64), Val::Contents(5i64)), Val::Container(2));
    assert_eq!(val_neg(Val::Container(2i64)), Val::Container(2));

    // A division of contents: the value depends on the divisor, and the
    // sort stays unknown until the runtime check.
    assert_eq!(val_div(Val::Contents(6i64), Val::Contents(0i64)), Val::Container(6));
    let mut prog = Program::new();
    let a = input(&mut prog, "a", Sort::Contents);
    let b = input(&mut prog, "b", Sort::Contents);
    let d = prog.add(Op::Div, vec![a, b]);
    resolve_sorts(&mut prog);
    assert_eq!(prog.instructions[d].sort, Sort::Unknown);
}

#[test]
fn negating_twice_gives_the_value_back() {
    for a in [Val::Contents(7i64), Val::Contents(-3), Val::Contents(0), Val::Container(4), Val::Origin] {
        assert_eq!(val_neg(val_neg(a.clone())), a);
    }
}

#[test]
fn sort_counts_default_is_all_zero() {
    let c = lib::ir::SortCounts::default();
    assert_eq!((c.contents, c.container, c.origin, c.unknown, c.total), (0, 0, 0, 0, 0));
}
