use lib::ir::{is_exception_op, Op, Program, Sort};

#[test]
fn constant_is_contents() {
    let mut prog = Program::new();
    prog.add(Op::Constant(42.0), vec![]);
    assert_eq!(prog.instructions[0].sort, Sort::Contents);
}

#[test]
fn input_carries_declared_sort() {
    let mut prog = Program::<f64>::new();
    prog.add(Op::Input { name: "x".into(), sort: Sort::Contents }, vec![]);
    prog.add(Op::Input { name: "y".into(), sort: Sort::Unknown }, vec![]);
    assert_eq!(prog.instructions[0].sort, Sort::Contents);
    assert_eq!(prog.instructions[1].sort, Sort::Unknown);
}

#[test]
fn operation_starts_unknown() {
    let mut prog = Program::new();
    let a = prog.add(Op::Constant(1.0), vec![]);
    let b = prog.add(Op::Constant(2.0), vec![]);
    prog.add(Op::Add, vec![a, b]);
    assert_eq!(prog.instructions[2].sort, Sort::Unknown);
}

#[test]
fn add_returns_position_as_id() {
    let mut prog = Program::new();
    let a = prog.add(Op::Constant(1.0), vec![]);
    let b = prog.add(Op::Relu, vec![a]);
    assert_eq!((a, b), (0, 1));
    assert_eq!(prog.instructions[1].id, 1);
    assert_eq!(prog.instructions[1].operands, vec![0]);
}

#[test]
fn count_by_sort_partitions_the_program() {
    let mut prog = Program::new();
    let a = prog.add(Op::Constant(1.0), vec![]);
    let b = prog.add(Op::Input { name: "dead".into(), sort: Sort::Origin }, vec![]);
    prog.add(Op::Input { name: "edge".into(), sort: Sort::Container }, vec![]);
    prog.add(Op::Add, vec![a, b]);
    prog.add(Op::Div, vec![a, a]);
    let counts = prog.count_by_sort();
    assert_eq!(counts.contents, 1);
    assert_eq!(counts.origin, 1);
    assert_eq!(counts.container, 1);
    assert_eq!(counts.unknown, 2);
    assert_eq!(counts.total, 5);
}

#[test]
fn exception_ops_are_div_sqrt_log_rsqrt() {
    assert!(is_exception_op::<f64>(&Op::Div));
    assert!(is_exception_op::<f64>(&Op::Sqrt));
    assert!(is_exception_op::<f64>(&Op::Log));
    assert!(is_exception_op::<f64>(&Op::Rsqrt));
    assert!(!is_exception_op::<f64>(&Op::Exp));
    assert!(!is_exception_op::<f64>(&Op::Add));
    assert!(!is_exception_op(&Op::Constant(0.0)));
}
