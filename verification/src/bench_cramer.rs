//! Benchmark: Cramer's rule for 2x2 and 3x3 linear systems.
//!
//! The only runtime checks are the divisions by the determinant; every
//! other operation is contents by construction.
use vstd::prelude::*;
use crate::builder::{is_named_input, lemma_prefix_same, binary, contents_input, is_contents_input, is_node};
use crate::count::{count_if, lemma_count_if_ext, lemma_count_if_none};
use crate::ir::{arith_value, count_exception_ops, count_sort, exception_count, is_exception, is_exception_op, ssa_ordered, well_formed, Instruction, Op, Program, SortCounts, Sort};
use crate::pass_fold::{fold_origin, foldable_count, law_closed_program_folds_nothing, uses};
use crate::pass_resolve::{
    law_one_pass_suffices, law_pass_is_unique_local_solution, lemma_static_sort_of_contents, lemma_static_sort_of_unknown,
    local_sort, resolve_pass,
    resolve_to_fixpoint, fixpoint_sorts, with_sorts,
};

verus! {

/// The result of the quiet 2x2 run.
pub struct CramerResult {
    /// Non-exception operations left unknown: the `!= 0` hypotheses a
    /// reader of the program would still need.
    pub hypotheses: usize,
}

/// The 2x2 solver built at position `b`: inputs a, b, c, d, b1, b2; the
/// determinant `a*d - b*c`; the numerators `b1*d - b*b2` and `a*b2 - b1*c`;
/// and the two divisions by the determinant.
pub open spec fn cramer_2x2_at<C>(insts: Seq<Instruction<C>>, b: int) -> bool {
    let u = |k: int| (b + k) as usize;
    &&& forall|k: int| 0 <= k < 6 ==> #[trigger] is_contents_input(insts, b + k)
    &&& is_named_input(insts, b + 0, "a"@)
    &&& is_named_input(insts, b + 1, "b"@)
    &&& is_named_input(insts, b + 2, "c"@)
    &&& is_named_input(insts, b + 3, "d"@)
    &&& is_named_input(insts, b + 4, "b1"@)
    &&& is_named_input(insts, b + 5, "b2"@)
    &&& is_node(insts, b + 6, Op::Mul, seq![u(0), u(3)])
    &&& is_node(insts, b + 7, Op::Mul, seq![u(1), u(2)])
    &&& is_node(insts, b + 8, Op::Sub, seq![u(6), u(7)])
    &&& is_node(insts, b + 9, Op::Mul, seq![u(4), u(3)])
    &&& is_node(insts, b + 10, Op::Mul, seq![u(1), u(5)])
    &&& is_node(insts, b + 11, Op::Sub, seq![u(9), u(10)])
    &&& is_node(insts, b + 12, Op::Mul, seq![u(0), u(5)])
    &&& is_node(insts, b + 13, Op::Mul, seq![u(4), u(2)])
    &&& is_node(insts, b + 14, Op::Sub, seq![u(12), u(13)])
    &&& is_node(insts, b + 15, Op::Div, seq![u(11), u(8)])
    &&& is_node(insts, b + 16, Op::Div, seq![u(14), u(8)])
}

/// The 2x2 solver computes Cramer's rule. Over the integers, with the
/// inputs a, b, c, d, b1, b2 taking the values `env` gives them, both
/// divisions divide by the determinant `a*d - b*c`, and their numerators
/// `n1`, `n2` solve the system scaled by it: `a*n1 + b*n2 == b1*det` and
/// `c*n1 + d*n2 == b2*det`. So for a nonzero determinant the two quotients
/// are the solution of `[a b; c d] [x1; x2] = [b1; b2]`.
pub proof fn law_cramer_2x2_solves(insts: Seq<Instruction<u64>>, b: int, env: spec_fn(int) -> int)
    requires
        0 <= b,
        b + 17 <= insts.len() <= usize::MAX,
        cramer_2x2_at(insts, b),
    ensures
        insts[b + 15].op is Div,
        insts[b + 16].op is Div,
        ({
            let (a, bb, c, d, b1, b2) = (env(b), env(b + 1), env(b + 2), env(b + 3), env(b + 4), env(b + 5));
            let det = arith_value(insts, env, insts[b + 15].operands@[1] as int);
            let n1 = arith_value(insts, env, insts[b + 15].operands@[0] as int);
            let n2 = arith_value(insts, env, insts[b + 16].operands@[0] as int);
            &&& det == a * d - bb * c
            &&& arith_value(insts, env, insts[b + 16].operands@[1] as int) == det
            &&& a * n1 + bb * n2 == b1 * det
            &&& c * n1 + d * n2 == b2 * det
        }),
{
    let v = |k: int| arith_value(insts, env, b + k);
    assert forall|k: int| 0 <= k < 6 implies #[trigger] v(k) == env(b + k) by {
        assert(is_contents_input(insts, b + k));
    }
    let (a, bb, c, d, b1, b2) = (env(b), env(b + 1), env(b + 2), env(b + 3), env(b + 4), env(b + 5));
    assert(v(0) == a && v(1) == bb && v(2) == c && v(3) == d && v(4) == b1 && v(5) == b2);
    assert(v(6) == a * d);
    assert(v(7) == bb * c);
    assert(v(8) == a * d - bb * c);
    assert(v(9) == b1 * d);
    assert(v(10) == bb * b2);
    assert(v(11) == b1 * d - bb * b2);
    assert(v(12) == a * b2);
    assert(v(13) == b1 * c);
    assert(v(14) == a * b2 - b1 * c);
    assert(a * (b1 * d - bb * b2) + bb * (a * b2 - b1 * c) == b1 * (a * d - bb * c)) by (nonlinear_arith);
    assert(c * (b1 * d - bb * b2) + d * (a * b2 - b1 * c) == b2 * (a * d - bb * c)) by (nonlinear_arith);
}

/// Build a 2x2 Cramer's rule solver. Returns the id of the last division.
///
/// System: [a b; c d] * [x1; x2] = [b1; b2]
///   det = a*d - b*c
///   x1 = (b1*d - b*b2) / det
///   x2 = (a*b2 - b1*c) / det
pub fn build_cramer_2x2(prog: &mut Program<u64>) -> (last: usize)
    requires
        old(prog).wf(),
        ssa_ordered(old(prog).instructions@),
        old(prog).instructions@.len() + 17 <= usize::MAX,
    ensures
        final(prog).wf(),
        ssa_ordered(final(prog).instructions@),
        final(prog).instructions@.len() == old(prog).instructions@.len() + 17,
        final(prog).instructions@.subrange(0, old(prog).instructions@.len() as int) == old(prog).instructions@,
        cramer_2x2_at(final(prog).instructions@, old(prog).instructions@.len() as int),
        last == old(prog).instructions@.len() + 16,
{
    let ghost p0 = prog.instructions@;
    let a = contents_input(prog, "a");
    let b = contents_input(prog, "b");
    let c = contents_input(prog, "c");
    let d = contents_input(prog, "d");
    let b1 = contents_input(prog, "b1");
    let b2 = contents_input(prog, "b2");
    let ad = binary(prog, Op::Mul, a, d);
    let bc = binary(prog, Op::Mul, b, c);
    let det = binary(prog, Op::Sub, ad, bc);
    let b1d = binary(prog, Op::Mul, b1, d);
    let b_b2 = binary(prog, Op::Mul, b, b2);
    let num1 = binary(prog, Op::Sub, b1d, b_b2);
    let a_b2 = binary(prog, Op::Mul, a, b2);
    let b1c = binary(prog, Op::Mul, b1, c);
    let num2 = binary(prog, Op::Sub, a_b2, b1c);
    let _x1 = binary(prog, Op::Div, num1, det);
    let x2 = binary(prog, Op::Div, num2, det);
    x2
}

/// The 3x3 solver at `b`: the matrix a11..a33 and the right-hand side
/// b1..b3, all contents inputs.
pub open spec fn cramer_3x3_inputs_at<C>(insts: Seq<Instruction<C>>, b: int) -> bool {
    &&& forall|k: int| 0 <= k < 12 ==> #[trigger] is_contents_input(insts, b + k)
    &&& is_named_input(insts, b + 0, "a11"@)
    &&& is_named_input(insts, b + 1, "a12"@)
    &&& is_named_input(insts, b + 2, "a13"@)
    &&& is_named_input(insts, b + 3, "a21"@)
    &&& is_named_input(insts, b + 4, "a22"@)
    &&& is_named_input(insts, b + 5, "a23"@)
    &&& is_named_input(insts, b + 6, "a31"@)
    &&& is_named_input(insts, b + 7, "a32"@)
    &&& is_named_input(insts, b + 8, "a33"@)
    &&& is_named_input(insts, b + 9, "b1"@)
    &&& is_named_input(insts, b + 10, "b2"@)
    &&& is_named_input(insts, b + 11, "b3"@)
}

/// The 3x3 solver at `b`: the cofactors and the determinant `a(ei-fh) - b(di-fg) + c(dh-eg)`.
pub open spec fn cramer_3x3_det_at<C>(insts: Seq<Instruction<C>>, b: int) -> bool {
    let u = |k: int| (b + k) as usize;
    &&& is_node(insts, b + 12, Op::Mul, seq![u(4), u(8)])
    &&& is_node(insts, b + 13, Op::Mul, seq![u(5), u(7)])
    &&& is_node(insts, b + 14, Op::Sub, seq![u(12), u(13)])
    &&& is_node(insts, b + 15, Op::Mul, seq![u(0), u(14)])
    &&& is_node(insts, b + 16, Op::Mul, seq![u(3), u(8)])
    &&& is_node(insts, b + 17, Op::Mul, seq![u(5), u(6)])
    &&& is_node(insts, b + 18, Op::Sub, seq![u(16), u(17)])
    &&& is_node(insts, b + 19, Op::Mul, seq![u(1), u(18)])
    &&& is_node(insts, b + 20, Op::Mul, seq![u(3), u(7)])
    &&& is_node(insts, b + 21, Op::Mul, seq![u(4), u(6)])
    &&& is_node(insts, b + 22, Op::Sub, seq![u(20), u(21)])
    &&& is_node(insts, b + 23, Op::Mul, seq![u(2), u(22)])
    &&& is_node(insts, b + 24, Op::Sub, seq![u(15), u(19)])
    &&& is_node(insts, b + 25, Op::Add, seq![u(24), u(23)])
}

/// The 3x3 solver at `b`: the first numerator, with the first column replaced by the right-hand side, and `x1`.
pub open spec fn cramer_3x3_x1_at<C>(insts: Seq<Instruction<C>>, b: int) -> bool {
    let u = |k: int| (b + k) as usize;
    &&& is_node(insts, b + 26, Op::Mul, seq![u(9), u(14)])
    &&& is_node(insts, b + 27, Op::Mul, seq![u(10), u(8)])
    &&& is_node(insts, b + 28, Op::Mul, seq![u(5), u(11)])
    &&& is_node(insts, b + 29, Op::Sub, seq![u(27), u(28)])
    &&& is_node(insts, b + 30, Op::Mul, seq![u(1), u(29)])
    &&& is_node(insts, b + 31, Op::Mul, seq![u(10), u(7)])
    &&& is_node(insts, b + 32, Op::Mul, seq![u(4), u(11)])
    &&& is_node(insts, b + 33, Op::Sub, seq![u(31), u(32)])
    &&& is_node(insts, b + 34, Op::Mul, seq![u(2), u(33)])
    &&& is_node(insts, b + 35, Op::Sub, seq![u(26), u(30)])
    &&& is_node(insts, b + 36, Op::Add, seq![u(35), u(34)])
    &&& is_node(insts, b + 37, Op::Div, seq![u(36), u(25)])
}

/// The 3x3 solver at `b`: the second numerator, with the second column replaced, and `x2`.
pub open spec fn cramer_3x3_x2_at<C>(insts: Seq<Instruction<C>>, b: int) -> bool {
    let u = |k: int| (b + k) as usize;
    &&& is_node(insts, b + 38, Op::Mul, seq![u(0), u(29)])
    &&& is_node(insts, b + 39, Op::Mul, seq![u(9), u(18)])
    &&& is_node(insts, b + 40, Op::Mul, seq![u(11), u(6)])
    &&& is_node(insts, b + 41, Op::Mul, seq![u(3), u(11)])
    &&& is_node(insts, b + 42, Op::Sub, seq![u(40), u(41)])
    &&& is_node(insts, b + 43, Op::Mul, seq![u(2), u(42)])
    &&& is_node(insts, b + 44, Op::Sub, seq![u(38), u(39)])
    &&& is_node(insts, b + 45, Op::Add, seq![u(44), u(43)])
    &&& is_node(insts, b + 46, Op::Div, seq![u(45), u(25)])
}

/// The 3x3 solver at `b`: the third numerator and `x3`.
pub open spec fn cramer_3x3_x3_at<C>(insts: Seq<Instruction<C>>, b: int) -> bool {
    let u = |k: int| (b + k) as usize;
    &&& is_node(insts, b + 47, Op::Mul, seq![u(0), u(22)])
    &&& is_node(insts, b + 48, Op::Mul, seq![u(9), u(22)])
    &&& is_node(insts, b + 49, Op::Mul, seq![u(1), u(18)])
    &&& is_node(insts, b + 50, Op::Sub, seq![u(15), u(48)])
    &&& is_node(insts, b + 51, Op::Add, seq![u(50), u(49)])
    &&& is_node(insts, b + 52, Op::Div, seq![u(51), u(25)])
}

/// The 3x3 solver built at position `b`: the inputs, the determinant, and
/// the three solutions, each a numerator divided by the determinant.
pub open spec fn cramer_3x3_at<C>(insts: Seq<Instruction<C>>, b: int) -> bool {
    &&& cramer_3x3_inputs_at(insts, b)
    &&& cramer_3x3_det_at(insts, b)
    &&& cramer_3x3_x1_at(insts, b)
    &&& cramer_3x3_x2_at(insts, b)
    &&& cramer_3x3_x3_at(insts, b)
}

fn build_cramer_3x3_inputs(prog: &mut Program<u64>, b: usize)
    requires
        old(prog).wf(),
        ssa_ordered(old(prog).instructions@),
        old(prog).instructions@.len() == b,
        b + 53 <= usize::MAX,
    ensures
        final(prog).wf(),
        ssa_ordered(final(prog).instructions@),
        final(prog).instructions@.len() == b + 12,
        final(prog).instructions@.subrange(0, b as int) == old(prog).instructions@,
        cramer_3x3_inputs_at(final(prog).instructions@, b as int),
{
    let ghost p0 = prog.instructions@;
    contents_input(prog, "a11");
    let ghost h0 = prog.instructions@;
    contents_input(prog, "a12");
    let ghost h1 = prog.instructions@;
    contents_input(prog, "a13");
    let ghost h2 = prog.instructions@;
    contents_input(prog, "a21");
    let ghost h3 = prog.instructions@;
    contents_input(prog, "a22");
    let ghost h4 = prog.instructions@;
    contents_input(prog, "a23");
    let ghost h5 = prog.instructions@;
    contents_input(prog, "a31");
    let ghost h6 = prog.instructions@;
    contents_input(prog, "a32");
    let ghost h7 = prog.instructions@;
    contents_input(prog, "a33");
    let ghost h8 = prog.instructions@;
    contents_input(prog, "b1");
    let ghost h9 = prog.instructions@;
    contents_input(prog, "b2");
    let ghost h10 = prog.instructions@;
    contents_input(prog, "b3");
    let ghost h11 = prog.instructions@;
    proof {
        lemma_prefix_same(h10, h11);
        lemma_prefix_same(h9, h10);
        lemma_prefix_same(h8, h9);
        lemma_prefix_same(h7, h8);
        lemma_prefix_same(h6, h7);
        lemma_prefix_same(h5, h6);
        lemma_prefix_same(h4, h5);
        lemma_prefix_same(h3, h4);
        lemma_prefix_same(h2, h3);
        lemma_prefix_same(h1, h2);
        lemma_prefix_same(h0, h1);
        lemma_prefix_same(p0, h0);
        assert(h11.subrange(0, b as int) =~= p0);
        assert(cramer_3x3_inputs_at(h11, b as int));
    }
}

fn build_cramer_3x3_det(prog: &mut Program<u64>, b: usize)
    requires
        old(prog).wf(),
        ssa_ordered(old(prog).instructions@),
        old(prog).instructions@.len() == b + 12,
        b + 53 <= usize::MAX,
    ensures
        final(prog).wf(),
        ssa_ordered(final(prog).instructions@),
        final(prog).instructions@.len() == b + 26,
        final(prog).instructions@.subrange(0, b + 12) == old(prog).instructions@,
        cramer_3x3_det_at(final(prog).instructions@, b as int),
{
    let ei = binary(prog, Op::Mul, b + 4, b + 8);
    let fh = binary(prog, Op::Mul, b + 5, b + 7);
    let ei_fh = binary(prog, Op::Sub, ei, fh);
    let a_ei_fh = binary(prog, Op::Mul, b + 0, ei_fh);
    let di = binary(prog, Op::Mul, b + 3, b + 8);
    let fg = binary(prog, Op::Mul, b + 5, b + 6);
    let di_fg = binary(prog, Op::Sub, di, fg);
    let b_di_fg = binary(prog, Op::Mul, b + 1, di_fg);
    let dh = binary(prog, Op::Mul, b + 3, b + 7);
    let eg = binary(prog, Op::Mul, b + 4, b + 6);
    let dh_eg = binary(prog, Op::Sub, dh, eg);
    let c_dh_eg = binary(prog, Op::Mul, b + 2, dh_eg);
    let det_part = binary(prog, Op::Sub, a_ei_fh, b_di_fg);
    let det = binary(prog, Op::Add, det_part, c_dh_eg);
}

fn build_cramer_3x3_x1(prog: &mut Program<u64>, b: usize)
    requires
        old(prog).wf(),
        ssa_ordered(old(prog).instructions@),
        old(prog).instructions@.len() == b + 26,
        b + 53 <= usize::MAX,
    ensures
        final(prog).wf(),
        ssa_ordered(final(prog).instructions@),
        final(prog).instructions@.len() == b + 38,
        final(prog).instructions@.subrange(0, b + 26) == old(prog).instructions@,
        cramer_3x3_x1_at(final(prog).instructions@, b as int),
{
    let b1_ei_fh = binary(prog, Op::Mul, b + 9, b + 14);
    let b2i = binary(prog, Op::Mul, b + 10, b + 8);
    let fb3 = binary(prog, Op::Mul, b + 5, b + 11);
    let b2i_fb3 = binary(prog, Op::Sub, b2i, fb3);
    let b_b2i_fb3 = binary(prog, Op::Mul, b + 1, b2i_fb3);
    let b2h = binary(prog, Op::Mul, b + 10, b + 7);
    let eb3 = binary(prog, Op::Mul, b + 4, b + 11);
    let b2h_eb3 = binary(prog, Op::Sub, b2h, eb3);
    let c_b2h_eb3 = binary(prog, Op::Mul, b + 2, b2h_eb3);
    let num1_part = binary(prog, Op::Sub, b1_ei_fh, b_b2i_fb3);
    let num1 = binary(prog, Op::Add, num1_part, c_b2h_eb3);
    let _x1 = binary(prog, Op::Div, num1, b + 25);
}

fn build_cramer_3x3_x2(prog: &mut Program<u64>, b: usize)
    requires
        old(prog).wf(),
        ssa_ordered(old(prog).instructions@),
        old(prog).instructions@.len() == b + 38,
        b + 53 <= usize::MAX,
    ensures
        final(prog).wf(),
        ssa_ordered(final(prog).instructions@),
        final(prog).instructions@.len() == b + 47,
        final(prog).instructions@.subrange(0, b + 38) == old(prog).instructions@,
        cramer_3x3_x2_at(final(prog).instructions@, b as int),
{
    let a_b2i_fb3 = binary(prog, Op::Mul, b + 0, b + 29);
    let b1_di_fg = binary(prog, Op::Mul, b + 9, b + 18);
    let b3g = binary(prog, Op::Mul, b + 11, b + 6);
    let db3 = binary(prog, Op::Mul, b + 3, b + 11);
    let b3g_db3 = binary(prog, Op::Sub, b3g, db3);
    let c_b3g_db3 = binary(prog, Op::Mul, b + 2, b3g_db3);
    let num2_part = binary(prog, Op::Sub, a_b2i_fb3, b1_di_fg);
    let num2 = binary(prog, Op::Add, num2_part, c_b3g_db3);
    let _x2 = binary(prog, Op::Div, num2, b + 25);
}

fn build_cramer_3x3_x3(prog: &mut Program<u64>, b: usize)
    requires
        old(prog).wf(),
        ssa_ordered(old(prog).instructions@),
        old(prog).instructions@.len() == b + 47,
        b + 53 <= usize::MAX,
    ensures
        final(prog).wf(),
        ssa_ordered(final(prog).instructions@),
        final(prog).instructions@.len() == b + 53,
        final(prog).instructions@.subrange(0, b + 47) == old(prog).instructions@,
        cramer_3x3_x3_at(final(prog).instructions@, b as int),
{
    let _a_dh_eg = binary(prog, Op::Mul, b + 0, b + 22);
    let b1_dh_eg = binary(prog, Op::Mul, b + 9, b + 22);
    let b_num = binary(prog, Op::Mul, b + 1, b + 18);
    let num3_part = binary(prog, Op::Sub, b + 15, b1_dh_eg);
    let num3 = binary(prog, Op::Add, num3_part, b_num);
    let _x3 = binary(prog, Op::Div, num3, b + 25);
}

/// The 3x3 solver's determinant and first solution. Over the integers,
/// with the inputs a11..a33, b1..b3 taking the values `env` gives them,
/// each of the three divisions divides by the determinant
/// `a(ei - fh) - b(di - fg) + c(dh - eg)`, and the first one's numerator is
/// Cramer's: the determinant with the first column replaced by the
/// right-hand side, `b1(ei - fh) - b(b2 i - f b3) + c(b2 h - e b3)`.
pub proof fn law_cramer_3x3_determinant(insts: Seq<Instruction<u64>>, b: int, env: spec_fn(int) -> int)
    requires
        0 <= b,
        b + 53 <= insts.len() <= usize::MAX,
        cramer_3x3_at(insts, b),
    ensures
        insts[b + 37].op is Div,
        insts[b + 46].op is Div,
        insts[b + 52].op is Div,
        ({
            let (a, bb, c, d, e, f, g, h, i) = (
                env(b),
                env(b + 1),
                env(b + 2),
                env(b + 3),
                env(b + 4),
                env(b + 5),
                env(b + 6),
                env(b + 7),
                env(b + 8),
            );
            let (b1, b2, b3) = (env(b + 9), env(b + 10), env(b + 11));
            let det = a * (e * i - f * h) - bb * (d * i - f * g) + c * (d * h - e * g);
            &&& arith_value(insts, env, insts[b + 37].operands@[1] as int) == det
            &&& arith_value(insts, env, insts[b + 46].operands@[1] as int) == det
            &&& arith_value(insts, env, insts[b + 52].operands@[1] as int) == det
            &&& arith_value(insts, env, insts[b + 37].operands@[0] as int) == b1 * (e * i - f * h) - bb * (b2 * i - f * b3) + c
                * (b2 * h - e * b3)
        }),
{
    assert(cramer_3x3_det_at(insts, b));
    assert(cramer_3x3_x1_at(insts, b));
    assert(cramer_3x3_x2_at(insts, b));
    assert(cramer_3x3_x3_at(insts, b));
    let v = |k: int| arith_value(insts, env, b + k);
    assert forall|k: int| 0 <= k < 12 implies #[trigger] v(k) == env(b + k) by {
        assert(is_contents_input(insts, b + k));
    }
    let (a, bb, c, d, e, f, g, h, i) = (env(b), env(b + 1), env(b + 2), env(b + 3), env(b + 4), env(b + 5), env(b + 6), env(b + 7), env(b + 8));
    let (b1, b2, b3) = (env(b + 9), env(b + 10), env(b + 11));
    assert(v(0) == a && v(1) == bb && v(2) == c && v(3) == d && v(4) == e && v(5) == f);
    assert(v(6) == g && v(7) == h && v(8) == i && v(9) == b1 && v(10) == b2 && v(11) == b3);
    assert(v(12) == e * i);
    assert(v(13) == f * h);
    assert(v(14) == e * i - f * h);
    assert(v(15) == a * (e * i - f * h));
    assert(v(16) == d * i);
    assert(v(17) == f * g);
    assert(v(18) == d * i - f * g);
    assert(v(19) == bb * (d * i - f * g));
    assert(v(20) == d * h);
    assert(v(21) == e * g);
    assert(v(22) == d * h - e * g);
    assert(v(23) == c * (d * h - e * g));
    assert(v(24) == a * (e * i - f * h) - bb * (d * i - f * g));
    assert(v(25) == a * (e * i - f * h) - bb * (d * i - f * g) + c * (d * h - e * g));
    assert(v(26) == b1 * (e * i - f * h));
    assert(v(27) == b2 * i);
    assert(v(28) == f * b3);
    assert(v(29) == b2 * i - f * b3);
    assert(v(30) == bb * (b2 * i - f * b3));
    assert(v(31) == b2 * h);
    assert(v(32) == e * b3);
    assert(v(33) == b2 * h - e * b3);
    assert(v(34) == c * (b2 * h - e * b3));
    assert(v(35) == b1 * (e * i - f * h) - bb * (b2 * i - f * b3));
    assert(v(36) == b1 * (e * i - f * h) - bb * (b2 * i - f * b3) + c * (b2 * h - e * b3));
}

/// Build a 3x3 Cramer's rule solver. Returns the id of the last division.
///
/// Determinant: a(ei-fh) - b(di-fg) + c(dh-eg); each solution is a
/// numerator determinant divided by it.
pub fn build_cramer_3x3(prog: &mut Program<u64>) -> (last: usize)
    requires
        old(prog).wf(),
        ssa_ordered(old(prog).instructions@),
        old(prog).instructions@.len() + 53 <= usize::MAX,
    ensures
        final(prog).wf(),
        ssa_ordered(final(prog).instructions@),
        final(prog).instructions@.len() == old(prog).instructions@.len() + 53,
        final(prog).instructions@.subrange(0, old(prog).instructions@.len() as int) == old(prog).instructions@,
        cramer_3x3_at(final(prog).instructions@, old(prog).instructions@.len() as int),
        last == old(prog).instructions@.len() + 52,
{
    let b = prog.instructions.len();
    let ghost p0 = prog.instructions@;
    build_cramer_3x3_inputs(prog, b);
    let ghost p1 = prog.instructions@;
    build_cramer_3x3_det(prog, b);
    let ghost p2 = prog.instructions@;
    build_cramer_3x3_x1(prog, b);
    let ghost p3 = prog.instructions@;
    build_cramer_3x3_x2(prog, b);
    let ghost p4 = prog.instructions@;
    build_cramer_3x3_x3(prog, b);
    proof {
        let p5 = prog.instructions@;
        lemma_prefix_same(p4, p5);
        lemma_prefix_same(p3, p4);
        lemma_prefix_same(p2, p3);
        lemma_prefix_same(p1, p2);
        assert(cramer_3x3_inputs_at(p5, b as int)) by {
            assert forall|k: int| 0 <= k < 12 implies #[trigger] is_contents_input(p5, b + k) by {
                assert(is_contents_input(p1, b + k));
            }
        }
        assert(cramer_3x3_det_at(p5, b as int));
        assert(cramer_3x3_x1_at(p5, b as int));
        assert(cramer_3x3_x2_at(p5, b as int));
        assert(p5.subrange(0, b as int) =~= p0);
    }
    b + 52
}

/// The number of non-exception operations whose sort is still unknown.
fn count_unresolved_non_exceptions<C>(prog: &Program<C>) -> (n: usize)
    ensures
        n == count_if(
            prog.instructions@.len() as int,
            |i: int| !is_exception(prog.instructions@[i].op) && prog.instructions@[i].sort == Sort::Unknown,
        ),
{
    let ghost insts = prog.instructions@;
    let len = prog.instructions.len();
    let mut n: usize = 0;
    let mut i: usize = 0;
    while i < len
        invariant
            insts == prog.instructions@,
            len == insts.len(),
            i <= len,
            n == count_if(i as int, |j: int| !is_exception(insts[j].op) && insts[j].sort == Sort::Unknown),
            n <= i,
        decreases len - i,
    {
        let inst = &prog.instructions[i];
        if !is_exception_op(&inst.op) && inst.sort == Sort::Unknown {
            n = n + 1;
        }
        i = i + 1;
    }
    n
}

/// The sorts static resolution gives the 2x2 solver built at position 0:
/// everything is contents except the two divisions.
proof fn lemma_cramer_2x2_sorts(insts: Seq<Instruction<u64>>)
    requires
        well_formed(insts),
        ssa_ordered(insts),
        insts.len() == 17,
        cramer_2x2_at(insts, 0),
    ensures
        resolve_pass(insts) == Seq::new(17, |i: int| if i >= 15 { Sort::Unknown } else { Sort::Contents }),
        forall|i: int| 0 <= i < 17 ==> (#[trigger] insts[i].op is Div <==> i >= 15),
        forall|i: int| 0 <= i < 17 ==> (is_exception(#[trigger] insts[i].op) <==> i >= 15),
        no_division_used(insts),
{
    let t = Seq::new(17, |i: int| if i >= 15 { Sort::Unknown } else { Sort::Contents });
    assert forall|j: int| #![trigger insts[j]] 0 <= j < 17 implies t[j] == local_sort(insts, t, j) && (insts[j].op is Div <==> j >= 15)
        && (is_exception(insts[j].op) <==> j >= 15) by {
        if j < 6 {
            assert(is_contents_input(insts, 0 + j));
        } else {
            lemma_static_sort_of_contents(insts[j].op, insts[j].operands@, t);
        }
    }
    assert forall|v: int, q: int| 0 <= v < 17 && 0 <= q < insts[v].operands@.len() implies !(insts[#[trigger] insts[v].operands@[q] as int].op is Div) by {
        if v < 6 {
            assert(is_contents_input(insts, 0 + v));
        } else {
            let o = insts[v].operands@[q] as int;
            assert(insts[o] == insts[o]);
            if o >= 15 && v < 15 {
                assert(t[v] == local_sort(insts, t, v));
                assert(forall|i: int| 0 <= i < 17 ==> t[i] != Sort::Origin);
                lemma_static_sort_of_unknown(insts[v].op, insts[v].operands@, t, q);
            }
        }
    }
    law_pass_is_unique_local_solution(insts, t);
}

/// No instruction takes a division as an operand.
pub open spec fn no_division_used<C>(insts: Seq<Instruction<C>>) -> bool {
    forall|v: int, q: int|
        0 <= v < insts.len() && 0 <= q < insts[v].operands@.len() ==> !(insts[#[trigger] insts[v].operands@[q] as int].op is Div)
}

/// The sorts static resolution gives the 3x3 solver built at position 0:
/// everything is contents except the three divisions.
pub open spec fn cramer_3x3_sorts() -> Seq<Sort> {
    Seq::new(53, |i: int| if i == 37 || i == 46 || i == 52 { Sort::Unknown } else { Sort::Contents })
}

proof fn lemma_cramer_3x3_sorts(insts: Seq<Instruction<u64>>)
    requires
        well_formed(insts),
        ssa_ordered(insts),
        insts.len() == 53,
        cramer_3x3_at(insts, 0),
    ensures
        resolve_pass(insts) == cramer_3x3_sorts(),
        forall|i: int| 0 <= i < 53 ==> (#[trigger] insts[i].op is Div <==> (i == 37 || i == 46 || i == 52)),
        forall|i: int| 0 <= i < 53 ==> (is_exception(#[trigger] insts[i].op) <==> (i == 37 || i == 46 || i == 52)),
        no_division_used(insts),
{
    let t = cramer_3x3_sorts();
    assert(cramer_3x3_det_at(insts, 0));
    assert(cramer_3x3_x1_at(insts, 0));
    assert(cramer_3x3_x2_at(insts, 0));
    assert(cramer_3x3_x3_at(insts, 0));
    assert forall|j: int| #![trigger insts[j]] 0 <= j < 53 implies t[j] == local_sort(insts, t, j) && (insts[j].op is Div <==> (j == 37
        || j == 46 || j == 52)) && (is_exception(insts[j].op) <==> (j == 37 || j == 46 || j == 52)) by {
        if j < 12 {
            assert(is_contents_input(insts, 0 + j));
        } else {
            lemma_static_sort_of_contents(insts[j].op, insts[j].operands@, t);
        }
    }
    assert forall|v: int, q: int| 0 <= v < 53 && 0 <= q < insts[v].operands@.len() implies !(insts[#[trigger] insts[v].operands@[q] as int].op is Div) by {
        if v < 12 {
            assert(is_contents_input(insts, 0 + v));
        } else {
            let o = insts[v].operands@[q] as int;
            assert(insts[o] == insts[o]);
            assert(insts[v] == insts[v]);
            if (o == 37 || o == 46 || o == 52) && !(v == 37 || v == 46 || v == 52) {
                assert(t[v] == local_sort(insts, t, v));
                assert(forall|i: int| 0 <= i < 53 ==> t[i] != Sort::Origin);
                lemma_static_sort_of_unknown(insts[v].op, insts[v].operands@, t, q);
            }
        }
    }
    law_pass_is_unique_local_solution(insts, t);
}

/// Make every division origin, as a zero determinant would.
fn make_divisions_origin<C>(prog: &mut Program<C>)
    ensures
        with_sorts(
            old(prog).instructions@,
            final(prog).instructions@,
            Seq::new(old(prog).instructions@.len(), |j: int| if old(prog).instructions@[j].op is Div { Sort::Origin } else { old(prog).instructions@[j].sort }),
        ),
{
    let ghost insts = prog.instructions@;
    let len = prog.instructions.len();
    let mut i: usize = 0;
    while i < len
        invariant
            insts == old(prog).instructions@,
            len == insts.len(),
            i <= len,
            with_sorts(insts, prog.instructions@, Seq::new(len as nat, |j: int| if j < i && insts[j].op is Div { Sort::Origin } else { insts[j].sort })),
        decreases len - i,
    {
        if matches!(prog.instructions[i].op, Op::Div) {
            prog.instructions[i].sort = Sort::Origin;
        }
        i = i + 1;
    }
    proof {
        assert(Seq::new(len as nat, |j: int| if j < i && insts[j].op is Div { Sort::Origin } else { insts[j].sort }) =~= Seq::new(
            insts.len(),
            |j: int| if insts[j].op is Div { Sort::Origin } else { insts[j].sort },
        ));
    }
}

/// When no instruction takes a division as an operand and only divisions
/// are origin, folding finds nothing to fold.
proof fn lemma_unused_divisions_fold_nothing<C>(insts: Seq<Instruction<C>>)
    requires
        insts.len() <= usize::MAX,
        no_division_used(insts),
        forall|u: int| 0 <= u < insts.len() && #[trigger] insts[u].sort == Sort::Origin ==> insts[u].op is Div,
    ensures
        foldable_count(insts) == 0,
{
    assert forall|u: int, v: int|
        0 <= u < insts.len() && insts[u].sort == Sort::Origin && #[trigger] uses(insts, v, u) implies insts[v].sort == Sort::Origin by {
        let q = choose|q: int| 0 <= q < insts[v].operands@.len() && insts[v].operands@[q] == u as usize;
        assert(!(insts[insts[v].operands@[q] as int].op is Div));
    }
    law_closed_program_folds_nothing(insts);
}

/// Resolve the 2x2 solver and count the non-exception operations that stay
/// unknown: none does.
pub fn run_benchmark_quiet() -> (r: CramerResult)
    ensures
        r.hypotheses == 0,
{
    let mut prog: Program<u64> = Program::new();
    build_cramer_2x2(&mut prog);
    let ghost built = prog.instructions@;
    proof {
        assert(built.subrange(0, 0) =~= Seq::<Instruction<u64>>::empty());
        lemma_cramer_2x2_sorts(built);
        law_one_pass_suffices(built);
    }
    resolve_to_fixpoint(&mut prog);
    let hypotheses = count_unresolved_non_exceptions(&prog);
    proof {
        let insts = prog.instructions@;
        assert forall|i: int| 0 <= i < insts.len() implies !(!is_exception(insts[i].op) && insts[i].sort == Sort::Unknown) by {
            if i >= 15 {
                assert(insts[i].op == built[i].op);
            }
        }
        lemma_count_if_none(insts.len() as int, |i: int| !is_exception(insts[i].op) && insts[i].sort == Sort::Unknown);
    }
    CramerResult { hypotheses }
}

proof fn lemma_division_positions_2x2()
    ensures
        count_if(17, |j: int| j >= 15) == 2,
        count_if(17, |j: int| !(j >= 15)) == 15,
{
    reveal_with_fuel(count_if, 18);
}

proof fn lemma_division_positions_3x3()
    ensures
        count_if(53, |j: int| j == 37 || j == 46 || j == 52) == 3,
        count_if(53, |j: int| !(j == 37 || j == 46 || j == 52)) == 50,
{
    reveal_with_fuel(count_if, 54);
}

/// What the analysis of one solver reports.
pub struct SolverReport {
    /// Operations in the solver.
    pub total: usize,
    /// Sort counts after static resolution.
    pub counts: SortCounts,
    /// Runtime checks: the exception operations, which are the divisions
    /// by the determinant.
    pub checks: usize,
    /// Non-exception operations left unknown.
    pub unresolved: usize,
    /// Operations that fold when the determinant is zero and every division
    /// is origin.
    pub folded: usize,
}

/// What the benchmark reports for both systems.
pub struct CramerReport {
    pub two_by_two: SolverReport,
    pub three_by_three: SolverReport,
}

/// Build the 2x2 solver, resolve it and count, then fold with every
/// division origin: 17 operations, 15 contents and 2 unknown (the
/// divisions), 2 runtime checks, no non-exception operation left unknown,
/// and nothing folds, for nothing uses a division.
fn analyze_2_by_2() -> (r: SolverReport)
    ensures
        r.total == 17,
        r.counts.contents == 15 && r.counts.container == 0 && r.counts.origin == 0 && r.counts.unknown == 2,
        r.counts.total == 17,
        r.checks == 2,
        r.unresolved == 0,
        r.folded == 0,
{
    let mut prog: Program<u64> = Program::new();
    build_cramer_2x2(&mut prog);
    let total = prog.instructions.len();
    let ghost built = prog.instructions@;
    proof {
        assert(built.subrange(0, 0) =~= Seq::<Instruction<u64>>::empty());
        lemma_cramer_2x2_sorts(built);
        law_one_pass_suffices(built);
    }
    resolve_to_fixpoint(&mut prog);
    let ghost res = prog.instructions@;
    let counts = prog.count_by_sort();
    let checks = count_exception_ops(&prog);
    let unresolved = count_unresolved_non_exceptions(&prog);
    proof {
        assert forall|j: int| #![trigger res[j]] 0 <= j < 17 implies (res[j].sort == Sort::Unknown <==> j >= 15) && (res[j].sort
            == Sort::Contents <==> !(j >= 15)) && is_exception(res[j].op) == is_exception(built[j].op) by {
            assert(res[j].op == built[j].op);
        }
        lemma_count_if_ext(17, |j: int| res[j].sort == Sort::Unknown, |j: int| j >= 15);
        lemma_count_if_ext(17, |j: int| res[j].sort == Sort::Contents, |j: int| !(j >= 15));
        lemma_count_if_ext(17, |j: int| is_exception(res[j].op), |j: int| j >= 15);
        lemma_count_if_none(17, |j: int| res[j].sort == Sort::Origin);
        lemma_count_if_none(17, |j: int| res[j].sort == Sort::Container);
        lemma_count_if_none(17, |j: int| !is_exception(res[j].op) && res[j].sort == Sort::Unknown);
        lemma_division_positions_2x2();
    }
    make_divisions_origin(&mut prog);
    proof {
        let inj = prog.instructions@;
        assert(no_division_used(inj)) by {
            assert forall|v: int, q: int| 0 <= v < inj.len() && 0 <= q < inj[v].operands@.len() implies !(inj[#[trigger] inj[v].operands@[q] as int].op is Div) by {
                assert(res[v].operands@[q] == built[v].operands@[q]);
            }
        }
        lemma_unused_divisions_fold_nothing(inj);
    }
    let folded = fold_origin(&mut prog);
    SolverReport { total, counts, checks, unresolved, folded }
}

/// Build the 3x3 solver, resolve it and count, then fold with every
/// division origin: 53 operations, 50 contents and 3 unknown (the
/// divisions), 3 runtime checks, no non-exception operation left unknown,
/// and nothing folds, for nothing uses a division.
fn analyze_3_by_3() -> (r: SolverReport)
    ensures
        r.total == 53,
        r.counts.contents == 50 && r.counts.container == 0 && r.counts.origin == 0 && r.counts.unknown == 3,
        r.counts.total == 53,
        r.checks == 3,
        r.unresolved == 0,
        r.folded == 0,
{
    let mut prog: Program<u64> = Program::new();
    build_cramer_3x3(&mut prog);
    let total = prog.instructions.len();
    let ghost built = prog.instructions@;
    proof {
        assert(built.subrange(0, 0) =~= Seq::<Instruction<u64>>::empty());
        lemma_cramer_3x3_sorts(built);
        law_one_pass_suffices(built);
    }
    resolve_to_fixpoint(&mut prog);
    let ghost res = prog.instructions@;
    let counts = prog.count_by_sort();
    let checks = count_exception_ops(&prog);
    let unresolved = count_unresolved_non_exceptions(&prog);
    proof {
        assert forall|j: int| #![trigger res[j]] 0 <= j < 53 implies (res[j].sort == Sort::Unknown <==> j == 37 || j == 46 || j == 52) && (res[j].sort
            == Sort::Contents <==> !(j == 37 || j == 46 || j == 52)) && is_exception(res[j].op) == is_exception(built[j].op) by {
            assert(res[j].op == built[j].op);
        }
        lemma_count_if_ext(53, |j: int| res[j].sort == Sort::Unknown, |j: int| j == 37 || j == 46 || j == 52);
        lemma_count_if_ext(53, |j: int| res[j].sort == Sort::Contents, |j: int| !(j == 37 || j == 46 || j == 52));
        lemma_count_if_ext(53, |j: int| is_exception(res[j].op), |j: int| j == 37 || j == 46 || j == 52);
        lemma_count_if_none(53, |j: int| res[j].sort == Sort::Origin);
        lemma_count_if_none(53, |j: int| res[j].sort == Sort::Container);
        lemma_count_if_none(53, |j: int| !is_exception(res[j].op) && res[j].sort == Sort::Unknown);
        lemma_division_positions_3x3();
    }
    make_divisions_origin(&mut prog);
    proof {
        let inj = prog.instructions@;
        assert(no_division_used(inj)) by {
            assert forall|v: int, q: int| 0 <= v < inj.len() && 0 <= q < inj[v].operands@.len() implies !(inj[#[trigger] inj[v].operands@[q] as int].op is Div) by {
                assert(res[v].operands@[q] == built[v].operands@[q]);
            }
        }
        lemma_unused_divisions_fold_nothing(inj);
    }
    let folded = fold_origin(&mut prog);
    SolverReport { total, counts, checks, unresolved, folded }
}

/// Analyze both systems: the checks sit at the divisions by the
/// determinant, nowhere else.
pub fn benchmark_report() -> (r: CramerReport)
    ensures
        r.two_by_two.total == 17,
        r.two_by_two.counts.contents == 15 && r.two_by_two.counts.container == 0 && r.two_by_two.counts.origin == 0,
        r.two_by_two.counts.unknown == 2 && r.two_by_two.counts.total == 17,
        r.two_by_two.checks == 2 && r.two_by_two.unresolved == 0 && r.two_by_two.folded == 0,
        r.three_by_three.total == 53,
        r.three_by_three.counts.contents == 50 && r.three_by_three.counts.container == 0 && r.three_by_three.counts.origin == 0,
        r.three_by_three.counts.unknown == 3 && r.three_by_three.counts.total == 53,
        r.three_by_three.checks == 3 && r.three_by_three.unresolved == 0 && r.three_by_three.folded == 0,
{
    let two_by_two = analyze_2_by_2();
    let three_by_three = analyze_3_by_3();
    CramerReport { two_by_two, three_by_three }
}

} // verus!
