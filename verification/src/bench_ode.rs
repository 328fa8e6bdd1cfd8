//! Benchmark: ODE integrator (projectile simulation).
//!
//! A 20-step projectile simulation with a bad sensor reading at step 5.
//! Once origin enters at step 5, the rest of the run is predetermined: every
//! later operation folds.
//!
//! Constants are recorded by the bit pattern of their IEEE-754 binary64
//! value.
use vstd::prelude::*;
use crate::builder::{is_named_input, lemma_prefix_same, binary, constant, contents_input, is_constant, is_contents_input, is_node, unary};
use crate::count::{count_if, lemma_count_all_but_one, lemma_count_if_append, lemma_count_if_ext, lemma_count_if_none};
use crate::ir::{arith_value, count_exception_ops, exception_count, is_exception, ssa_ordered, well_formed, Instruction, Op, Program, SortCounts, Sort};
use crate::pass_fold::{law_closed_program_folds_nothing, origin_closed, uses};
use crate::pass_resolve::{fixpoint_sorts, law_one_pass_suffices, resolve_to_fixpoint, set_sorts, sorts_of, with_sorts};
use crate::pass_fold::{fold_origin, fold_sorts};
use crate::ir::count_sort;
use crate::pass_resolve::{
    law_pass_is_unique_local_solution, lemma_static_sort_of_contents, lemma_static_sort_of_origin,
    lemma_static_sort_of_unknown, local_sort, resolve_pass,
};

verus! {

/// 0.1, the time step.
pub const DT_BITS: u64 = 0x3fb9_9999_9999_999a;

/// -9.81, gravity.
pub const GRAVITY_BITS: u64 = 0xc023_9eb8_51eb_851f;

/// -0.01, the drag coefficient.
pub const DRAG_BITS: u64 = 0xbf84_7ae1_47ae_147b;

/// 0.0, the bad sensor's speed reading.
pub const ZERO_BITS: u64 = 0;

/// The number of instructions one integration step adds.
pub const STEP_LEN: usize = 18;

/// The result of the quiet run.
pub struct OdeResult {
    /// Steps from the bad reading to the end of the run.
    pub nan_steps: usize,
    /// Operations that are origin after resolution and folding.
    pub origin_ops: usize,
}

/// One integration step built at position `b` from state `(x, y, vx, vy)`:
/// speed = sqrt(vx*vx + vy*vy) (or the constant 0 for the bad reading),
/// drag = drag_coeff * v / speed, ay = gravity + drag_y, the velocity update
/// v += a*dt and the position update p += v*dt.
pub open spec fn ode_step_at(
    insts: Seq<Instruction<u64>>,
    b: int,
    x: usize,
    y: usize,
    vx: usize,
    vy: usize,
    dt: usize,
    g: usize,
    bad: bool,
) -> bool {
    let u = |k: int| (b + k) as usize;
    &&& is_node(insts, b, Op::Mul, seq![vx, vx])
    &&& is_node(insts, b + 1, Op::Mul, seq![vy, vy])
    &&& is_node(insts, b + 2, Op::Add, seq![u(0), u(1)])
    &&& if bad {
        is_constant(insts, b + 3, ZERO_BITS)
    } else {
        is_node(insts, b + 3, Op::Sqrt, seq![u(2)])
    }
    &&& is_constant(insts, b + 4, DRAG_BITS)
    &&& is_node(insts, b + 5, Op::Mul, seq![u(4), vx])
    &&& is_node(insts, b + 6, Op::Div, seq![u(5), u(3)])
    &&& is_node(insts, b + 7, Op::Mul, seq![u(4), vy])
    &&& is_node(insts, b + 8, Op::Div, seq![u(7), u(3)])
    &&& is_node(insts, b + 9, Op::Add, seq![g, u(8)])
    &&& is_node(insts, b + 10, Op::Mul, seq![u(6), dt])
    &&& is_node(insts, b + 11, Op::Mul, seq![u(9), dt])
    &&& is_node(insts, b + 12, Op::Add, seq![vx, u(10)])
    &&& is_node(insts, b + 13, Op::Add, seq![vy, u(11)])
    &&& is_node(insts, b + 14, Op::Mul, seq![u(12), dt])
    &&& is_node(insts, b + 15, Op::Mul, seq![u(13), dt])
    &&& is_node(insts, b + 16, Op::Add, seq![x, u(14)])
    &&& is_node(insts, b + 17, Op::Add, seq![y, u(15)])
}

/// A step is the integrator it documents. Over the integers, with every
/// input, constant, square root and division taking the value `env` gives
/// it, and `ev` the value of an instruction:
/// - the speed is the square root of `vx*vx + vy*vy` (the constant 0 for the
///   bad reading);
/// - the drags `drag_x`, `drag_y` divide `drag_coeff * vx` and
///   `drag_coeff * vy` by the speed;
/// - the velocity update is `vx + drag_x*dt`, `vy + (gravity + drag_y)*dt`;
/// - the position update is `x + vx'*dt`, `y + vy'*dt` with the updated
///   velocity.
pub proof fn law_step_is_euler(
    insts: Seq<Instruction<u64>>,
    b: int,
    x: usize,
    y: usize,
    vx: usize,
    vy: usize,
    dt: usize,
    g: usize,
    bad: bool,
    env: spec_fn(int) -> int,
)
    requires
        0 <= b,
        b + 18 <= insts.len() <= usize::MAX,
        x < b && y < b && vx < b && vy < b && dt < b && g < b,
        ode_step_at(insts, b, x, y, vx, vy, dt, g, bad),
    ensures
        ({
            let ev = |i: int| arith_value(insts, env, i);
            let (speed, coeff, drag_x, drag_y) = (b + 3, b + 4, b + 6, b + 8);
            &&& insts[coeff].op == Op::Constant(DRAG_BITS)
            &&& bad ==> insts[speed].op == Op::Constant(ZERO_BITS)
            &&& !bad ==> insts[speed].op is Sqrt && ev(insts[speed].operands@[0] as int) == ev(vx as int) * ev(vx as int) + ev(
                vy as int,
            ) * ev(vy as int)
            &&& insts[drag_x].op is Div && insts[drag_x].operands@[1] == speed
            &&& ev(insts[drag_x].operands@[0] as int) == ev(coeff) * ev(vx as int)
            &&& insts[drag_y].op is Div && insts[drag_y].operands@[1] == speed
            &&& ev(insts[drag_y].operands@[0] as int) == ev(coeff) * ev(vy as int)
            &&& ev(b + 12) == ev(vx as int) + ev(drag_x) * ev(dt as int)
            &&& ev(b + 13) == ev(vy as int) + (ev(g as int) + ev(drag_y)) * ev(dt as int)
            &&& ev(b + 16) == ev(x as int) + ev(b + 12) * ev(dt as int)
            &&& ev(b + 17) == ev(y as int) + ev(b + 13) * ev(dt as int)
        }),
{
    let ev = |i: int| arith_value(insts, env, i);
    assert(ev(b + 0) == ev(vx as int) * ev(vx as int));
    assert(ev(b + 1) == ev(vy as int) * ev(vy as int));
    assert(ev(b + 2) == ev(vx as int) * ev(vx as int) + ev(vy as int) * ev(vy as int));
    assert(ev(b + 5) == ev(b + 4) * ev(vx as int));
    assert(ev(b + 7) == ev(b + 4) * ev(vy as int));
    assert(ev(b + 9) == ev(g as int) + ev(b + 8));
    assert(ev(b + 10) == ev(b + 6) * ev(dt as int));
    assert(ev(b + 11) == ev(b + 9) * ev(dt as int));
    assert(ev(b + 12) == ev(vx as int) + ev(b + 6) * ev(dt as int));
    assert(ev(b + 13) == ev(vy as int) + (ev(g as int) + ev(b + 8)) * ev(dt as int));
    assert(ev(b + 14) == ev(b + 12) * ev(dt as int));
    assert(ev(b + 15) == ev(b + 13) * ev(dt as int));
}

/// Build one step of the projectile integrator. Returns the ids of the new
/// (x, y, vx, vy).
///
/// The bad sensor reading makes speed = 0, so drag = velocity / 0.
pub fn build_step(
    prog: &mut Program<u64>,
    x: usize,
    y: usize,
    vx: usize,
    vy: usize,
    dt: usize,
    gravity: usize,
    step: usize,
    bad_step: Option<usize>,
) -> (next: (usize, usize, usize, usize))
    requires
        old(prog).wf(),
        ssa_ordered(old(prog).instructions@),
        x < old(prog).instructions@.len(),
        y < old(prog).instructions@.len(),
        vx < old(prog).instructions@.len(),
        vy < old(prog).instructions@.len(),
        dt < old(prog).instructions@.len(),
        gravity < old(prog).instructions@.len(),
        old(prog).instructions@.len() + STEP_LEN <= usize::MAX,
    ensures
        final(prog).wf(),
        ssa_ordered(final(prog).instructions@),
        final(prog).instructions@.len() == old(prog).instructions@.len() + STEP_LEN,
        final(prog).instructions@.subrange(0, old(prog).instructions@.len() as int) == old(prog).instructions@,
        ode_step_at(
            final(prog).instructions@,
            old(prog).instructions@.len() as int,
            x,
            y,
            vx,
            vy,
            dt,
            gravity,
            bad_step == Some(step),
        ),
        next == (
            (old(prog).instructions@.len() + 16) as usize,
            (old(prog).instructions@.len() + 17) as usize,
            (old(prog).instructions@.len() + 12) as usize,
            (old(prog).instructions@.len() + 13) as usize,
        ),
{
    let vx_sq = binary(prog, Op::Mul, vx, vx);
    let vy_sq = binary(prog, Op::Mul, vy, vy);
    let speed_sq = binary(prog, Op::Add, vx_sq, vy_sq);
    let is_bad = match bad_step {
        Some(b) => b == step,
        None => false,
    };
    let speed = if is_bad {
        constant(prog, ZERO_BITS)
    } else {
        unary(prog, Op::Sqrt, speed_sq)
    };
    let drag_coeff = constant(prog, DRAG_BITS);
    let drag_vx_num = binary(prog, Op::Mul, drag_coeff, vx);
    let drag_x = binary(prog, Op::Div, drag_vx_num, speed);
    let drag_vy_num = binary(prog, Op::Mul, drag_coeff, vy);
    let drag_y = binary(prog, Op::Div, drag_vy_num, speed);
    let ay = binary(prog, Op::Add, gravity, drag_y);
    let dvx = binary(prog, Op::Mul, drag_x, dt);
    let dvy = binary(prog, Op::Mul, ay, dt);
    let new_vx = binary(prog, Op::Add, vx, dvx);
    let new_vy = binary(prog, Op::Add, vy, dvy);
    let dx = binary(prog, Op::Mul, new_vx, dt);
    let dy = binary(prog, Op::Mul, new_vy, dt);
    let new_x = binary(prog, Op::Add, x, dx);
    let new_y = binary(prog, Op::Add, y, dy);
    (new_x, new_y, new_vx, new_vy)
}

/// The ids of (x, y, vx, vy) entering step `s`.
pub open spec fn ode_state(s: int) -> (usize, usize, usize, usize) {
    if s == 0 {
        (0, 1, 2, 3)
    } else {
        let b = 6 + 18 * (s - 1);
        ((b + 16) as usize, (b + 17) as usize, (b + 12) as usize, (b + 13) as usize)
    }
}

/// Step `s` of the simulation, at position `6 + 18 * s`.
pub open spec fn ode_step(insts: Seq<Instruction<u64>>, s: int, bad: int) -> bool {
    let (x, y, vx, vy) = ode_state(s);
    ode_step_at(insts, 6 + 18 * s, x, y, vx, vy, 4, 5, s == bad)
}

/// The initial conditions: contents inputs x0, y0, vx0, vy0 and the
/// constants dt and gravity.
pub open spec fn ode_header(insts: Seq<Instruction<u64>>) -> bool {
    &&& is_named_input(insts, 0, "x0"@)
    &&& is_named_input(insts, 1, "y0"@)
    &&& is_named_input(insts, 2, "vx0"@)
    &&& is_named_input(insts, 3, "vy0"@)
    &&& is_constant(insts, 4, DT_BITS)
    &&& is_constant(insts, 5, GRAVITY_BITS)
}

/// The whole simulation: the initial conditions and `num_steps` steps, the
/// step numbered `bad` reading speed 0.
pub open spec fn ode_program(insts: Seq<Instruction<u64>>, num_steps: int, bad: int) -> bool {
    &&& insts.len() == 6 + 18 * num_steps
    &&& ode_header(insts)
    &&& forall|s: int| 0 <= s < num_steps ==> #[trigger] ode_step(insts, s, bad)
}

/// Build the initial conditions and `num_steps` steps of the simulation.
/// Returns the position at which each step starts.
fn build_projectile(prog: &mut Program<u64>, num_steps: usize, bad_step: usize) -> (step_starts: Vec<usize>)
    requires
        old(prog).instructions@.len() == 0,
        num_steps <= 1000,
    ensures
        final(prog).wf(),
        ssa_ordered(final(prog).instructions@),
        ode_program(final(prog).instructions@, num_steps as int, bad_step as int),
        step_starts@.len() == num_steps,
        forall|s: int| 0 <= s < num_steps ==> #[trigger] step_starts@[s] == 6 + 18 * s,
{
    let x0 = contents_input(prog, "x0");
    let ghost h1 = prog.instructions@;
    let y0 = contents_input(prog, "y0");
    let ghost h2 = prog.instructions@;
    let vx0 = contents_input(prog, "vx0");
    let ghost h3 = prog.instructions@;
    let vy0 = contents_input(prog, "vy0");
    let ghost h4 = prog.instructions@;
    let dt = constant(prog, DT_BITS);
    let ghost h5 = prog.instructions@;
    let gravity = constant(prog, GRAVITY_BITS);
    proof {
        let h6 = prog.instructions@;
        lemma_prefix_same(h5, h6);
        lemma_prefix_same(h4, h5);
        lemma_prefix_same(h3, h4);
        lemma_prefix_same(h2, h3);
        lemma_prefix_same(h1, h2);
    }
    let mut x = x0;
    let mut y = y0;
    let mut vx = vx0;
    let mut vy = vy0;
    let mut step_starts: Vec<usize> = Vec::new();
    let mut step: usize = 0;
    while step < num_steps
        invariant
            num_steps <= 1000,
            step <= num_steps,
            prog.wf(),
            ssa_ordered(prog.instructions@),
            prog.instructions@.len() == 6 + 18 * step,
            ode_header(prog.instructions@),
            forall|s: int| 0 <= s < step ==> #[trigger] ode_step(prog.instructions@, s, bad_step as int),
            (x, y, vx, vy) == ode_state(step as int),
            dt == 4,
            gravity == 5,
            step_starts@.len() == step,
            forall|s: int| 0 <= s < step ==> #[trigger] step_starts@[s] == 6 + 18 * s,
        decreases num_steps - step,
    {
        let ghost before = prog.instructions@;
        step_starts.push(prog.instructions.len());
        let next = build_step(prog, x, y, vx, vy, dt, gravity, step, Some(bad_step));
        proof {
            lemma_prefix_same(before, prog.instructions@);
            assert forall|s: int| 0 <= s < step + 1 implies #[trigger] ode_step(prog.instructions@, s, bad_step as int) by {
                if s < step {
                    assert(ode_step(before, s, bad_step as int));
                }
            }
            assert(ode_header(before));
        }
        x = next.0;
        y = next.1;
        vx = next.2;
        vy = next.3;
        step = step + 1;
    }
    step_starts
}

/// The position of offset `k` of step `s`.
pub open spec fn pos(s: int, k: int) -> int {
    6 + 18 * s + k
}

proof fn lemma_pos(s: int, k: int)
    requires
        0 <= s,
        0 <= k < 18,
    ensures
        (pos(s, k) - 6) / 18 == s,
        (pos(s, k) - 6) % 18 == k,
{
    vstd::arithmetic::div_mod::lemma_fundamental_div_mod_converse(pos(s, k) - 6, 18, s, k);
}

proof fn lemma_step_positions(s: int)
    requires
        0 <= s,
    ensures
        forall|k: int| 0 <= k < 18 ==> (#[trigger] pos(s, k) - 6) / 18 == s && (pos(s, k) - 6) % 18 == k,
        s > 0 ==> forall|k: int| 0 <= k < 18 ==> (#[trigger] pos(s - 1, k) - 6) / 18 == s - 1 && (pos(s - 1, k) - 6) % 18 == k,
{
    assert forall|k: int| 0 <= k < 18 implies (#[trigger] pos(s, k) - 6) / 18 == s && (pos(s, k) - 6) % 18 == k by {
        lemma_pos(s, k);
    }
    if s > 0 {
        assert forall|k: int| 0 <= k < 18 implies (#[trigger] pos(s - 1, k) - 6) / 18 == s - 1 && (pos(s - 1, k) - 6) % 18 == k by {
            lemma_pos(s - 1, k);
        }
    }
}

/// The sort of offset `k` of step `s` after the first resolution: the drag
/// coefficient, the bad reading and, in step 0, the operations on the
/// initial velocity are contents; everything that waits on a square root or
/// a division is unknown.
pub open spec fn first_sort(s: int, k: int, bad: int) -> Sort {
    if k == 4 || (s == 0 && (k == 0 || k == 1 || k == 2 || k == 5 || k == 7)) || (s == bad && k == 3) {
        Sort::Contents
    } else {
        Sort::Unknown
    }
}

/// The sorts of the whole simulation after the first resolution.
pub open spec fn first_sorts(n: int, bad: int) -> Seq<Sort> {
    Seq::new(n as nat, |j: int| if j < 6 { Sort::Contents } else { first_sort((j - 6) / 18, (j - 6) % 18, bad) })
}

proof fn lemma_first_pass(insts: Seq<Instruction<u64>>, num_steps: int, bad: int)
    requires
        well_formed(insts),
        ssa_ordered(insts),
        ode_program(insts, num_steps, bad),
        num_steps >= 0,
        bad > 0,
    ensures
        resolve_pass(insts) == first_sorts(insts.len() as int, bad),
{
    let t = first_sorts(insts.len() as int, bad);
    assert forall|j: int| 0 <= j < insts.len() implies #[trigger] t[j] == local_sort(insts, t, j) by {
        if j < 6 {
            if j < 4 {
                assert(is_contents_input(insts, j));
            }
        } else {
            let s = (j - 6) / 18;
            let k = (j - 6) % 18;
            assert(j == pos(s, k));
            assert(0 <= s < num_steps);
            assert(ode_step(insts, s, bad));
            lemma_step_positions(s);
            let ops = insts[j].operands@;
            let op = insts[j].op;
            if t[j] == Sort::Contents {
                if k != 4 && k != 3 {
                    lemma_static_sort_of_contents(op, ops, t);
                }
            } else {
                assert(forall|i: int| 0 <= i < t.len() ==> t[i] != Sort::Origin);
                if k == 0 || k == 1 || k == 5 || k == 7 || k == 12 || k == 13 {
                    lemma_static_sort_of_unknown(op, ops, t, if k == 5 || k == 7 || s == 0 { 1 } else { 0 });
                } else if k == 3 || k == 10 || k == 11 || k == 14 || k == 15 || k == 16 || k == 17 {
                    if k == 3 && s == 0 {
                        lemma_static_sort_of_contents(op, ops, t);
                    } else if k == 16 || k == 17 {
                        lemma_static_sort_of_unknown(op, ops, t, 1);
                    } else {
                        lemma_static_sort_of_unknown(op, ops, t, 0);
                    }
                } else if k == 2 {
                    lemma_static_sort_of_unknown(op, ops, t, 0);
                } else if k == 6 || k == 8 {
                    if s == 0 {
                        lemma_static_sort_of_unknown(op, ops, t, 1);
                    } else {
                        lemma_static_sort_of_unknown(op, ops, t, 0);
                    }
                } else {
                    lemma_static_sort_of_unknown(op, ops, t, 1);
                }
            }
        }
    }
    law_pass_is_unique_local_solution(insts, t);
}

/// The sort of offset `k` of step `s` once the runtime checks have fired:
/// the steps before the bad reading are contents, the two divisions of the
/// bad step are origin, the rest is as the first resolution left it.
pub open spec fn runtime_sort(s: int, k: int, bad: int) -> Sort {
    if s < bad {
        Sort::Contents
    } else if s == bad && (k == 6 || k == 8) {
        Sort::Origin
    } else {
        first_sort(s, k, bad)
    }
}

/// The sorts of the whole simulation once the runtime checks have fired.
pub open spec fn runtime_sorts(n: int, bad: int) -> Seq<Sort> {
    Seq::new(n as nat, |j: int| if j < 6 { Sort::Contents } else { runtime_sort((j - 6) / 18, (j - 6) % 18, bad) })
}

/// The sort of offset `k` of step `s` after the second resolution: origin
/// from the divisions of the bad step on, except the drag constants and
/// what the bad step computes before its divisions.
pub open spec fn final_sort(s: int, k: int, bad: int) -> Sort {
    if s < bad {
        Sort::Contents
    } else if s == bad {
        if k == 6 || k >= 8 {
            Sort::Origin
        } else {
            Sort::Contents
        }
    } else if k == 4 {
        Sort::Contents
    } else {
        Sort::Origin
    }
}

/// The sorts of the whole simulation after the second resolution.
pub open spec fn final_sorts(n: int, bad: int) -> Seq<Sort> {
    Seq::new(n as nat, |j: int| if j < 6 { Sort::Contents } else { final_sort((j - 6) / 18, (j - 6) % 18, bad) })
}

proof fn lemma_second_pass(insts: Seq<Instruction<u64>>, insts2: Seq<Instruction<u64>>, num_steps: int, bad: int)
    requires
        well_formed(insts),
        ssa_ordered(insts),
        ode_program(insts, num_steps, bad),
        0 < bad < num_steps,
        with_sorts(insts, insts2, runtime_sorts(insts.len() as int, bad)),
    ensures
        resolve_pass(insts2) == final_sorts(insts.len() as int, bad),
        origin_closed(set_sorts(insts2, final_sorts(insts.len() as int, bad))),
{
    let n = insts.len() as int;
    let t = final_sorts(n, bad);
    crate::pass_resolve::lemma_with_sorts_shape(insts, insts2, runtime_sorts(n, bad));
    assert forall|j: int| 0 <= j < n implies #[trigger] t[j] == local_sort(insts2, t, j) && (t[j] == Sort::Contents
        ==> forall|q: int| 0 <= q < insts2[j].operands@.len() ==> t[#[trigger] insts2[j].operands@[q] as int] == Sort::Contents) by {
        if j >= 6 {
            let s = (j - 6) / 18;
            let k = (j - 6) % 18;
            assert(j == pos(s, k));
            assert(0 <= s < num_steps);
            assert(ode_step(insts, s, bad));
            lemma_step_positions(s);
            let ops = insts2[j].operands@;
            let op = insts2[j].op;
            assert(ops == insts[j].operands@);
            if s > bad {
                if k == 5 || k == 7 || k == 9 {
                    lemma_static_sort_of_origin(op, ops, t, 1);
                } else if k != 4 {
                    lemma_static_sort_of_origin(op, ops, t, 0);
                }
            } else if s == bad {
                if k == 0 || k == 1 || k == 2 || k == 5 || k == 7 {
                    lemma_static_sort_of_contents(op, ops, t);
                } else if k == 9 || k == 12 || k == 13 || k == 16 || k == 17 {
                    lemma_static_sort_of_origin(op, ops, t, 1);
                } else if k == 10 || k == 11 || k == 14 || k == 15 {
                    lemma_static_sort_of_origin(op, ops, t, 0);
                }
            }
        } else if j < 4 {
            assert(is_contents_input(insts, j));
        }
    }
    law_pass_is_unique_local_solution(insts2, t);
    let f = set_sorts(insts2, t);
    assert forall|u: int, v: int| 0 <= u < f.len() && f[u].sort == Sort::Origin && #[trigger] uses(f, v, u)
        implies f[v].sort == Sort::Origin by {
        let q = choose|q: int| 0 <= q < f[v].operands@.len() && f[v].operands@[q] == u as usize;
        if t[v] == Sort::Contents {
            assert(t[insts2[v].operands@[q] as int] == Sort::Contents);
        }
    }
}

/// Instruction `j` is origin after the second resolution.
pub open spec fn ends_origin(j: int, bad: int) -> bool {
    j >= 6 && final_sort((j - 6) / 18, (j - 6) % 18, bad) == Sort::Origin
}

proof fn lemma_final_count(bad: int, m: int)
    requires
        0 < bad,
        0 <= m,
    ensures
        count_if(pos(m, 0), |j: int| ends_origin(j, bad)) == if m <= bad { 0 } else { 11 + 17 * (m - bad - 1) },
    decreases m,
{
    let f = |j: int| ends_origin(j, bad);
    if m == 0 {
        lemma_count_if_none(6, f);
    } else {
        lemma_final_count(bad, m - 1);
        lemma_count_if_append(pos(m - 1, 0), 18, f);
        let g = |k: int| f(pos(m - 1, 0) + k);
        lemma_step_positions(m - 1);
        assert forall|k: int| 0 <= k < 18 implies #[trigger] g(k) == (final_sort(m - 1, k, bad) == Sort::Origin) by {
            assert(pos(m - 1, 0) + k == pos(m - 1, k));
        }
        if m - 1 < bad {
            lemma_count_if_none(18, g);
        } else if m - 1 == bad {
            let h = |k: int| k == 6 || k >= 8;
            lemma_count_if_ext(18, g, h);
            reveal_with_fuel(count_if, 19);
        } else {
            lemma_count_all_but_one(g, 4);
        }
    }
}

/// Mark the unknown sorts of steps `0..bad_step` contents: the runtime
/// checks of the clean steps pass.
fn pass_clean_steps(prog: &mut Program<u64>, step_starts: &Vec<usize>, bad_step: usize, Ghost(base): Ghost<Seq<Instruction<u64>>>, Ghost(first): Ghost<Seq<Sort>>)
    requires
        with_sorts(base, old(prog).instructions@, first),
        step_starts@.len() > bad_step,
        forall|s: int| 0 <= s < step_starts@.len() ==> #[trigger] step_starts@[s] == 6 + 18 * s,
        6 + 18 * bad_step <= base.len(),
    ensures
        with_sorts(
            base,
            final(prog).instructions@,
            Seq::new(base.len(), |j: int| if 6 <= j < 6 + 18 * bad_step && first[j] == Sort::Unknown { Sort::Contents } else { first[j] }),
        ),
{
    let mut step: usize = 0;
    while step < bad_step
        invariant
            step <= bad_step,
            step_starts@.len() > bad_step,
            forall|s: int| 0 <= s < step_starts@.len() ==> #[trigger] step_starts@[s] == 6 + 18 * s,
            6 + 18 * bad_step <= base.len(),
            with_sorts(base, prog.instructions@, Seq::new(base.len(), |j: int| if 6 <= j < 6 + 18 * step && first[j] == Sort::Unknown { Sort::Contents } else { first[j] })),
        decreases bad_step - step,
    {
        let start = step_starts[step];
        let end = step_starts[step + 1];
        let mut i = start;
        while i < end
            invariant
                start == 6 + 18 * step,
                end == start + 18,
                start <= i <= end,
                step < bad_step,
                6 + 18 * bad_step <= base.len(),
                with_sorts(base, prog.instructions@, Seq::new(base.len(), |j: int| if 6 <= j < i && first[j] == Sort::Unknown { Sort::Contents } else { first[j] })),
            decreases end - i,
        {
            if prog.instructions[i].sort == Sort::Unknown {
                prog.instructions[i].sort = Sort::Contents;
            }
            i = i + 1;
        }
        step = step + 1;
    }
}

/// Make the divisions of the bad step origin: its runtime checks divide by
/// a speed of zero.
fn fail_bad_step(prog: &mut Program<u64>, bad_start: usize, bad_end: usize, Ghost(base): Ghost<Seq<Instruction<u64>>>, Ghost(before): Ghost<Seq<Sort>>)
    requires
        with_sorts(base, old(prog).instructions@, before),
        bad_start <= bad_end <= base.len(),
    ensures
        with_sorts(
            base,
            final(prog).instructions@,
            Seq::new(base.len(), |j: int| if bad_start <= j < bad_end && base[j].op is Div { Sort::Origin } else { before[j] }),
        ),
{
    let mut i = bad_start;
    while i < bad_end
        invariant
            bad_start <= i <= bad_end <= base.len(),
            with_sorts(base, prog.instructions@, Seq::new(base.len(), |j: int| if bad_start <= j < i && base[j].op is Div { Sort::Origin } else { before[j] })),
        decreases bad_end - i,
    {
        if matches!(prog.instructions[i].op, Op::Div) {
            prog.instructions[i].sort = Sort::Origin;
        }
        i = i + 1;
    }
}

/// The runtime checks fire on the resolved 20-step run with the bad reading
/// at step 5: the checks of the clean steps pass and those of the bad step
/// produce origin; resolution and folding then propagate it. Returns what
/// folding folded: nothing, for resolution has already made everything
/// downstream origin.
fn simulate_bad_reading(prog: &mut Program<u64>, step_starts: &Vec<usize>, Ghost(built): Ghost<Seq<Instruction<u64>>>) -> (folded: usize)
    requires
        well_formed(built),
        ssa_ordered(built),
        ode_program(built, 20, 5),
        with_sorts(built, old(prog).instructions@, first_sorts(366, 5)),
        step_starts@.len() == 20,
        forall|s: int| 0 <= s < 20 ==> #[trigger] step_starts@[s] == 6 + 18 * s,
    ensures
        with_sorts(built, final(prog).instructions@, final_sorts(366, 5)),
        folded == 0,
{
    let num_steps: usize = 20;
    let bad_step: usize = 5;
    let total_ops = prog.instructions.len();
    let ghost first = first_sorts(366, 5);
    pass_clean_steps(prog, step_starts, bad_step, Ghost(built), Ghost(first));
    let bad_start = step_starts[bad_step];
    let bad_end = if bad_step + 1 < num_steps {
        step_starts[bad_step + 1]
    } else {
        total_ops
    };
    let ghost cleaned = Seq::new(366, |j: int| if 6 <= j < 6 + 18 * 5 && first[j] == Sort::Unknown { Sort::Contents } else { first[j] });
    fail_bad_step(prog, bad_start, bad_end, Ghost(built), Ghost(cleaned));
    let ghost insts2 = prog.instructions@;
    proof {
        let rt = runtime_sorts(366, 5);
        assert forall|j: int| 0 <= j < 366 implies #[trigger] insts2[j].sort == rt[j] by {
            if j >= 6 {
                let s = (j - 6) / 18;
                let k = (j - 6) % 18;
                assert(j == pos(s, k));
                assert(ode_step(built, s, 5));
                lemma_step_positions(s);
            }
        }
        assert(with_sorts(built, insts2, rt));
        lemma_second_pass(built, insts2, 20, 5);
        crate::pass_resolve::lemma_with_sorts_shape(built, insts2, rt);
        law_one_pass_suffices(insts2);
    }
    resolve_to_fixpoint(prog);
    let ghost insts3 = prog.instructions@;
    proof {
        crate::pass_resolve::lemma_with_sorts_shape(insts2, insts3, final_sorts(366, 5));
        assert(insts3 =~= set_sorts(insts2, final_sorts(366, 5)));
        law_closed_program_folds_nothing(insts3);
    }
    let folded = fold_origin(prog);
    proof {
        let fin = prog.instructions@;
        assert forall|j: int| 0 <= j < 366 implies #[trigger] fin[j].sort == final_sorts(366, 5)[j] by {
            assert(fold_sorts(insts3)[j] == sorts_of(insts3)[j]);
        }
    }
    folded
}

/// Build the 20-step run with the bad reading at step 5 and resolve it.
/// Returns where each step starts.
fn build_and_resolve(prog: &mut Program<u64>) -> (step_starts: Vec<usize>)
    requires
        old(prog).instructions@.len() == 0,
    ensures
        exists|built: Seq<Instruction<u64>>|
            well_formed(built) && ssa_ordered(built) && ode_program(built, 20, 5) && with_sorts(
                built,
                final(prog).instructions@,
                first_sorts(366, 5),
            ),
        step_starts@.len() == 20,
        forall|s: int| 0 <= s < 20 ==> #[trigger] step_starts@[s] == 6 + 18 * s,
{
    let step_starts = build_projectile(prog, 20, 5);
    let ghost built = prog.instructions@;
    proof {
        lemma_first_pass(built, 20, 5);
        law_one_pass_suffices(built);
    }
    resolve_to_fixpoint(prog);
    step_starts
}

/// Simulate the 20-step run with the bad reading at step 5: resolve, let
/// the runtime checks of the clean steps pass and those of the bad step
/// produce origin, resolve again and fold. Origin then covers 249
/// operations: 11 in the bad step and 17 in each of the 14 later steps.
pub fn run_benchmark_quiet() -> (r: OdeResult)
    ensures
        r.nan_steps == 15,
        r.origin_ops == 249,
{
    let num_steps: usize = 20;
    let bad_step: usize = 5;
    let mut prog: Program<u64> = Program::new();
    let step_starts = build_and_resolve(&mut prog);
    let ghost built = choose|built: Seq<Instruction<u64>>|
        well_formed(built) && ssa_ordered(built) && ode_program(built, 20, 5) && with_sorts(built, prog.instructions@, first_sorts(366, 5));
    simulate_bad_reading(&mut prog, &step_starts, Ghost(built));
    let counts = prog.count_by_sort();
    let origin_ops = counts.origin;
    proof {
        let fin = prog.instructions@;
        lemma_count_if_ext(366, |j: int| fin[j].sort == Sort::Origin, |j: int| ends_origin(j, 5));
        lemma_final_count(5, 20);
    }
    OdeResult { nan_steps: num_steps - bad_step, origin_ops }
}

/// Offset `k` of step `s` is an exception: the square root of a good
/// reading and the two drag divisions.
pub open spec fn step_exception(s: int, k: int, bad: int) -> bool {
    (k == 3 && s != bad) || k == 6 || k == 8
}

/// The sort of offset `k` of step `s` after the first resolution, or once
/// the runtime checks have fired.
pub open spec fn step_sort(s: int, k: int, bad: int, runtime: bool) -> Sort {
    if runtime { final_sort(s, k, bad) } else { first_sort(s, k, bad) }
}

/// The contents operations of step `s` after the first resolution.
pub open spec fn first_step_contents(s: int, bad: int) -> nat {
    if s == 0 { 6 } else if s == bad { 2 } else { 1 }
}

/// The contents operations of step `s` after the runtime checks.
pub open spec fn final_step_contents(s: int, bad: int) -> nat {
    if s < bad { 18 } else if s == bad { 7 } else { 1 }
}

/// The origin operations of step `s` after the runtime checks.
pub open spec fn final_step_origin(s: int, bad: int) -> nat {
    if s < bad { 0 } else if s == bad { 11 } else { 17 }
}

proof fn lemma_step_counts(s: int, bad: int)
    requires
        0 <= s,
        0 < bad,
    ensures
        count_if(18, |k: int| step_exception(s, k, bad)) == if s == bad { 2int } else { 3int },
        count_if(18, |k: int| step_sort(s, k, bad, false) == Sort::Contents) == first_step_contents(s, bad),
        count_if(18, |k: int| step_sort(s, k, bad, false) == Sort::Unknown) == 18 - first_step_contents(s, bad),
        count_if(18, |k: int| step_sort(s, k, bad, false) == Sort::Origin) == 0,
        count_if(18, |k: int| step_sort(s, k, bad, false) == Sort::Container) == 0,
        count_if(18, |k: int| step_sort(s, k, bad, true) == Sort::Contents) == final_step_contents(s, bad),
        count_if(18, |k: int| step_sort(s, k, bad, true) == Sort::Origin) == final_step_origin(s, bad),
        count_if(18, |k: int| step_sort(s, k, bad, true) == Sort::Unknown) == 0,
        count_if(18, |k: int| step_sort(s, k, bad, true) == Sort::Container) == 0,
{
    reveal_with_fuel(count_if, 19);
}

/// Where the exceptions of step `s` sit.
proof fn lemma_step_exceptions(insts: Seq<Instruction<u64>>, s: int, bad: int)
    requires
        0 <= s,
        ode_step(insts, s, bad),
    ensures
        forall|k: int| 0 <= k < 18 ==> (is_exception((#[trigger] insts[pos(s, k)]).op) <==> step_exception(s, k, bad)),
{
    assert forall|k: int| 0 <= k < 18 implies (is_exception((#[trigger] insts[pos(s, k)]).op) <==> step_exception(s, k, bad)) by {
        assert(ode_step(insts, s, bad));
    }
}

/// The exceptions of the first `m` steps: three a step, two in the bad one.
proof fn lemma_exception_total(insts: Seq<Instruction<u64>>, num_steps: int, bad: int, m: int)
    requires
        ode_program(insts, num_steps, bad),
        0 < bad,
        0 <= m <= num_steps,
    ensures
        count_if(pos(m, 0), |j: int| is_exception(insts[j].op)) == 3 * m - if m > bad { 1int } else { 0int },
    decreases m,
{
    let f = |j: int| is_exception(insts[j].op);
    if m == 0 {
        assert forall|j: int| 0 <= j < 6 implies !#[trigger] f(j) by {
            if j < 4 {
                assert(is_contents_input(insts, j));
            }
        }
        lemma_count_if_none(6, f);
    } else {
        lemma_exception_total(insts, num_steps, bad, m - 1);
        lemma_count_if_append(pos(m - 1, 0), 18, f);
        assert(ode_step(insts, m - 1, bad));
        lemma_step_exceptions(insts, m - 1, bad);
        lemma_step_counts(m - 1, bad);
        assert forall|k: int| 0 <= k < 18 implies #[trigger] f(pos(m - 1, 0) + k) == step_exception(m - 1, k, bad) by {
            assert(pos(m - 1, 0) + k == pos(m - 1, k));
        }
        lemma_count_if_ext(18, |k: int| f(pos(m - 1, 0) + k), |k: int| step_exception(m - 1, k, bad));
    }
}

/// The positions of step `step` of a run of `num_steps` steps.
fn step_range(step_starts: &Vec<usize>, step: usize, num_steps: usize, total_ops: usize) -> (range: (usize, usize))
    requires
        step < num_steps,
        step_starts@.len() == num_steps,
        num_steps <= 1000,
        total_ops == 6 + 18 * num_steps,
        forall|s: int| 0 <= s < num_steps ==> #[trigger] step_starts@[s] == 6 + 18 * s,
    ensures
        range.0 == 6 + 18 * step,
        range.1 == range.0 + 18,
{
    let start = step_starts[step];
    let end = if step + 1 < num_steps {
        step_starts[step + 1]
    } else {
        total_ops
    };
    (start, end)
}

/// The sort counts of the 18 operations of step `s`, read off its sorts.
proof fn lemma_step_range_counts(insts: Seq<Instruction<u64>>, s: int, counts: SortCounts, runtime: bool)
    requires
        insts.len() == 366,
        0 <= s < 20,
        forall|j: int| 0 <= j < 366 ==> #[trigger] insts[j].sort == (if runtime { final_sorts(366, 5) } else { first_sorts(366, 5) })[j],
        counts.contents == count_if(18, |k: int| insts[pos(s, 0) + k].sort == Sort::Contents),
        counts.container == count_if(18, |k: int| insts[pos(s, 0) + k].sort == Sort::Container),
        counts.origin == count_if(18, |k: int| insts[pos(s, 0) + k].sort == Sort::Origin),
        counts.unknown == count_if(18, |k: int| insts[pos(s, 0) + k].sort == Sort::Unknown),
    ensures
        counts.contents == count_if(18, |k: int| step_sort(s, k, 5, runtime) == Sort::Contents),
        counts.container == count_if(18, |k: int| step_sort(s, k, 5, runtime) == Sort::Container),
        counts.origin == count_if(18, |k: int| step_sort(s, k, 5, runtime) == Sort::Origin),
        counts.unknown == count_if(18, |k: int| step_sort(s, k, 5, runtime) == Sort::Unknown),
{
    lemma_step_positions(s);
    assert forall|k: int| 0 <= k < 18 implies #[trigger] insts[pos(s, 0) + k].sort == step_sort(s, k, 5, runtime) by {
        assert(pos(s, 0) + k == pos(s, k));
        assert(insts[pos(s, k)].sort == (if runtime { final_sorts(366, 5) } else { first_sorts(366, 5) })[pos(s, k)]);
    }
    lemma_count_if_ext(18, |k: int| insts[pos(s, 0) + k].sort == Sort::Contents, |k: int| step_sort(s, k, 5, runtime) == Sort::Contents);
    lemma_count_if_ext(18, |k: int| insts[pos(s, 0) + k].sort == Sort::Container, |k: int| step_sort(s, k, 5, runtime) == Sort::Container);
    lemma_count_if_ext(18, |k: int| insts[pos(s, 0) + k].sort == Sort::Origin, |k: int| step_sort(s, k, 5, runtime) == Sort::Origin);
    lemma_count_if_ext(18, |k: int| insts[pos(s, 0) + k].sort == Sort::Unknown, |k: int| step_sort(s, k, 5, runtime) == Sort::Unknown);
}

/// The unknown operations of the first `m` steps after the first
/// resolution.
proof fn lemma_first_unknown_count(n: int, bad: int, m: int)
    requires
        0 < bad,
        0 <= m,
        pos(m, 0) <= n,
    ensures
        count_if(pos(m, 0), |j: int| first_sorts(n, bad)[j] == Sort::Unknown) == if m == 0 { 0int } else { 17 * m - 5
            - if m > bad { 1int } else { 0int } },
    decreases m,
{
    let f = |j: int| first_sorts(n, bad)[j] == Sort::Unknown;
    if m == 0 {
        lemma_count_if_none(6, f);
    } else {
        lemma_first_unknown_count(n, bad, m - 1);
        lemma_count_if_append(pos(m - 1, 0), 18, f);
        lemma_step_positions(m - 1);
        lemma_step_counts(m - 1, bad);
        assert forall|k: int| 0 <= k < 18 implies #[trigger] f(pos(m - 1, 0) + k) == (step_sort(m - 1, k, bad, false) == Sort::Unknown) by {
            assert(pos(m - 1, 0) + k == pos(m - 1, k));
        }
        lemma_count_if_ext(18, |k: int| f(pos(m - 1, 0) + k), |k: int| step_sort(m - 1, k, bad, false) == Sort::Unknown);
    }
}

/// The sort counts of one step: `contents`, `origin` and `unknown` among its
/// 18 operations, none container.
pub open spec fn step_counts_are(c: SortCounts, contents: int, origin: int, unknown: int) -> bool {
    c.contents == contents && c.container == 0 && c.origin == origin && c.unknown == unknown && c.total == 18
}

/// What the full analysis of the 20-step run reports.
pub struct OdeReport {
    /// Operations in the run.
    pub total: usize,
    /// Sort counts after static resolution.
    pub counts: SortCounts,
    /// Exception operations: the runtime checks.
    pub exception_ops: usize,
    /// Sort counts of each step after static resolution.
    pub steps: Vec<SortCounts>,
    /// Operations origin folding folds after static resolution.
    pub folded: usize,
    /// Origin operations from the bad step on after that folding.
    pub tainted_ops: usize,
    /// Operations of the steps before the bad reading.
    pub clean_ops: usize,
    /// Sort counts of each step once the runtime checks have fired.
    pub runtime_steps: Vec<SortCounts>,
    /// Operations origin folding folds after the runtime checks.
    pub runtime_folded: usize,
    /// Origin operations once the runtime checks have fired: never executed.
    pub total_origin: usize,
    /// Contents operations of the steps once the runtime checks have fired.
    pub total_contents: usize,
}

/// Analyze the 20-step run with the bad reading at step 5, statically and
/// once the runtime checks fire. Statically, 32 of the 366 operations are
/// contents and 334 unknown, with 59 runtime checks, and nothing folds. At
/// run time the five clean steps are contents; from the bad step's
/// divisions on, origin covers 249 operations, 11 in the bad step and 17 in
/// each later one, and 111 operations of the steps are contents.
pub fn benchmark_report() -> (r: OdeReport)
    ensures
        r.total == 366,
        r.counts.contents == 32 && r.counts.container == 0 && r.counts.origin == 0 && r.counts.unknown == 334,
        r.counts.total == 366,
        r.exception_ops == 59,
        r.steps@.len() == 20,
        forall|s: int| 0 <= s < 20 ==> step_counts_are(#[trigger] r.steps@[s], first_step_contents(s, 5) as int, 0, 18 - first_step_contents(s, 5)),
        r.folded == 0,
        r.tainted_ops == 0,
        r.clean_ops == 90,
        r.runtime_steps@.len() == 20,
        forall|s: int| 0 <= s < 20 ==> step_counts_are(#[trigger] r.runtime_steps@[s], final_step_contents(s, 5) as int, final_step_origin(s, 5) as int, 0),
        r.runtime_folded == 0,
        r.total_origin == 249,
        r.total_contents == 111,
{
    let num_steps: usize = 20;
    let bad_step: usize = 5;
    let mut prog: Program<u64> = Program::new();
    let step_starts = build_and_resolve(&mut prog);
    let ghost built = choose|built: Seq<Instruction<u64>>|
        well_formed(built) && ssa_ordered(built) && ode_program(built, 20, 5) && with_sorts(built, prog.instructions@, first_sorts(366, 5));
    let ghost res = prog.instructions@;
    let total_ops = prog.instructions.len();
    let exception_ops = count_exception_ops(&prog);
    let counts = prog.count_by_sort();
    proof {
        let first = first_sorts(366, 5);
        lemma_count_if_ext(366, |j: int| is_exception(res[j].op), |j: int| is_exception(built[j].op));
        lemma_exception_total(built, 20, 5, 20);
        lemma_first_unknown_count(366, 5, 20);
        lemma_count_if_ext(366, |j: int| res[j].sort == Sort::Unknown, |j: int| first[j] == Sort::Unknown);
        assert forall|j: int| 0 <= j < 366 implies #[trigger] res[j].sort != Sort::Origin && res[j].sort != Sort::Container by {
            assert(res[j].sort == first[j]);
        }
        lemma_count_if_none(366, |j: int| res[j].sort == Sort::Origin);
        lemma_count_if_none(366, |j: int| res[j].sort == Sort::Container);
    }
    let mut steps: Vec<SortCounts> = Vec::new();
    let mut step: usize = 0;
    while step < num_steps
        invariant
            num_steps == 20,
            total_ops == 366,
            step <= num_steps,
            res == prog.instructions@,
            with_sorts(built, res, first_sorts(366, 5)),
            step_starts@.len() == 20,
            forall|s: int| 0 <= s < 20 ==> #[trigger] step_starts@[s] == 6 + 18 * s,
            steps@.len() == step,
            forall|s: int| 0 <= s < step ==> step_counts_are(#[trigger] steps@[s], first_step_contents(s, 5) as int, 0, 18 - first_step_contents(s, 5)),
        decreases num_steps - step,
    {
        let (start, end) = step_range(&step_starts, step, num_steps, total_ops);
        let c = prog.count_by_sort_in(start, end);
        proof {
            lemma_step_positions(step as int);
            lemma_step_counts(step as int, 5);
            lemma_step_range_counts(res, step as int, c, false);
        }
        steps.push(c);
        step = step + 1;
    }
    proof {
        law_closed_program_folds_nothing(res);
    }
    let folded = fold_origin(&mut prog);
    proof {
        assert(prog.instructions@ =~= res);
    }
    let mut tainted_ops: usize = 0;
    let mut step: usize = bad_step;
    while step < num_steps
        invariant
            num_steps == 20,
            total_ops == 366,
            5 <= step <= num_steps,
            res == prog.instructions@,
            with_sorts(built, res, first_sorts(366, 5)),
            step_starts@.len() == 20,
            forall|s: int| 0 <= s < 20 ==> #[trigger] step_starts@[s] == 6 + 18 * s,
            tainted_ops == 0,
        decreases num_steps - step,
    {
        let (start, end) = step_range(&step_starts, step, num_steps, total_ops);
        let c = prog.count_by_sort_in(start, end);
        proof {
            lemma_step_positions(step as int);
            lemma_step_counts(step as int, 5);
            lemma_step_range_counts(res, step as int, c, false);
        }
        tainted_ops = tainted_ops + c.origin;
        step = step + 1;
    }
    let mut clean_ops: usize = 0;
    let mut step: usize = 0;
    while step < bad_step
        invariant
            num_steps == 20,
            bad_step == 5,
            total_ops == 366,
            step <= bad_step,
            step_starts@.len() == 20,
            forall|s: int| 0 <= s < 20 ==> #[trigger] step_starts@[s] == 6 + 18 * s,
            clean_ops == 18 * step,
        decreases bad_step - step,
    {
        let (start, end) = step_range(&step_starts, step, num_steps, total_ops);
        clean_ops = clean_ops + (end - start);
        step = step + 1;
    }
    let runtime_folded = simulate_bad_reading(&mut prog, &step_starts, Ghost(built));
    let ghost fin = prog.instructions@;
    let mut runtime_steps: Vec<SortCounts> = Vec::new();
    let mut total_origin: usize = 0;
    let mut total_contents: usize = 0;
    let mut step: usize = 0;
    while step < num_steps
        invariant
            num_steps == 20,
            total_ops == 366,
            step <= num_steps,
            fin == prog.instructions@,
            with_sorts(built, fin, final_sorts(366, 5)),
            step_starts@.len() == 20,
            forall|s: int| 0 <= s < 20 ==> #[trigger] step_starts@[s] == 6 + 18 * s,
            runtime_steps@.len() == step,
            forall|s: int| 0 <= s < step ==> step_counts_are(#[trigger] runtime_steps@[s], final_step_contents(s, 5) as int, final_step_origin(s, 5) as int, 0),
            total_origin == if step <= 5 { 0int } else { 11 + 17 * (step - 6) },
            total_contents == if step <= 5 { 18 * step } else { 97 + (step - 6) },
        decreases num_steps - step,
    {
        let (start, end) = step_range(&step_starts, step, num_steps, total_ops);
        let c = prog.count_by_sort_in(start, end);
        proof {
            lemma_step_positions(step as int);
            lemma_step_counts(step as int, 5);
            lemma_step_range_counts(fin, step as int, c, true);
        }
        total_origin = total_origin + c.origin;
        total_contents = total_contents + c.contents;
        runtime_steps.push(c);
        step = step + 1;
    }
    OdeReport {
        total: total_ops,
        counts,
        exception_ops,
        steps,
        folded,
        tainted_ops,
        clean_ops,
        runtime_steps,
        runtime_folded,
        total_origin,
        total_contents,
    }
}

} // verus!
