//! Benchmark: stb_image HDR pipeline (the gamma bug).
//!
//! `stbi_hdr_to_ldr_gamma(0.0f)` stores 1.0 / 0.0 in a global that every
//! later pixel conversion uses. Here the division is
//! `div(contents(1.0), contents(0.0)) = container(1.0)`, and the container
//! reaches every output pixel.
//!
//! Constants are recorded by the bit pattern of their IEEE-754 binary64
//! value.
use vstd::prelude::*;
use crate::builder::{indexed, is_named_input, lemma_prefix_same, binary, constant, contents_input, indexed_name, input, is_constant, is_contents_input, is_node, unary};
use crate::count::{count_if, lemma_count_if_append, lemma_count_if_ext, lemma_count_if_none};
use crate::ir::{arith_value, count_exception_ops, count_sort, exception_count, is_exception, is_exception_op, ssa_ordered, well_formed, Instruction, Op, Program, SortCounts, Sort};
use crate::pass_fold::{fold_origin, fold_sorts, law_closed_program_folds_nothing, origin_closed, uses};
use crate::pass_resolve::{
    law_one_pass_suffices, law_pass_is_unique_local_solution, lemma_static_sort_of_contents,
    lemma_static_sort_of_container, lemma_static_sort_of_unknown, local_sort, resolve_pass, resolve_to_fixpoint,
    set_sorts, sorts_of, with_sorts,
};

verus! {

/// 1.0.
pub const ONE_BITS: u64 = 0x3ff0_0000_0000_0000;

/// 0.0.
pub const ZERO_BITS: u64 = 0;

/// 255.0.
pub const MAX_BITS: u64 = 0x406f_e000_0000_0000;

/// The number of instructions each pixel adds.
pub const PIXEL_LEN: usize = 8;

/// The result of the quiet run.
pub struct StbResult {
    /// Operations that carry the container sort.
    pub tainted_ops: usize,
    /// Output pixels that carry the container sort.
    pub tainted_pixels: usize,
    /// Output pixels.
    pub total_pixels: usize,
}

/// The global computation: the constant 1.0, gamma (the constant 0.0 for
/// the bug, a contents input otherwise), `gamma_i = 1.0 / gamma`, and the
/// constants 255.0, 0.0 and 255.0 for scaling and clamping.
pub open spec fn gamma_header(insts: Seq<Instruction<u64>>, b: int, gamma_is_zero: bool) -> bool {
    &&& is_constant(insts, b, ONE_BITS)
    &&& if gamma_is_zero {
        is_constant(insts, b + 1, ZERO_BITS)
    } else {
        is_named_input(insts, b + 1, "gamma"@)
    }
    &&& is_node(insts, b + 2, Op::Div, seq![b as usize, (b + 1) as usize])
    &&& is_constant(insts, b + 3, MAX_BITS)
    &&& is_constant(insts, b + 4, ZERO_BITS)
    &&& is_constant(insts, b + 5, MAX_BITS)
}

/// The position of offset `k` of pixel `p` in a pipeline built at `b`.
pub open spec fn pixel_pos(b: int, p: int, k: int) -> int {
    b + 6 + 8 * p + k
}

/// Pixel `p`: the input value, `linear = exp(gamma_i * log(value))`,
/// `scaled = linear * 255`, the two clamp steps and the output.
pub open spec fn pixel(insts: Seq<Instruction<u64>>, b: int, p: int) -> bool {
    let u = |k: int| pixel_pos(b, p, k) as usize;
    let g = |k: int| (b + k) as usize;
    &&& is_named_input(insts, pixel_pos(b, p, 0), indexed("pixel"@, p as nat))
    &&& is_node(insts, pixel_pos(b, p, 1), Op::Log, seq![u(0)])
    &&& is_node(insts, pixel_pos(b, p, 2), Op::Mul, seq![g(2), u(1)])
    &&& is_node(insts, pixel_pos(b, p, 3), Op::Exp, seq![u(2)])
    &&& is_node(insts, pixel_pos(b, p, 4), Op::Mul, seq![u(3), g(3)])
    &&& is_node(insts, pixel_pos(b, p, 5), Op::Add, seq![u(4), g(4)])
    &&& is_node(insts, pixel_pos(b, p, 6), Op::Mul, seq![u(5), g(5)])
    &&& is_node(insts, pixel_pos(b, p, 7), Op::Add, seq![u(6), g(4)])
}

/// The whole pipeline for `num_pixels` pixels.
pub open spec fn gamma_program(insts: Seq<Instruction<u64>>, b: int, num_pixels: int, gamma_is_zero: bool) -> bool {
    &&& insts.len() == b + 6 + 8 * num_pixels
    &&& gamma_header(insts, b, gamma_is_zero)
    &&& forall|p: int| 0 <= p < num_pixels ==> #[trigger] pixel(insts, b, p)
}

/// The pipeline computes what it documents. Over the integers, with every
/// input, constant, division, logarithm and exponential taking the value
/// `env` gives it, and `ev` the value of an instruction:
/// - `gamma_i` divides the constant 1.0 by gamma (the constant 0.0 for the
///   bug);
/// - each pixel takes `exp(gamma_i * log(value))` of its input value,
///   scales it by 255, and clamps with `+ 0`, `* 255` and `+ 0`.
pub proof fn law_pipeline_computes(insts: Seq<Instruction<u64>>, b: int, num_pixels: int, gamma_is_zero: bool, env: spec_fn(int) -> int, p: int)
    requires
        0 <= b,
        insts.len() <= usize::MAX,
        gamma_program(insts, b, num_pixels, gamma_is_zero),
        0 <= p < num_pixels,
    ensures
        ({
            let ev = |i: int| arith_value(insts, env, i);
            let u = |k: int| pixel_pos(b, p, k);
            &&& insts[b].op == Op::Constant(ONE_BITS)
            &&& gamma_is_zero ==> insts[b + 1].op == Op::Constant(ZERO_BITS)
            &&& insts[b + 2].op is Div && insts[b + 2].operands@ == seq![b as usize, (b + 1) as usize]
            &&& insts[b + 3].op == Op::Constant(MAX_BITS) && insts[b + 5].op == Op::Constant(MAX_BITS)
            &&& insts[b + 4].op == Op::Constant(ZERO_BITS)
            &&& insts[u(1)].op is Log && insts[u(1)].operands@ == seq![u(0) as usize]
            &&& ev(u(2)) == ev(b + 2) * ev(u(1))
            &&& insts[u(3)].op is Exp && insts[u(3)].operands@ == seq![u(2) as usize]
            &&& ev(u(4)) == ev(u(3)) * ev(b + 3)
            &&& ev(u(7)) == (ev(u(3)) * ev(b + 3) + ev(b + 4)) * ev(b + 5) + ev(b + 4)
        }),
{
    assert(gamma_header(insts, b, gamma_is_zero));
    assert(pixel(insts, b, p));
    let ev = |i: int| arith_value(insts, env, i);
    let u = |k: int| pixel_pos(b, p, k);
    assert(ev(u(2)) == ev(b + 2) * ev(u(1)));
    assert(ev(u(4)) == ev(u(3)) * ev(b + 3));
    assert(ev(u(5)) == ev(u(4)) + ev(b + 4));
    assert(ev(u(6)) == ev(u(5)) * ev(b + 5));
}

/// Append pixel `i` at position `6 + 8 * i`. Returns the id of its output.
fn build_pixel(prog: &mut Program<u64>, b: usize, i: usize) -> (output: usize)
    requires
        old(prog).wf(),
        ssa_ordered(old(prog).instructions@),
        old(prog).instructions@.len() == b + 6 + 8 * i,
        old(prog).instructions@.len() + PIXEL_LEN <= usize::MAX,
    ensures
        final(prog).wf(),
        ssa_ordered(final(prog).instructions@),
        final(prog).instructions@.len() == old(prog).instructions@.len() + PIXEL_LEN,
        final(prog).instructions@.subrange(0, old(prog).instructions@.len() as int) == old(prog).instructions@,
        pixel(final(prog).instructions@, b as int, i as int),
        output == pixel_pos(b as int, i as int, 7),
{
    let name = indexed_name("pixel", i);
    let hdr_value = input(prog, name, Sort::Contents);
    let log_hdr = unary(prog, Op::Log, hdr_value);
    let exponent = binary(prog, Op::Mul, b + 2, log_hdr);
    let linear = unary(prog, Op::Exp, exponent);
    let scaled = binary(prog, Op::Mul, linear, b + 3);
    let clamped_low = binary(prog, Op::Add, scaled, b + 4);
    let clamped = binary(prog, Op::Mul, clamped_low, b + 5);
    binary(prog, Op::Add, clamped, b + 4)
}

/// Append the global computation of the pipeline.
fn build_gamma_header(prog: &mut Program<u64>, gamma_is_zero: bool)
    requires
        old(prog).wf(),
        ssa_ordered(old(prog).instructions@),
        old(prog).instructions@.len() + 6 <= usize::MAX,
    ensures
        final(prog).wf(),
        ssa_ordered(final(prog).instructions@),
        final(prog).instructions@.len() == old(prog).instructions@.len() + 6,
        final(prog).instructions@.subrange(0, old(prog).instructions@.len() as int) == old(prog).instructions@,
        gamma_header(final(prog).instructions@, old(prog).instructions@.len() as int, gamma_is_zero),
{
    let one = constant(prog, ONE_BITS);
    let gamma = if gamma_is_zero {
        constant(prog, ZERO_BITS)
    } else {
        contents_input(prog, "gamma")
    };
    // gamma_i = 1.0 / gamma: where the bug lives.
    let _gamma_i = binary(prog, Op::Div, one, gamma);
    let _scale = constant(prog, MAX_BITS);
    let _clamp_min = constant(prog, ZERO_BITS);
    let _clamp_max = constant(prog, MAX_BITS);
}

/// Build the gamma pipeline: the global computation, then `num_pixels`
/// pixel conversions that all read `gamma_i`. Returns the ids of the output
/// pixels.
pub fn build_gamma_pipeline(prog: &mut Program<u64>, num_pixels: usize, gamma_is_zero: bool) -> (outputs: Vec<usize>)
    requires
        old(prog).wf(),
        ssa_ordered(old(prog).instructions@),
        old(prog).instructions@.len() + 6 + 8 * num_pixels <= usize::MAX,
    ensures
        final(prog).wf(),
        ssa_ordered(final(prog).instructions@),
        final(prog).instructions@.subrange(0, old(prog).instructions@.len() as int) == old(prog).instructions@,
        gamma_program(final(prog).instructions@, old(prog).instructions@.len() as int, num_pixels as int, gamma_is_zero),
        outputs@.len() == num_pixels,
        forall|p: int| 0 <= p < num_pixels ==> #[trigger] outputs@[p] == pixel_pos(old(prog).instructions@.len() as int, p, 7),
{
    let ghost p0 = prog.instructions@;
    let b = prog.instructions.len();
    build_gamma_header(prog, gamma_is_zero);
    let mut outputs: Vec<usize> = Vec::new();
    let mut i: usize = 0;
    while i < num_pixels
        invariant
            b == p0.len(),
            b + 6 + 8 * num_pixels <= usize::MAX,
            i <= num_pixels,
            prog.wf(),
            ssa_ordered(prog.instructions@),
            prog.instructions@.len() == b + 6 + 8 * i,
            prog.instructions@.subrange(0, b as int) == p0,
            gamma_header(prog.instructions@, b as int, gamma_is_zero),
            forall|p: int| 0 <= p < i ==> #[trigger] pixel(prog.instructions@, b as int, p),
            outputs@.len() == i,
            forall|p: int| 0 <= p < i ==> #[trigger] outputs@[p] == pixel_pos(b as int, p, 7),
        decreases num_pixels - i,
    {
        let ghost before = prog.instructions@;
        let output = build_pixel(prog, b, i);
        outputs.push(output);
        proof {
            lemma_prefix_same(before, prog.instructions@);
            assert forall|p: int| 0 <= p < i + 1 implies #[trigger] pixel(prog.instructions@, b as int, p) by {
                if p < i {
                    assert(pixel(before, b as int, p));
                }
            }
            assert(prog.instructions@.subrange(0, b as int) =~= p0) by {
                assert forall|j: int| 0 <= j < b implies prog.instructions@[j] == p0[j] by {
                    assert(before.subrange(0, b as int)[j] == before[j]);
                }
            }
        }
        i = i + 1;
    }
    outputs
}

/// The sorts after the first resolution: `gamma_i` and everything that
/// waits on a logarithm are unknown, the rest is contents.
pub open spec fn stb_first_sorts(n: int) -> Seq<Sort> {
    Seq::new(n as nat, |j: int| if j == 2 || (j >= 6 && (j - 6) % 8 != 0) { Sort::Unknown } else { Sort::Contents })
}

/// The sorts once the runtime checks have fired: `1.0 / 0.0` is a
/// container, the logarithms of the (positive) pixels are contents.
pub open spec fn stb_runtime_sorts(n: int) -> Seq<Sort> {
    Seq::new(
        n as nat,
        |j: int|
            if j == 2 {
                Sort::Container
            } else if j >= 6 && (j - 6) % 8 >= 2 {
                Sort::Unknown
            } else {
                Sort::Contents
            },
    )
}

/// The sorts after the second resolution: the container reaches every
/// operation downstream of `gamma_i`.
pub open spec fn stb_final_sorts(n: int) -> Seq<Sort> {
    Seq::new(n as nat, |j: int| if j == 2 || (j >= 6 && (j - 6) % 8 >= 2) { Sort::Container } else { Sort::Contents })
}

proof fn lemma_pixel_positions(p: int)
    requires
        0 <= p,
    ensures
        forall|k: int| 0 <= k < 8 ==> (#[trigger] pixel_pos(0, p, k) - 6) / 8 == p && (pixel_pos(0, p, k) - 6) % 8 == k,
{
    assert forall|k: int| 0 <= k < 8 implies (#[trigger] pixel_pos(0, p, k) - 6) / 8 == p && (pixel_pos(0, p, k) - 6) % 8 == k by {
        vstd::arithmetic::div_mod::lemma_fundamental_div_mod_converse(pixel_pos(0, p, k) - 6, 8, p, k);
    }
}

proof fn lemma_locate(insts: Seq<Instruction<u64>>, num_pixels: int, gamma_is_zero: bool, j: int)
    requires
        gamma_program(insts, 0, num_pixels, gamma_is_zero),
        6 <= j < insts.len(),
    ensures
        pixel(insts, 0, (j - 6) / 8),
        j == pixel_pos(0, (j - 6) / 8, (j - 6) % 8),
        0 <= (j - 6) / 8 < num_pixels,
        0 <= (j - 6) % 8 < 8,
{
    let p = (j - 6) / 8;
    assert(0 <= p < num_pixels);
    assert(pixel(insts, 0, p));
}

proof fn lemma_stb_first_pass(insts: Seq<Instruction<u64>>, num_pixels: int, gamma_is_zero: bool)
    requires
        well_formed(insts),
        ssa_ordered(insts),
        gamma_program(insts, 0, num_pixels, gamma_is_zero),
    ensures
        resolve_pass(insts) == stb_first_sorts(insts.len() as int),
{
    let t = stb_first_sorts(insts.len() as int);
    assert forall|j: int| 0 <= j < insts.len() implies #[trigger] t[j] == local_sort(insts, t, j) by {
        if j == 2 {
            lemma_static_sort_of_contents(insts[j].op, insts[j].operands@, t);
        } else if j >= 6 {
            lemma_locate(insts, num_pixels, gamma_is_zero, j);
            let p = (j - 6) / 8;
            let k = (j - 6) % 8;
            lemma_pixel_positions(p);
            assert(forall|i: int| 0 <= i < t.len() ==> t[i] != Sort::Origin);
            if k == 1 {
                lemma_static_sort_of_contents(insts[j].op, insts[j].operands@, t);
            } else if k == 2 {
                lemma_static_sort_of_unknown(insts[j].op, insts[j].operands@, t, 0);
            } else if k > 2 {
                lemma_static_sort_of_unknown(insts[j].op, insts[j].operands@, t, 0);
            }
        }
    }
    law_pass_is_unique_local_solution(insts, t);
}

proof fn lemma_stb_second_pass(insts: Seq<Instruction<u64>>, insts2: Seq<Instruction<u64>>, num_pixels: int, gamma_is_zero: bool)
    requires
        well_formed(insts),
        ssa_ordered(insts),
        gamma_program(insts, 0, num_pixels, gamma_is_zero),
        with_sorts(insts, insts2, stb_runtime_sorts(insts.len() as int)),
    ensures
        resolve_pass(insts2) == stb_final_sorts(insts.len() as int),
{
    let n = insts.len() as int;
    let t = stb_final_sorts(n);
    crate::pass_resolve::lemma_with_sorts_shape(insts, insts2, stb_runtime_sorts(n));
    assert forall|j: int| 0 <= j < n implies #[trigger] t[j] == local_sort(insts2, t, j) by {
        if j >= 6 {
            lemma_locate(insts, num_pixels, gamma_is_zero, j);
            let p = (j - 6) / 8;
            let k = (j - 6) % 8;
            lemma_pixel_positions(p);
            assert(insts2[j].operands@ == insts[j].operands@);
            if k >= 2 {
                lemma_static_sort_of_container(insts2[j].op, insts2[j].operands@, t, 0);
            }
        }
    }
    law_pass_is_unique_local_solution(insts2, t);
}

/// Let the runtime checks fire in program order: the first unknown division
/// (`1.0 / 0.0`) becomes a container, every other unknown exception
/// contents.
fn fire_runtime_checks(prog: &mut Program<u64>, Ghost(base): Ghost<Seq<Instruction<u64>>>, Ghost(num_pixels): Ghost<int>)
    requires
        gamma_program(base, 0, num_pixels, true),
        with_sorts(base, old(prog).instructions@, stb_first_sorts(base.len() as int)),
    ensures
        with_sorts(base, final(prog).instructions@, stb_runtime_sorts(base.len() as int)),
{
    let ghost n = base.len() as int;
    let len = prog.instructions.len();
    let mut first_div = true;
    let mut i: usize = 0;
    while i < len
        invariant
            len == n,
            gamma_program(base, 0, num_pixels, true),
            i <= len,
            first_div == (i <= 2),
            with_sorts(
                base,
                prog.instructions@,
                Seq::new(n as nat, |j: int| if j < i { stb_runtime_sorts(n)[j] } else { stb_first_sorts(n)[j] }),
            ),
        decreases len - i,
    {
        proof {
            if i >= 6 {
                lemma_locate(base, num_pixels, true, i as int);
                lemma_pixel_positions((i - 6) / 8);
            }
        }
        if prog.instructions[i].sort == Sort::Unknown {
            if matches!(prog.instructions[i].op, Op::Div) && first_div {
                prog.instructions[i].sort = Sort::Container;
                first_div = false;
            } else if is_exception_op(&prog.instructions[i].op) {
                prog.instructions[i].sort = Sort::Contents;
            }
        }
        i = i + 1;
    }
    proof {
        assert(Seq::new(n as nat, |j: int| if j < i { stb_runtime_sorts(n)[j] } else { stb_first_sorts(n)[j] }) =~= stb_runtime_sorts(n));
    }
}

/// Instruction `j` carries the container sort at the end of the run.
pub open spec fn ends_container(j: int) -> bool {
    j == 2 || (j >= 6 && (j - 6) % 8 >= 2)
}

proof fn lemma_container_count(m: int)
    requires
        0 <= m,
    ensures
        count_if(pixel_pos(0, m, 0), |j: int| ends_container(j)) == 1 + 6 * m,
    decreases m,
{
    let f = |j: int| ends_container(j);
    if m == 0 {
        reveal_with_fuel(count_if, 7);
    } else {
        lemma_container_count(m - 1);
        lemma_count_if_append(pixel_pos(0, m - 1, 0), 8, f);
        let g = |k: int| f(pixel_pos(0, m - 1, 0) + k);
        lemma_pixel_positions(m - 1);
        assert forall|k: int| 0 <= k < 8 implies #[trigger] g(k) == (k >= 2) by {
            assert(pixel_pos(0, m - 1, 0) + k == pixel_pos(0, m - 1, k));
        }
        lemma_count_if_ext(8, g, |k: int| k >= 2);
        reveal_with_fuel(count_if, 9);
    }
}

/// The runtime checks fire on the resolved bug path (`1.0 / 0.0` is a
/// container, the pixels' logarithms are contents); resolution and folding
/// then carry the container downstream.
fn simulate_gamma_bug(prog: &mut Program<u64>, Ghost(built): Ghost<Seq<Instruction<u64>>>, Ghost(num_pixels): Ghost<int>)
    requires
        well_formed(built),
        ssa_ordered(built),
        gamma_program(built, 0, num_pixels, true),
        with_sorts(built, old(prog).instructions@, stb_first_sorts(built.len() as int)),
    ensures
        with_sorts(built, final(prog).instructions@, stb_final_sorts(built.len() as int)),
{
    let ghost n = built.len() as int;
    fire_runtime_checks(prog, Ghost(built), Ghost(num_pixels));
    let ghost insts2 = prog.instructions@;
    proof {
        lemma_stb_second_pass(built, insts2, num_pixels, true);
        crate::pass_resolve::lemma_with_sorts_shape(built, insts2, stb_runtime_sorts(n));
        law_one_pass_suffices(insts2);
    }
    resolve_to_fixpoint(prog);
    let ghost insts3 = prog.instructions@;
    proof {
        assert(insts3 =~= set_sorts(insts2, stb_final_sorts(n)));
        assert(origin_closed(insts3));
        law_closed_program_folds_nothing(insts3);
    }
    fold_origin(prog);
    proof {
        let fin = prog.instructions@;
        assert forall|j: int| 0 <= j < n implies #[trigger] fin[j].sort == stb_final_sorts(n)[j] by {
            assert(fold_sorts(insts3)[j] == sorts_of(insts3)[j]);
        }
    }
}

/// Count the output pixels that carry the container sort.
fn count_tainted_pixels(prog: &Program<u64>, outputs: &Vec<usize>) -> (tainted: usize)
    requires
        prog.instructions@.len() == 518,
        outputs@.len() == 64,
        forall|q: int| 0 <= q < 64 ==> #[trigger] outputs@[q] == pixel_pos(0, q, 7),
        forall|j: int| 0 <= j < 518 ==> #[trigger] prog.instructions@[j].sort == stb_final_sorts(518)[j],
    ensures
        tainted == 64,
{
    let mut tainted_pixels: usize = 0;
    let mut p: usize = 0;
    while p < outputs.len()
        invariant
            prog.instructions@.len() == 518,
            outputs@.len() == 64,
            forall|q: int| 0 <= q < 64 ==> #[trigger] outputs@[q] == pixel_pos(0, q, 7),
            forall|j: int| 0 <= j < 518 ==> #[trigger] prog.instructions@[j].sort == stb_final_sorts(518)[j],
            p <= 64,
            tainted_pixels == p,
        decreases 64 - p,
    {
        proof {
            lemma_pixel_positions(p as int);
        }
        if prog.instructions[outputs[p]].sort == Sort::Container {
            tainted_pixels = tainted_pixels + 1;
        }
        p = p + 1;
    }
    tainted_pixels
}

/// Run the bug path for 64 pixels: resolve, let the runtime checks fire
/// (`1.0 / 0.0` is a container, the pixels' logarithms are contents),
/// resolve again and fold. The container then covers 385 operations: the
/// division and six operations of each pixel, every output among them.
pub fn run_benchmark_quiet() -> (r: StbResult)
    ensures
        r.tainted_ops == 385,
        r.tainted_pixels == 64,
        r.total_pixels == 64,
{
    let num_pixels: usize = 64;
    let mut prog: Program<u64> = Program::new();
    let outputs = build_gamma_pipeline(&mut prog, num_pixels, true);
    let ghost built = prog.instructions@;
    proof {
        lemma_stb_first_pass(built, 64, true);
        law_one_pass_suffices(built);
    }
    resolve_to_fixpoint(&mut prog);
    simulate_gamma_bug(&mut prog, Ghost(built), Ghost(64));
    let ghost fin = prog.instructions@;
    let tainted_ops = prog.count_by_sort().container;
    proof {
        lemma_count_if_ext(518, |j: int| fin[j].sort == Sort::Container, |j: int| ends_container(j));
        lemma_container_count(64);
    }
    let tainted_pixels = count_tainted_pixels(&prog, &outputs);
    StbResult { tainted_ops, tainted_pixels, total_pixels: num_pixels }
}

/// The count of the block of 8 positions of pixel `p`.
pub open spec fn pixel_count(f: spec_fn(int) -> bool, p: int) -> nat {
    count_if(8, |k: int| f(pixel_pos(0, p, k)))
}

/// A count over the header and whole pixels: `head` in the header, `per`
/// in each pixel.
proof fn lemma_count_pixels(f: spec_fn(int) -> bool, head: int, per: int, m: int)
    requires
        0 <= m,
        count_if(6, f) == head,
        forall|p: int| 0 <= p < m ==> #[trigger] pixel_count(f, p) == per,
    ensures
        count_if(pixel_pos(0, m, 0), f) == head + per * m,
    decreases m,
{
    if m > 0 {
        lemma_count_pixels(f, head, per, m - 1);
        let a = pixel_pos(0, m - 1, 0);
        lemma_count_if_append(a, 8, f);
        assert(a + 8 == pixel_pos(0, m, 0));
        assert forall|k: int| 0 <= k < 8 implies #[trigger] f(a + k) == f(pixel_pos(0, m - 1, k)) by {
            assert(a + k == pixel_pos(0, m - 1, k));
        }
        lemma_count_if_ext(8, |k: int| f(a + k), |k: int| f(pixel_pos(0, m - 1, k)));
        assert(pixel_count(f, m - 1) == per);
        assert(per * m == per * (m - 1) + per) by (nonlinear_arith);
    } else {
        assert(per * m == 0) by (nonlinear_arith)
            requires
                m == 0,
        ;
    }
}

proof fn lemma_offset_counts()
    ensures
        count_if(8, |k: int| k != 0) == 7,
        count_if(8, |k: int| k == 1) == 1,
{
    reveal_with_fuel(count_if, 9);
}

/// The exceptions and the unknown sorts after the first resolution of a
/// pipeline of `m` pixels: the division and one logarithm a pixel are
/// exceptions; the division and all but the input of each pixel are
/// unknown.
proof fn lemma_stb_counts(insts: Seq<Instruction<u64>>, m: int, gamma_is_zero: bool)
    requires
        gamma_program(insts, 0, m, gamma_is_zero),
        0 <= m,
    ensures
        exception_count(insts) == 1 + m,
        count_if(insts.len() as int, |j: int| stb_first_sorts(insts.len() as int)[j] == Sort::Unknown) == 1 + 7 * m,
{
    let n = insts.len() as int;
    let f_exc = |j: int| is_exception(insts[j].op);
    let f_unk = |j: int| stb_first_sorts(n)[j] == Sort::Unknown;
    lemma_offset_counts();
    assert(gamma_header(insts, 0, gamma_is_zero));
    assert forall|j: int| 0 <= j < 6 implies #[trigger] f_exc(j) == (j == 2) && f_unk(j) == (j == 2) by {}
    lemma_count_if_ext(6, f_exc, |j: int| j == 2);
    lemma_count_if_ext(6, f_unk, |j: int| j == 2);
    reveal_with_fuel(count_if, 7);
    assert forall|p: int| 0 <= p < m implies #[trigger] pixel_count(f_exc, p) == 1 by {
        assert(pixel(insts, 0, p));
        lemma_pixel_positions(p);
        lemma_count_if_ext(8, |k: int| f_exc(pixel_pos(0, p, k)), |k: int| k == 1);
    }
    assert forall|p: int| 0 <= p < m implies #[trigger] pixel_count(f_unk, p) == 7 by {
        lemma_pixel_positions(p);
        lemma_count_if_ext(8, |k: int| f_unk(pixel_pos(0, p, k)), |k: int| k != 0);
    }
    lemma_count_pixels(f_exc, 1, 1, m);
    lemma_count_pixels(f_unk, 1, 7, m);
}

/// The sort counts after the first resolution of a pipeline of `m` pixels.
proof fn lemma_first_sorts_counts(built: Seq<Instruction<u64>>, res: Seq<Instruction<u64>>, m: int)
    requires
        0 <= m,
        gamma_program(built, 0, m, true) || gamma_program(built, 0, m, false),
        with_sorts(built, res, stb_first_sorts(built.len() as int)),
    ensures
        count_sort(res, Sort::Unknown) == 1 + 7 * m,
        count_sort(res, Sort::Origin) == 0,
        count_sort(res, Sort::Container) == 0,
        exception_count(res) == exception_count(built),
{
    let n = built.len() as int;
    if gamma_program(built, 0, m, true) {
        lemma_stb_counts(built, m, true);
    } else {
        lemma_stb_counts(built, m, false);
    }
    lemma_count_if_ext(n, |j: int| res[j].sort == Sort::Unknown, |j: int| stb_first_sorts(n)[j] == Sort::Unknown);
    assert forall|j: int| 0 <= j < n implies #[trigger] res[j].sort != Sort::Origin && res[j].sort != Sort::Container by {
        assert(res[j].sort == stb_first_sorts(n)[j]);
    }
    lemma_count_if_none(n, |j: int| res[j].sort == Sort::Origin);
    lemma_count_if_none(n, |j: int| res[j].sort == Sort::Container);
    lemma_count_if_ext(n, |j: int| is_exception(res[j].op), |j: int| is_exception(built[j].op));
}

/// 4.0, the row alignment.
pub const ALIGN_BITS: u64 = 0x4010_0000_0000_0000;

/// A representative slice of the wider analysis: the image dimensions and
/// their products, a stride divided by the alignment, a resize ratio, a
/// filter weight normalized by the sum of weights, and a blend of two
/// pixels scaled by the pixel count.
pub open spec fn sort_analysis_at(insts: Seq<Instruction<u64>>) -> bool {
    &&& insts.len() == 17
    &&& is_named_input(insts, 0, "width"@)
    &&& is_named_input(insts, 1, "height"@)
    &&& is_named_input(insts, 2, "channels"@)
    &&& is_node(insts, 3, Op::Mul, seq![0usize, 1usize])
    &&& is_node(insts, 4, Op::Mul, seq![3usize, 2usize])
    &&& is_node(insts, 5, Op::Mul, seq![0usize, 2usize])
    &&& is_constant(insts, 6, ALIGN_BITS)
    &&& is_node(insts, 7, Op::Div, seq![5usize, 6usize])
    &&& is_named_input(insts, 8, "out_width"@)
    &&& is_node(insts, 9, Op::Div, seq![8usize, 0usize])
    &&& is_named_input(insts, 10, "weight"@)
    &&& is_named_input(insts, 11, "sum_weights"@)
    &&& is_node(insts, 12, Op::Div, seq![10usize, 11usize])
    &&& is_named_input(insts, 13, "pixel_a"@)
    &&& is_named_input(insts, 14, "pixel_b"@)
    &&& is_node(insts, 15, Op::Add, seq![13usize, 14usize])
    &&& is_node(insts, 16, Op::Mul, seq![15usize, 4usize])
}

/// Build the representative slice of the wider analysis into an empty
/// program.
fn build_sort_analysis(prog: &mut Program<u64>)
    requires
        old(prog).instructions@.len() == 0,
    ensures
        final(prog).wf(),
        ssa_ordered(final(prog).instructions@),
        sort_analysis_at(final(prog).instructions@),
{
    let width = contents_input(prog, "width");
    let height = contents_input(prog, "height");
    let channels = contents_input(prog, "channels");
    let area = binary(prog, Op::Mul, width, height);
    let total_pixels = binary(prog, Op::Mul, area, channels);
    let bytes_per_row = binary(prog, Op::Mul, width, channels);
    let alignment = constant(prog, ALIGN_BITS);
    let _aligned_stride = binary(prog, Op::Div, bytes_per_row, alignment);
    let out_width = contents_input(prog, "out_width");
    let _ratio = binary(prog, Op::Div, out_width, width);
    let weight = contents_input(prog, "weight");
    let sum_weights = contents_input(prog, "sum_weights");
    let _normalized = binary(prog, Op::Div, weight, sum_weights);
    let pixel_a = contents_input(prog, "pixel_a");
    let pixel_b = contents_input(prog, "pixel_b");
    let blend = binary(prog, Op::Add, pixel_a, pixel_b);
    let _scale = binary(prog, Op::Mul, blend, total_pixels);
}

/// Resolution leaves the three divisions of the slice unknown and makes
/// everything else contents.
proof fn lemma_sort_analysis(insts: Seq<Instruction<u64>>)
    requires
        well_formed(insts),
        ssa_ordered(insts),
        sort_analysis_at(insts),
    ensures
        resolve_pass(insts) == Seq::new(17, |j: int| if j == 7 || j == 9 || j == 12 { Sort::Unknown } else { Sort::Contents }),
        forall|j: int| 0 <= j < 17 ==> (is_exception(#[trigger] insts[j].op) <==> (j == 7 || j == 9 || j == 12)),
{
    let t = Seq::new(17, |j: int| if j == 7 || j == 9 || j == 12 { Sort::Unknown } else { Sort::Contents });
    assert forall|j: int| #![trigger insts[j]] 0 <= j < 17 implies t[j] == local_sort(insts, t, j) && (is_exception(insts[j].op)
        <==> (j == 7 || j == 9 || j == 12)) by {
        if !(insts[j].op is Input) && !(insts[j].op is Constant) {
            lemma_static_sort_of_contents(insts[j].op, insts[j].operands@, t);
        }
    }
    law_pass_is_unique_local_solution(insts, t);
}

proof fn lemma_sort_analysis_counts()
    ensures
        count_if(17, |j: int| j == 7 || j == 9 || j == 12) == 3,
        count_if(17, |j: int| !(j == 7 || j == 9 || j == 12)) == 14,
{
    reveal_with_fuel(count_if, 18);
}

/// What the full analysis of the gamma pipeline reports.
pub struct StbReport {
    /// Operations on the bug path.
    pub total: usize,
    /// Sort counts of the bug path after static resolution.
    pub counts: SortCounts,
    /// Exception operations of the bug path.
    pub exception_ops: usize,
    /// Sort counts of the bug path once the runtime checks have fired.
    pub runtime_counts: SortCounts,
    /// Operations tainted by the gamma bug: they carry the container sort.
    pub container_count: usize,
    /// Output pixels tainted by the gamma bug.
    pub pixels_tainted: usize,
    /// Output pixels.
    pub num_pixels: usize,
    /// Operations on the clean path (gamma = 2.2).
    pub clean_total: usize,
    /// Sort counts of the clean path after static resolution.
    pub clean_counts: SortCounts,
    /// Exception operations of the clean path: its runtime checks.
    pub clean_exceptions: usize,
    /// Operations of the slice of the wider analysis.
    pub broad_total: usize,
    /// Division points of that slice: its runtime checks.
    pub broad_exceptions: usize,
    /// Operations of that slice that are contents after static resolution.
    pub broad_contents: usize,
}

/// Analyze the gamma pipeline for 64 pixels. Bug path: 518 operations, 69
/// contents and 449 unknown after static resolution, 65 exceptions; at run
/// time the container from `1.0 / 0.0` covers 385 operations and all 64
/// output pixels, the other 133 operations being contents. Clean path: the
/// same counts after static resolution. The slice of the wider analysis:
/// 17 operations, 3 division points, 14 contents.
pub fn benchmark_report() -> (r: StbReport)
    ensures
        r.total == 518,
        r.counts.contents == 69 && r.counts.container == 0 && r.counts.origin == 0 && r.counts.unknown == 449,
        r.counts.total == 518,
        r.exception_ops == 65,
        r.runtime_counts.contents == 133 && r.runtime_counts.container == 385 && r.runtime_counts.origin == 0,
        r.runtime_counts.unknown == 0 && r.runtime_counts.total == 518,
        r.container_count == 385,
        r.pixels_tainted == 64,
        r.num_pixels == 64,
        r.clean_total == 518,
        r.clean_counts.contents == 69 && r.clean_counts.container == 0 && r.clean_counts.origin == 0,
        r.clean_counts.unknown == 449 && r.clean_counts.total == 518,
        r.clean_exceptions == 65,
        r.broad_total == 17,
        r.broad_exceptions == 3,
        r.broad_contents == 14,
{
    let num_pixels: usize = 64;
    let mut prog: Program<u64> = Program::new();
    let outputs = build_gamma_pipeline(&mut prog, num_pixels, true);
    let total = prog.instructions.len();
    let ghost built = prog.instructions@;
    proof {
        lemma_stb_first_pass(built, 64, true);
        law_one_pass_suffices(built);
        lemma_stb_counts(built, 64, true);
    }
    resolve_to_fixpoint(&mut prog);
    let exception_ops = count_exception_ops(&prog);
    let counts = prog.count_by_sort();
    proof {
        let res = prog.instructions@;
        lemma_first_sorts_counts(built, res, 64);
    }
    simulate_gamma_bug(&mut prog, Ghost(built), Ghost(64));
    let ghost fin = prog.instructions@;
    let runtime_counts = prog.count_by_sort();
    let container_count = runtime_counts.container;
    proof {
        lemma_count_if_ext(518, |j: int| fin[j].sort == Sort::Container, |j: int| ends_container(j));
        lemma_container_count(64);
        assert forall|j: int| 0 <= j < 518 implies #[trigger] fin[j].sort != Sort::Origin && fin[j].sort != Sort::Unknown by {
            assert(fin[j].sort == stb_final_sorts(518)[j]);
        }
        lemma_count_if_none(518, |j: int| fin[j].sort == Sort::Origin);
        lemma_count_if_none(518, |j: int| fin[j].sort == Sort::Unknown);
    }
    let pixels_tainted = count_tainted_pixels(&prog, &outputs);
    let mut clean: Program<u64> = Program::new();
    build_gamma_pipeline(&mut clean, num_pixels, false);
    let clean_total = clean.instructions.len();
    let ghost clean_built = clean.instructions@;
    proof {
        lemma_stb_first_pass(clean_built, 64, false);
        law_one_pass_suffices(clean_built);
        lemma_stb_counts(clean_built, 64, false);
    }
    resolve_to_fixpoint(&mut clean);
    let clean_counts = clean.count_by_sort();
    let clean_exceptions = count_exception_ops(&clean);
    proof {
        let res = clean.instructions@;
        lemma_first_sorts_counts(clean_built, res, 64);
    }
    let mut broad: Program<u64> = Program::new();
    build_sort_analysis(&mut broad);
    let broad_total = broad.instructions.len();
    let ghost broad_built = broad.instructions@;
    proof {
        lemma_sort_analysis(broad_built);
        law_one_pass_suffices(broad_built);
    }
    resolve_to_fixpoint(&mut broad);
    let broad_exceptions = count_exception_ops(&broad);
    let broad_contents = broad.count_by_sort().contents;
    proof {
        let res = broad.instructions@;
        lemma_sort_analysis_counts();
        lemma_count_if_ext(17, |j: int| is_exception(res[j].op), |j: int| j == 7 || j == 9 || j == 12);
        lemma_count_if_ext(17, |j: int| res[j].sort == Sort::Contents, |j: int| !(j == 7 || j == 9 || j == 12));
    }
    StbReport {
        total,
        counts,
        exception_ops,
        runtime_counts,
        container_count,
        pixels_tainted,
        num_pixels,
        clean_total,
        clean_counts,
        clean_exceptions,
        broad_total,
        broad_exceptions,
        broad_contents,
    }
}

} // verus!
