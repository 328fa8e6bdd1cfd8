//! Benchmark: 4-layer transformer forward pass (128 hidden, 4 heads).
//!
//! Only the exception operations (the divisions and reciprocal square
//! roots) need runtime checks; every other operation is safe by
//! construction. If origin enters at the first layer norm, everything that
//! depends on it folds.
//!
//! Constants are recorded by the bit pattern of their IEEE-754 binary64
//! value.
use vstd::prelude::*;
use crate::builder::{lemma_prefix_same, binary, constant, contents_input, indexed, indexed_name, input, is_constant, is_contents_input, is_named_input, is_node, unary};
use crate::count::{count_if, lemma_count_if_append, lemma_count_if_ext, lemma_count_if_none, lemma_count_if_split};
use crate::ir::{arith_value, count_exception_ops, count_sort, exception_count, is_exception, ssa_ordered, well_formed, Instruction, Op, Program, SortCounts, Sort};
use crate::pass_fold::{fold_origin, fold_sorts, foldable_count, law_closed_program_folds_nothing, law_fold_within_closed_set, lemma_tainted_by_witness, tainted, uses};
use crate::pass_resolve::{
    fixpoint_sorts, fixpoint_total, law_one_pass_suffices, law_pass_is_unique_local_solution, lemma_static_sort_of_contents,
    lemma_static_sort_of_unknown, local_sort, resolve_pass, resolve_to_fixpoint, resolved_count, sorts_of, with_sorts,
};

verus! {

/// 1e-5, the layer norm epsilon.
pub const EPS_BITS: u64 = 0x3ee4_f8b5_88e3_68f1;

/// sqrt(32), the attention scale sqrt(d_k).
pub const SQRT_DK_BITS: u64 = 0x4016_a09e_667f_3bcd;

/// The number of instructions one layer adds.
pub const LAYER_LEN: usize = 48;

/// The first layer norm: mean, variance, `rsqrt(var + eps)`, and the scale and bias `gamma`, `beta`.
pub open spec fn layer_norm_at(insts: Seq<Instruction<u64>>, b: int, inp: usize, layer: int) -> bool {
    let u = |k: int| (b + k) as usize;
    &&& is_node(insts, b + 0, Op::ReduceMean, seq![inp])
    &&& is_node(insts, b + 1, Op::Sub, seq![inp, u(0)])
    &&& is_node(insts, b + 2, Op::Mul, seq![u(1), u(1)])
    &&& is_node(insts, b + 3, Op::ReduceMean, seq![u(2)])
    &&& is_constant(insts, b + 4, EPS_BITS)
    &&& is_node(insts, b + 5, Op::Add, seq![u(3), u(4)])
    &&& is_node(insts, b + 6, Op::Rsqrt, seq![u(5)])
    &&& is_node(insts, b + 7, Op::Mul, seq![u(1), u(6)])
    &&& is_named_input(insts, b + 8, indexed("gamma"@, layer as nat))
    &&& is_named_input(insts, b + 9, indexed("beta"@, layer as nat))
    &&& is_node(insts, b + 10, Op::Mul, seq![u(7), u(8)])
    &&& is_node(insts, b + 11, Op::Add, seq![u(10), u(9)])
}

/// Self-attention: the Q, K, V projections, `softmax(Q K / sqrt(d_k)) V`, the output projection and the residual connection.
pub open spec fn attention_at(insts: Seq<Instruction<u64>>, b: int, inp: usize, layer: int) -> bool {
    let u = |k: int| (b + k) as usize;
    &&& is_named_input(insts, b + 12, indexed("wq"@, layer as nat))
    &&& is_named_input(insts, b + 13, indexed("wk"@, layer as nat))
    &&& is_named_input(insts, b + 14, indexed("wv"@, layer as nat))
    &&& is_node(insts, b + 15, Op::MatMul, seq![u(11), u(12)])
    &&& is_node(insts, b + 16, Op::MatMul, seq![u(11), u(13)])
    &&& is_node(insts, b + 17, Op::MatMul, seq![u(11), u(14)])
    &&& is_node(insts, b + 18, Op::MatMul, seq![u(15), u(16)])
    &&& is_constant(insts, b + 19, SQRT_DK_BITS)
    &&& is_node(insts, b + 20, Op::Div, seq![u(18), u(19)])
    &&& is_node(insts, b + 21, Op::Softmax, seq![u(20)])
    &&& is_node(insts, b + 22, Op::MatMul, seq![u(21), u(17)])
    &&& is_named_input(insts, b + 23, indexed("wo"@, layer as nat))
    &&& is_node(insts, b + 24, Op::MatMul, seq![u(22), u(23)])
    &&& is_node(insts, b + 25, Op::Add, seq![inp, u(24)])
}

/// The second layer norm, the feed-forward block with GELU, and the second residual connection.
pub open spec fn feed_forward_at(insts: Seq<Instruction<u64>>, b: int, inp: usize, layer: int) -> bool {
    let u = |k: int| (b + k) as usize;
    &&& is_node(insts, b + 26, Op::ReduceMean, seq![u(25)])
    &&& is_node(insts, b + 27, Op::Sub, seq![u(25), u(26)])
    &&& is_node(insts, b + 28, Op::Mul, seq![u(27), u(27)])
    &&& is_node(insts, b + 29, Op::ReduceMean, seq![u(28)])
    &&& is_constant(insts, b + 30, EPS_BITS)
    &&& is_node(insts, b + 31, Op::Add, seq![u(29), u(30)])
    &&& is_node(insts, b + 32, Op::Rsqrt, seq![u(31)])
    &&& is_node(insts, b + 33, Op::Mul, seq![u(27), u(32)])
    &&& is_named_input(insts, b + 34, indexed("gamma2"@, layer as nat))
    &&& is_named_input(insts, b + 35, indexed("beta2"@, layer as nat))
    &&& is_node(insts, b + 36, Op::Mul, seq![u(33), u(34)])
    &&& is_node(insts, b + 37, Op::Add, seq![u(36), u(35)])
    &&& is_named_input(insts, b + 38, indexed("ff_w1"@, layer as nat))
    &&& is_node(insts, b + 39, Op::MatMul, seq![u(37), u(38)])
    &&& is_named_input(insts, b + 40, indexed("ff_b1"@, layer as nat))
    &&& is_node(insts, b + 41, Op::Add, seq![u(39), u(40)])
    &&& is_node(insts, b + 42, Op::Gelu, seq![u(41)])
    &&& is_named_input(insts, b + 43, indexed("ff_w2"@, layer as nat))
    &&& is_node(insts, b + 44, Op::MatMul, seq![u(42), u(43)])
    &&& is_named_input(insts, b + 45, indexed("ff_b2"@, layer as nat))
    &&& is_node(insts, b + 46, Op::Add, seq![u(44), u(45)])
    &&& is_node(insts, b + 47, Op::Add, seq![u(25), u(46)])
}

/// One transformer layer built at position `b` on input `inp`; its output
/// is at `b + 47`.
pub open spec fn layer_at(insts: Seq<Instruction<u64>>, b: int, inp: usize, layer: int) -> bool {
    &&& layer_norm_at(insts, b, inp, layer)
    &&& attention_at(insts, b, inp, layer)
    &&& feed_forward_at(insts, b, inp, layer)
}

fn build_layer_norm(prog: &mut Program<u64>, b: usize, inp: usize, layer: usize)
    requires
        old(prog).wf(),
        ssa_ordered(old(prog).instructions@),
        inp < b,
        old(prog).instructions@.len() == b + 0,
        b + LAYER_LEN <= usize::MAX,
    ensures
        final(prog).wf(),
        ssa_ordered(final(prog).instructions@),
        final(prog).instructions@.len() == b + 12,
        final(prog).instructions@.subrange(0, b + 0) == old(prog).instructions@,
        layer_norm_at(final(prog).instructions@, b as int, inp, layer as int),
{
    let mean = unary(prog, Op::ReduceMean, inp);
    let diff = binary(prog, Op::Sub, inp, mean);
    let diff_sq = binary(prog, Op::Mul, diff, diff);
    let var = unary(prog, Op::ReduceMean, diff_sq);
    let eps = constant(prog, EPS_BITS);
    let var_eps = binary(prog, Op::Add, var, eps);
    let rsqrt = unary(prog, Op::Rsqrt, var_eps);
    let norm = binary(prog, Op::Mul, diff, rsqrt);
    let gamma = input(prog, indexed_name("gamma", layer), Sort::Contents);
    let beta = input(prog, indexed_name("beta", layer), Sort::Contents);
    let scaled = binary(prog, Op::Mul, norm, gamma);
    binary(prog, Op::Add, scaled, beta);
}

fn build_attention(prog: &mut Program<u64>, b: usize, inp: usize, layer: usize)
    requires
        old(prog).wf(),
        ssa_ordered(old(prog).instructions@),
        inp < b,
        old(prog).instructions@.len() == b + 12,
        b + LAYER_LEN <= usize::MAX,
    ensures
        final(prog).wf(),
        ssa_ordered(final(prog).instructions@),
        final(prog).instructions@.len() == b + 26,
        final(prog).instructions@.subrange(0, b + 12) == old(prog).instructions@,
        attention_at(final(prog).instructions@, b as int, inp, layer as int),
{
    let wq = input(prog, indexed_name("wq", layer), Sort::Contents);
    let wk = input(prog, indexed_name("wk", layer), Sort::Contents);
    let wv = input(prog, indexed_name("wv", layer), Sort::Contents);
    let q = binary(prog, Op::MatMul, b + 11, wq);
    let k = binary(prog, Op::MatMul, b + 11, wk);
    let v = binary(prog, Op::MatMul, b + 11, wv);
    let qk = binary(prog, Op::MatMul, q, k);
    let d_k = constant(prog, SQRT_DK_BITS);
    let scores = binary(prog, Op::Div, qk, d_k);
    let softmax = unary(prog, Op::Softmax, scores);
    let attn_out = binary(prog, Op::MatMul, softmax, v);
    let wo = input(prog, indexed_name("wo", layer), Sort::Contents);
    let projected = binary(prog, Op::MatMul, attn_out, wo);
    binary(prog, Op::Add, inp, projected);
}

fn build_feed_forward(prog: &mut Program<u64>, b: usize, inp: usize, layer: usize)
    requires
        old(prog).wf(),
        ssa_ordered(old(prog).instructions@),
        inp < b,
        old(prog).instructions@.len() == b + 26,
        b + LAYER_LEN <= usize::MAX,
    ensures
        final(prog).wf(),
        ssa_ordered(final(prog).instructions@),
        final(prog).instructions@.len() == b + 48,
        final(prog).instructions@.subrange(0, b + 26) == old(prog).instructions@,
        feed_forward_at(final(prog).instructions@, b as int, inp, layer as int),
{
    let mean2 = unary(prog, Op::ReduceMean, b + 25);
    let diff2 = binary(prog, Op::Sub, b + 25, mean2);
    let diff2_sq = binary(prog, Op::Mul, diff2, diff2);
    let var2 = unary(prog, Op::ReduceMean, diff2_sq);
    let eps2 = constant(prog, EPS_BITS);
    let var_eps2 = binary(prog, Op::Add, var2, eps2);
    let rsqrt2 = unary(prog, Op::Rsqrt, var_eps2);
    let norm2 = binary(prog, Op::Mul, diff2, rsqrt2);
    let gamma2 = input(prog, indexed_name("gamma2", layer), Sort::Contents);
    let beta2 = input(prog, indexed_name("beta2", layer), Sort::Contents);
    let scaled2 = binary(prog, Op::Mul, norm2, gamma2);
    let ln_out2 = binary(prog, Op::Add, scaled2, beta2);
    let w1 = input(prog, indexed_name("ff_w1", layer), Sort::Contents);
    let ff1 = binary(prog, Op::MatMul, ln_out2, w1);
    let b1 = input(prog, indexed_name("ff_b1", layer), Sort::Contents);
    let ff1_bias = binary(prog, Op::Add, ff1, b1);
    let gelu = unary(prog, Op::Gelu, ff1_bias);
    let w2 = input(prog, indexed_name("ff_w2", layer), Sort::Contents);
    let ff2 = binary(prog, Op::MatMul, gelu, w2);
    let b2 = input(prog, indexed_name("ff_b2", layer), Sort::Contents);
    let ff2_bias = binary(prog, Op::Add, ff2, b2);
    binary(prog, Op::Add, b + 25, ff2_bias);
}

/// Build a single transformer layer on `inp`. Returns the id of its output.
pub fn build_layer(prog: &mut Program<u64>, inp: usize, layer: usize) -> (out: usize)
    requires
        old(prog).wf(),
        ssa_ordered(old(prog).instructions@),
        inp < old(prog).instructions@.len(),
        old(prog).instructions@.len() + LAYER_LEN <= usize::MAX,
    ensures
        final(prog).wf(),
        ssa_ordered(final(prog).instructions@),
        final(prog).instructions@.len() == old(prog).instructions@.len() + LAYER_LEN,
        final(prog).instructions@.subrange(0, old(prog).instructions@.len() as int) == old(prog).instructions@,
        layer_at(final(prog).instructions@, old(prog).instructions@.len() as int, inp, layer as int),
        out == old(prog).instructions@.len() + 47,
{
    let b = prog.instructions.len();
    let ghost p0 = prog.instructions@;
    build_layer_norm(prog, b, inp, layer);
    let ghost p1 = prog.instructions@;
    build_attention(prog, b, inp, layer);
    let ghost p2 = prog.instructions@;
    build_feed_forward(prog, b, inp, layer);
    proof {
        let p3 = prog.instructions@;
        lemma_prefix_same(p1, p2);
        lemma_prefix_same(p2, p3);
        lemma_prefix_same(p0, p1);
        assert(layer_norm_at(p1, b as int, inp, layer as int));
        assert(layer_norm_at(p3, b as int, inp, layer as int));
        assert(attention_at(p3, b as int, inp, layer as int));
        assert(p3.subrange(0, b as int) =~= p0);
    }
    b + 47
}

/// A layer computes what it documents. Over the integers, with every input,
/// constant and every operation that is not a ring operation (the means,
/// the reciprocal square roots, the matrix products, the division, softmax
/// and GELU) taking the value `env` gives it, and `ev` the value of an
/// instruction at offset `k` of the layer (`inp` for its input):
/// - layer norm: `diff = inp - mean(inp)`, the variance is the mean of
///   `diff * diff`, `rsqrt` is taken of `var + eps`, and
///   `ln_out = diff * rsqrt * gamma + beta`;
/// - attention: Q, K and V are products of `ln_out`, the scores divide
///   `Q K` by `sqrt(d_k)`, and `residual1 = inp + projected`;
/// - feed-forward: the same layer norm on `residual1`, `ff1 + b1` goes
///   through GELU, and the output is `residual1 + (ff2 + b2)`.
pub proof fn law_layer_computes(insts: Seq<Instruction<u64>>, b: int, inp: usize, layer: int, env: spec_fn(int) -> int)
    requires
        0 <= b,
        inp < b,
        b + 48 <= insts.len() <= usize::MAX,
        layer_at(insts, b, inp, layer),
    ensures
        ({
            let ev = |k: int| arith_value(insts, env, b + k);
            let input = arith_value(insts, env, inp as int);
            &&& insts[b + 0].op is ReduceMean && insts[b + 0].operands@ == seq![inp]
            &&& ev(1) == input - ev(0)
            &&& insts[b + 3].op is ReduceMean && insts[b + 3].operands@ == seq![(b + 2) as usize]
            &&& ev(2) == ev(1) * ev(1)
            &&& insts[b + 4].op == Op::Constant(EPS_BITS)
            &&& insts[b + 6].op is Rsqrt && insts[b + 6].operands@ == seq![(b + 5) as usize]
            &&& ev(5) == ev(3) + ev(4)
            &&& ev(11) == ev(1) * ev(6) * ev(8) + ev(9)
            &&& insts[b + 15].op is MatMul && insts[b + 15].operands@ == seq![(b + 11) as usize, (b + 12) as usize]
            &&& insts[b + 16].op is MatMul && insts[b + 16].operands@ == seq![(b + 11) as usize, (b + 13) as usize]
            &&& insts[b + 17].op is MatMul && insts[b + 17].operands@ == seq![(b + 11) as usize, (b + 14) as usize]
            &&& insts[b + 18].op is MatMul && insts[b + 18].operands@ == seq![(b + 15) as usize, (b + 16) as usize]
            &&& insts[b + 19].op == Op::Constant(SQRT_DK_BITS)
            &&& insts[b + 20].op is Div && insts[b + 20].operands@ == seq![(b + 18) as usize, (b + 19) as usize]
            &&& insts[b + 21].op is Softmax && insts[b + 21].operands@ == seq![(b + 20) as usize]
            &&& insts[b + 22].op is MatMul && insts[b + 22].operands@ == seq![(b + 21) as usize, (b + 17) as usize]
            &&& insts[b + 24].op is MatMul && insts[b + 24].operands@ == seq![(b + 22) as usize, (b + 23) as usize]
            &&& ev(25) == input + ev(24)
            &&& insts[b + 26].op is ReduceMean && insts[b + 26].operands@ == seq![(b + 25) as usize]
            &&& ev(27) == ev(25) - ev(26)
            &&& ev(28) == ev(27) * ev(27)
            &&& insts[b + 30].op == Op::Constant(EPS_BITS)
            &&& ev(31) == ev(29) + ev(30)
            &&& insts[b + 32].op is Rsqrt && insts[b + 32].operands@ == seq![(b + 31) as usize]
            &&& ev(37) == ev(27) * ev(32) * ev(34) + ev(35)
            &&& insts[b + 39].op is MatMul && insts[b + 39].operands@ == seq![(b + 37) as usize, (b + 38) as usize]
            &&& ev(41) == ev(39) + ev(40)
            &&& insts[b + 42].op is Gelu && insts[b + 42].operands@ == seq![(b + 41) as usize]
            &&& insts[b + 44].op is MatMul && insts[b + 44].operands@ == seq![(b + 42) as usize, (b + 43) as usize]
            &&& ev(47) == ev(25) + (ev(44) + ev(45))
        }),
{
    assert(layer_norm_at(insts, b, inp, layer));
    assert(attention_at(insts, b, inp, layer));
    assert(feed_forward_at(insts, b, inp, layer));
    let ev = |k: int| arith_value(insts, env, b + k);
    assert(ev(1) == arith_value(insts, env, inp as int) - ev(0));
    assert(ev(7) == ev(1) * ev(6));
    assert(ev(10) == ev(7) * ev(8));
    assert(ev(33) == ev(27) * ev(32));
    assert(ev(36) == ev(33) * ev(34));
    assert(ev(46) == ev(44) + ev(45));
}

/// Where layer `l` starts.
pub open spec fn layer_base(l: int) -> int {
    1 + 48 * l
}

/// The input of layer `l`: the input tensor for the first layer, the output
/// of the layer before for the others.
pub open spec fn layer_input(l: int) -> usize {
    (48 * l) as usize
}

/// The transformer: the input tensor at position 0, then `num_layers`
/// layers, each on the output of the one before.
pub open spec fn transformer_program(insts: Seq<Instruction<u64>>, num_layers: int) -> bool {
    &&& insts.len() == 1 + 48 * num_layers
    &&& insts.len() <= usize::MAX
    &&& is_named_input(insts, 0, "input"@)
    &&& forall|l: int| 0 <= l < num_layers ==> #[trigger] layer_at(insts, layer_base(l), layer_input(l), l)
}

/// Build the input tensor and `num_layers` layers. Returns the id of the
/// last layer's output.
fn build_transformer(prog: &mut Program<u64>, num_layers: usize) -> (out: usize)
    requires
        old(prog).instructions@.len() == 0,
        num_layers <= 1000,
    ensures
        final(prog).wf(),
        ssa_ordered(final(prog).instructions@),
        transformer_program(final(prog).instructions@, num_layers as int),
        out == 48 * num_layers,
{
    let inp = contents_input(prog, "input");
    let mut current = inp;
    let mut layer: usize = 0;
    while layer < num_layers
        invariant
            num_layers <= 1000,
            layer <= num_layers,
            prog.wf(),
            ssa_ordered(prog.instructions@),
            prog.instructions@.len() == 1 + 48 * layer,
            is_named_input(prog.instructions@, 0, "input"@),
            forall|l: int| 0 <= l < layer ==> #[trigger] layer_at(prog.instructions@, layer_base(l), layer_input(l), l),
            current == 48 * layer,
        decreases num_layers - layer,
    {
        let ghost before = prog.instructions@;
        current = build_layer(prog, current, layer);
        proof {
            lemma_prefix_same(before, prog.instructions@);
            assert forall|l: int| 0 <= l < layer + 1 implies #[trigger] layer_at(prog.instructions@, layer_base(l), layer_input(l), l) by {
                if l < layer {
                    assert(layer_at(before, layer_base(l), layer_input(l), l));
                }
            }
        }
        layer = layer + 1;
    }
    current
}

proof fn lemma_layer_pos(l: int, k: int)
    requires
        0 <= l,
        0 <= k < 48,
    ensures
        (layer_base(l) + k - 1) / 48 == l,
        (layer_base(l) + k - 1) % 48 == k,
{
    vstd::arithmetic::div_mod::lemma_fundamental_div_mod_converse(layer_base(l) + k - 1, 48, l, k);
}

/// The positions of the offsets of layer `l` and of the layer before.
proof fn lemma_layer_positions(l: int)
    requires
        0 <= l,
    ensures
        forall|k: int| 0 <= k < 48 ==> (#[trigger] (layer_base(l) + k) - 1) / 48 == l && (layer_base(l) + k - 1) % 48 == k,
        l > 0 ==> forall|k: int| 0 <= k < 48 ==> (#[trigger] (layer_base(l - 1) + k) - 1) / 48 == l - 1 && (layer_base(l - 1) + k - 1) % 48 == k,
{
    assert forall|k: int| 0 <= k < 48 implies (#[trigger] (layer_base(l) + k) - 1) / 48 == l && (layer_base(l) + k - 1) % 48 == k by {
        lemma_layer_pos(l, k);
    }
    if l > 0 {
        assert forall|k: int| 0 <= k < 48 implies (#[trigger] (layer_base(l - 1) + k) - 1) / 48 == l - 1 && (layer_base(l - 1) + k - 1) % 48 == k by {
            lemma_layer_pos(l - 1, k);
        }
    }
}

/// Offset `k` of a layer holds an input or a constant.
pub open spec fn layer_leaf(k: int) -> bool {
    k == 4 || k == 8 || k == 9 || k == 12 || k == 13 || k == 14 || k == 19 || k == 23 || k == 30 || k == 34 || k == 35
        || k == 38 || k == 40 || k == 43 || k == 45
}

/// Offset `k` of the first layer is its first reciprocal square root (offset
/// 6) or depends on it.
pub open spec fn first_layer_downstream(k: int) -> bool {
    (k == 6 || k == 7 || k == 10 || k == 11 || k >= 15) && !layer_leaf(k)
}

/// Instruction `j` of a transformer of `n` layers is the first reciprocal
/// square root or depends on it: in the first layer, what follows it; in
/// every later layer, every operation.
pub open spec fn downstream_of_first_rsqrt(j: int, n: int) -> bool {
    &&& 1 <= j < 1 + 48 * n
    &&& if (j - 1) / 48 == 0 {
        first_layer_downstream((j - 1) % 48)
    } else {
        !layer_leaf((j - 1) % 48)
    }
}

/// The sorts static resolution gives a transformer of `n` layers: unknown
/// exactly what waits on the first reciprocal square root, contents the rest.
pub open spec fn transformer_first_sorts(n: int) -> Seq<Sort> {
    Seq::new((1 + 48 * n) as nat, |j: int| if downstream_of_first_rsqrt(j, n) { Sort::Unknown } else { Sort::Contents })
}

/// The operand through which a downstream operation depends on the first
/// reciprocal square root.
pub open spec fn downstream_operand(j: int) -> int {
    if (j - 1) / 48 == 0 && ((j - 1) % 48 == 7 || (j - 1) % 48 == 25) {
        1
    } else {
        0
    }
}

/// Instruction `j` of layer `l` at offset `k`: its structure, read off the
/// layer.
proof fn lemma_locate(insts: Seq<Instruction<u64>>, n: int, j: int) -> (lk: (int, int))
    requires
        transformer_program(insts, n),
        1 <= j < insts.len(),
    ensures
        0 <= lk.0 < n,
        0 <= lk.1 < 48,
        j == layer_base(lk.0) + lk.1,
        (j - 1) / 48 == lk.0,
        (j - 1) % 48 == lk.1,
        layer_at(insts, layer_base(lk.0), layer_input(lk.0), lk.0),
{
    let l = (j - 1) / 48;
    let k = (j - 1) % 48;
    assert(layer_at(insts, layer_base(l), layer_input(l), l));
    (l, k)
}

/// The first resolution is consistent at instruction `j` of layer `l`,
/// offset `k`.
proof fn lemma_first_sort_local(insts: Seq<Instruction<u64>>, n: int, j: int, l: int, k: int)
    requires
        transformer_program(insts, n),
        0 <= l < n,
        0 <= k < 48,
        j == layer_base(l) + k,
        (j - 1) / 48 == l,
        (j - 1) % 48 == k,
        layer_at(insts, layer_base(l), layer_input(l), l),
    ensures
        transformer_first_sorts(n)[j] == local_sort(insts, transformer_first_sorts(n), j),
        downstream_of_first_rsqrt(j, n) && j != 7 ==> 0 <= downstream_operand(j) < insts[j].operands@.len()
            && downstream_of_first_rsqrt(insts[j].operands@[downstream_operand(j)] as int, n),
        !downstream_of_first_rsqrt(j, n) ==> forall|q: int|
            0 <= q < insts[j].operands@.len() ==> !downstream_of_first_rsqrt(#[trigger] insts[j].operands@[q] as int, n),
{
    let t = transformer_first_sorts(n);
    lemma_layer_positions(l);
    let ops = insts[j].operands@;
    let op = insts[j].op;
    assert(forall|i: int| 0 <= i < t.len() ==> t[i] != Sort::Origin);
    if l > 0 {
        assert(layer_input(l) as int == layer_base(l - 1) + 47);
        assert(t[layer_input(l) as int] == Sort::Unknown);
    } else {
        assert(t[layer_input(l) as int] == Sort::Contents);
    }
    if k < 12 {
        assert(layer_norm_at(insts, layer_base(l), layer_input(l), l));
        if !layer_leaf(k) {
            if t[j] == Sort::Contents || (l == 0 && k == 6) {
                lemma_static_sort_of_contents(op, ops, t);
            } else {
                lemma_static_sort_of_unknown(op, ops, t, downstream_operand(j));
            }
        }
    } else if k < 26 {
        assert(attention_at(insts, layer_base(l), layer_input(l), l));
        if !layer_leaf(k) {
            lemma_static_sort_of_unknown(op, ops, t, downstream_operand(j));
        }
    } else {
        assert(feed_forward_at(insts, layer_base(l), layer_input(l), l));
        if !layer_leaf(k) {
            lemma_static_sort_of_unknown(op, ops, t, downstream_operand(j));
        }
    }
}

proof fn lemma_transformer_first_pass(insts: Seq<Instruction<u64>>, n: int)
    requires
        well_formed(insts),
        ssa_ordered(insts),
        transformer_program(insts, n),
        n >= 1,
    ensures
        resolve_pass(insts) == transformer_first_sorts(n),
{
    let t = transformer_first_sorts(n);
    assert forall|j: int| 0 <= j < insts.len() implies #[trigger] t[j] == local_sort(insts, t, j) by {
        if j >= 1 {
            let (l, k) = lemma_locate(insts, n, j);
            lemma_first_sort_local(insts, n, j, l, k);
        }
    }
    law_pass_is_unique_local_solution(insts, t);
}

/// With origin at the first reciprocal square root, the instructions that
/// depend on origin are exactly those downstream of it.
proof fn lemma_transformer_tainted(built: Seq<Instruction<u64>>, injected: Seq<Instruction<u64>>, n: int)
    requires
        well_formed(built),
        ssa_ordered(built),
        transformer_program(built, n),
        n >= 1,
        with_sorts(built, injected, transformer_first_sorts(n).update(7, Sort::Origin)),
    ensures
        forall|j: int| 0 <= j < injected.len() ==> (#[trigger] tainted(injected, j) <==> downstream_of_first_rsqrt(j, n)),
{
    let t = transformer_first_sorts(n);
    let m = |x: int| downstream_of_first_rsqrt(x, n);
    let w = |x: int| injected[x].operands@[downstream_operand(x)] as int;
    assert forall|x: int| 0 <= x < injected.len() implies (#[trigger] m(x) && injected[x].sort != Sort::Origin
        ==> 0 <= w(x) < x && m(w(x)) && uses(injected, x, w(x))) && (!m(x) ==> forall|q: int|
        0 <= q < injected[x].operands@.len() ==> !m(#[trigger] injected[x].operands@[q] as int)) by {
        if x >= 1 {
            let (l, k) = lemma_locate(built, n, x);
            lemma_first_sort_local(built, n, x, l, k);
            if m(x) && injected[x].sort != Sort::Origin {
                assert(injected[x].operands@[downstream_operand(x)] == w(x) as usize);
            }
        } else {
            assert(is_contents_input(built, 0));
        }
    }
    assert forall|x: int| 0 <= x < injected.len() && m(x) && injected[x].sort != Sort::Origin implies 0 <= #[trigger] w(x) < x && m(w(x))
        && uses(injected, x, w(x)) by {
        assert(m(x));
    }
    assert forall|j: int| 0 <= j < injected.len() && downstream_of_first_rsqrt(j, n) implies #[trigger] tainted(injected, j) by {
        lemma_tainted_by_witness(injected, m, w, j);
    }
    assert forall|u: int, v: int| 0 <= u < injected.len() && m(u) && #[trigger] uses(injected, v, u) implies m(v) by {
        assert(m(v) || !m(v));
        if !m(v) {
            let q = choose|q: int| 0 <= q < injected[v].operands@.len() && injected[v].operands@[q] == u as usize;
            assert(!m(injected[v].operands@[q] as int));
        }
    }
    assert forall|v: int| 0 <= v < injected.len() && injected[v].sort == Sort::Origin implies #[trigger] m(v) by {
        assert(v == 7);
    }
    law_fold_within_closed_set(injected, m);
}

/// Offset `k` of a layer is one of its three exception operations: the two
/// reciprocal square roots and the attention division.
pub open spec fn layer_exception(k: int) -> bool {
    k == 6 || k == 20 || k == 32
}

proof fn lemma_offset_counts()
    ensures
        count_if(48, |k: int| first_layer_downstream(k)) == 28,
        count_if(48, |k: int| !layer_leaf(k)) == 33,
        count_if(48, |k: int| !layer_leaf(k) && !first_layer_downstream(k)) == 5,
        count_if(48, |k: int| layer_exception(k)) == 3,
{
    reveal_with_fuel(count_if, 49);
}

/// What the layer at `l` holds at each offset: operations start unknown,
/// inputs and constants are contents, and the exceptions sit at three fixed
/// offsets.
proof fn lemma_layer_offsets(insts: Seq<Instruction<u64>>, l: int)
    requires
        layer_at(insts, layer_base(l), layer_input(l), l),
    ensures
        forall|k: int| 0 <= k < 48 ==> ((#[trigger] insts[layer_base(l) + k]).sort == Sort::Unknown <==> !layer_leaf(k)),
        forall|k: int| 0 <= k < 48 ==> (is_exception((#[trigger] insts[layer_base(l) + k]).op) <==> layer_exception(k)),
        forall|k: int| 0 <= k < 48 ==> (#[trigger] insts[layer_base(l) + k]).sort != Sort::Origin,
{
    let b = layer_base(l);
    assert(layer_norm_at(insts, b, layer_input(l), l));
    assert(attention_at(insts, b, layer_input(l), l));
    assert(feed_forward_at(insts, b, layer_input(l), l));
    assert forall|k: int| 0 <= k < 48 implies ((#[trigger] insts[b + k]).sort == Sort::Unknown <==> !layer_leaf(k))
        && (is_exception(insts[b + k].op) <==> layer_exception(k)) && insts[b + k].sort != Sort::Origin by {
        if k < 12 {
            assert(layer_norm_at(insts, b, layer_input(l), l));
        } else if k < 26 {
            assert(attention_at(insts, b, layer_input(l), l));
        } else {
            assert(feed_forward_at(insts, b, layer_input(l), l));
        }
    }
}

/// The count of the block of 48 positions of layer `l`.
pub open spec fn layer_count(f: spec_fn(int) -> bool, l: int) -> nat {
    count_if(48, |k: int| f(layer_base(l) + k))
}

/// A count over whole layers: the first layer gives `first`, each later one
/// `rest`.
proof fn lemma_count_layers(f: spec_fn(int) -> bool, first: int, rest: int, m: int)
    requires
        0 <= m,
        !f(0),
        forall|l: int| 0 <= l < m ==> #[trigger] layer_count(f, l) == if l == 0 { first } else { rest },
    ensures
        count_if(layer_base(m), f) == if m == 0 { 0 } else { first + rest * (m - 1) },
    decreases m,
{
    if m == 0 {
        lemma_count_if_none(1, f);
    } else {
        lemma_count_layers(f, first, rest, m - 1);
        lemma_count_if_append(layer_base(m - 1), 48, f);
        let g = |k: int| f(layer_base(m - 1) + k);
        lemma_count_if_ext(48, g, |k: int| f(layer_base(m - 1) + k));
        assert(layer_count(f, m - 1) == if m - 1 == 0 { first } else { rest });
        assert(layer_base(m - 1) + 48 == layer_base(m));
        assert(rest * (m - 1) == rest * (m - 2) + rest) by (nonlinear_arith);
    }
}

/// Make the first reciprocal square root of the program origin, as origin
/// entering at the first layer norm. Returns its position, or `None` when
/// the program has none.
fn make_first_rsqrt_origin<C>(prog: &mut Program<C>) -> (found: Option<usize>)
    ensures
        match found {
            Some(i) => {
                &&& i < old(prog).instructions@.len()
                &&& old(prog).instructions@[i as int].op is Rsqrt
                &&& forall|j: int| 0 <= j < i ==> !(#[trigger] old(prog).instructions@[j].op is Rsqrt)
                &&& with_sorts(
                    old(prog).instructions@,
                    final(prog).instructions@,
                    sorts_of(old(prog).instructions@).update(i as int, Sort::Origin),
                )
            },
            None => {
                &&& forall|j: int| 0 <= j < old(prog).instructions@.len() ==> !(#[trigger] old(prog).instructions@[j].op is Rsqrt)
                &&& final(prog).instructions@ == old(prog).instructions@
            },
        },
{
    let ghost insts = prog.instructions@;
    let len = prog.instructions.len();
    let mut i: usize = 0;
    while i < len
        invariant
            insts == prog.instructions@,
            insts == old(prog).instructions@,
            len == insts.len(),
            i <= len,
            forall|j: int| 0 <= j < i ==> !(#[trigger] insts[j].op is Rsqrt),
        decreases len - i,
    {
        if matches!(prog.instructions[i].op, Op::Rsqrt) {
            prog.instructions[i].sort = Sort::Origin;
            assert(with_sorts(insts, prog.instructions@, sorts_of(insts).update(i as int, Sort::Origin)));
            return Some(i);
        }
        i = i + 1;
    }
    None
}

proof fn lemma_layer_counts(built: Seq<Instruction<u64>>, n: int, l: int)
    requires
        transformer_program(built, n),
        0 <= l < n,
    ensures
        layer_count(|j: int| built[j].sort == Sort::Unknown, l) == 33,
        layer_count(|j: int| is_exception(built[j].op), l) == 3,
        layer_count(|j: int| downstream_of_first_rsqrt(j, n), l) == if l == 0 { 28int } else { 33int },
        layer_count(|j: int| built[j].sort == Sort::Unknown && !downstream_of_first_rsqrt(j, n), l) == if l == 0 { 5int } else { 0int },
{
    lemma_offset_counts();
    let f_unk = |j: int| built[j].sort == Sort::Unknown;
    let f_exc = |j: int| is_exception(built[j].op);
    let f_down = |j: int| downstream_of_first_rsqrt(j, n);
    let f_res = |j: int| built[j].sort == Sort::Unknown && !downstream_of_first_rsqrt(j, n);
    assert(layer_at(built, layer_base(l), layer_input(l), l));
    lemma_layer_offsets(built, l);
    lemma_layer_positions(l);
    lemma_count_if_ext(48, |k: int| f_unk(layer_base(l) + k), |k: int| !layer_leaf(k));
    lemma_count_if_ext(48, |k: int| f_exc(layer_base(l) + k), |k: int| layer_exception(k));
    if l == 0 {
        lemma_count_if_ext(48, |k: int| f_down(layer_base(l) + k), |k: int| first_layer_downstream(k));
        lemma_count_if_ext(48, |k: int| f_res(layer_base(l) + k), |k: int| !layer_leaf(k) && !first_layer_downstream(k));
    } else {
        lemma_count_if_ext(48, |k: int| f_down(layer_base(l) + k), |k: int| !layer_leaf(k));
        lemma_count_if_none(48, |k: int| f_res(layer_base(l) + k));
    }
}

/// The sort counts and the exception count of the built transformer, before
/// and after the first resolution.
proof fn lemma_transformer_counts(built: Seq<Instruction<u64>>, n: int)
    requires
        transformer_program(built, n),
        n >= 1,
    ensures
        count_sort(built, Sort::Unknown) == 33 * n,
        count_sort(built, Sort::Origin) == 0,
        count_sort(built, Sort::Container) == 0,
        exception_count(built) == 3 * n,
        count_if(built.len() as int, |j: int| downstream_of_first_rsqrt(j, n)) == 28 + 33 * (n - 1),
        count_if(built.len() as int, |j: int| built[j].sort == Sort::Unknown && !downstream_of_first_rsqrt(j, n)) == 5,
{
    lemma_offset_counts();
    let f_unk = |j: int| built[j].sort == Sort::Unknown;
    let f_exc = |j: int| is_exception(built[j].op);
    let f_down = |j: int| downstream_of_first_rsqrt(j, n);
    let f_res = |j: int| built[j].sort == Sort::Unknown && !downstream_of_first_rsqrt(j, n);
    assert(is_contents_input(built, 0));
    assert forall|l: int| 0 <= l < n implies #[trigger] layer_count(f_unk, l) == 33 by {
        lemma_layer_counts(built, n, l);
    }
    assert forall|l: int| 0 <= l < n implies #[trigger] layer_count(f_exc, l) == 3 by {
        lemma_layer_counts(built, n, l);
    }
    assert forall|l: int| 0 <= l < n implies #[trigger] layer_count(f_down, l) == (if l == 0 { 28int } else { 33int }) by {
        lemma_layer_counts(built, n, l);
    }
    assert forall|l: int| 0 <= l < n implies #[trigger] layer_count(f_res, l) == (if l == 0 { 5int } else { 0int }) by {
        lemma_layer_counts(built, n, l);
    }
    lemma_count_layers(f_unk, 33, 33, n);
    lemma_count_layers(f_exc, 3, 3, n);
    lemma_count_layers(f_down, 28, 33, n);
    lemma_count_layers(f_res, 5, 0, n);
    assert(33 + 33 * (n - 1) == 33 * n);
    assert(3 + 3 * (n - 1) == 3 * n);
    assert forall|j: int| 0 <= j < built.len() implies #[trigger] built[j].sort != Sort::Origin && built[j].sort != Sort::Container by {
        if j >= 1 {
            let (l, k) = lemma_locate(built, n, j);
            lemma_layer_offsets(built, l);
            assert(built[layer_base(l) + k].sort != Sort::Origin);
        }
    }
    lemma_count_if_none(built.len() as int, |j: int| built[j].sort == Sort::Origin);
    lemma_count_if_none(built.len() as int, |j: int| built[j].sort == Sort::Container);
}

/// The first reciprocal square root of the resolved transformer is at
/// position 7, in the first layer norm.
proof fn lemma_first_rsqrt_at_seven(built: Seq<Instruction<u64>>, resolved: Seq<Instruction<u64>>, found: Option<usize>)
    requires
        transformer_program(built, 4),
        with_sorts(built, resolved, fixpoint_sorts(built)),
        fixpoint_sorts(built) == transformer_first_sorts(4),
        match found {
            Some(i) => {
                &&& i < resolved.len()
                &&& resolved[i as int].op is Rsqrt
                &&& forall|j: int| 0 <= j < i ==> !(#[trigger] resolved[j].op is Rsqrt)
            },
            None => forall|j: int| 0 <= j < resolved.len() ==> !(#[trigger] resolved[j].op is Rsqrt),
        },
    ensures
        found == Some(7usize),
        sorts_of(resolved) == transformer_first_sorts(4),
{
    assert(layer_at(built, layer_base(0), layer_input(0), 0));
    lemma_layer_offsets(built, 0);
    assert(layer_norm_at(built, 1, 0, 0));
    assert(resolved[7].op is Rsqrt);
    assert forall|j: int| 0 <= j < 7 implies !(#[trigger] resolved[j].op is Rsqrt) by {
        if j == 0 {
            assert(is_contents_input(built, 0));
        } else {
            assert(built[layer_base(0) + (j - 1)] == built[j]);
        }
    }
    assert(sorts_of(resolved) =~= transformer_first_sorts(4));
}

/// With origin entering at the first reciprocal square root of a resolved
/// transformer, folding turns every downstream operation into origin.
proof fn lemma_origin_entry(built: Seq<Instruction<u64>>, injected: Seq<Instruction<u64>>, n: int)
    requires
        well_formed(built),
        ssa_ordered(built),
        transformer_program(built, n),
        n >= 1,
        with_sorts(built, injected, transformer_first_sorts(n).update(7, Sort::Origin)),
    ensures
        foldable_count(injected) == 27 + 33 * (n - 1),
        count_if(injected.len() as int, |j: int| fold_sorts(injected)[j] == Sort::Origin) == 28 + 33 * (n - 1),
{
    lemma_transformer_tainted(built, injected, n);
    lemma_transformer_counts(built, n);
    let len = injected.len() as int;
    let down = |j: int| downstream_of_first_rsqrt(j, n);
    lemma_count_if_ext(len, |j: int| fold_sorts(injected)[j] == Sort::Origin, down);
    lemma_count_if_ext(len, |j: int| tainted(injected, j) && injected[j].sort != Sort::Origin, |j: int| down(j) && j != 7);
    crate::count::lemma_count_if_add_one(len, |j: int| down(j) && j != 7, down, 7);
}

/// The result of the quiet run.
pub struct TransformerResult {
    /// Operations in the forward pass.
    pub total: usize,
    /// Exception operations: the only ones that need a runtime check.
    pub exception_ops: usize,
    /// Operations that are origin once origin enters at the first layer
    /// norm and folds.
    pub foldable: usize,
}

/// Build the 4-layer forward pass, count its exception operations, resolve
/// it, let origin enter at the first layer norm and fold: 193 operations,
/// 12 exceptions, 127 operations origin.
pub fn run_benchmark_quiet() -> (r: TransformerResult)
    ensures
        r.total == 193,
        r.exception_ops == 12,
        r.foldable == 127,
{
    let mut prog: Program<u64> = Program::new();
    build_transformer(&mut prog, 4);
    let total = prog.instructions.len();
    let exception_ops = count_exception_ops(&prog);
    let ghost built = prog.instructions@;
    proof {
        lemma_transformer_counts(built, 4);
        lemma_transformer_first_pass(built, 4);
        law_one_pass_suffices(built);
    }
    resolve_to_fixpoint(&mut prog);
    let ghost resolved = prog.instructions@;
    let found = make_first_rsqrt_origin(&mut prog);
    let ghost injected = prog.instructions@;
    proof {
        lemma_first_rsqrt_at_seven(built, resolved, found);
        lemma_origin_entry(built, injected, 4);
    }
    fold_origin(&mut prog);
    let counts = prog.count_by_sort();
    proof {
        let fin = prog.instructions@;
        lemma_count_if_ext(193, |j: int| fin[j].sort == Sort::Origin, |j: int| fold_sorts(injected)[j] == Sort::Origin);
    }
    TransformerResult { total, exception_ops, foldable: counts.origin }
}

/// What the full analysis of the forward pass reports.
pub struct TransformerReport {
    /// Operations in the forward pass.
    pub total: usize,
    /// Sort counts as built.
    pub before: SortCounts,
    /// Sort counts after static resolution.
    pub after_resolve: SortCounts,
    /// Sorts static resolution resolved.
    pub resolved: usize,
    /// Sort counts after origin folding.
    pub after_fold: SortCounts,
    /// Operations origin folding folded.
    pub folded: usize,
    /// Exception operations: the only ones that need a runtime check.
    pub exception_ops: usize,
    /// Operations that fold when origin enters at the first layer norm.
    pub foldable: usize,
}

/// Build the 4-layer forward pass and run both passes on it, then let
/// origin enter at the first layer norm and fold. Of 193 operations, 61 are
/// contents and 132 unknown as built; resolution resolves 5, leaving 66
/// contents and 127 unknown (everything that waits on the first layer norm);
/// folding finds no origin; 12 operations are exceptions; and origin at the
/// first layer norm folds 126 operations.
pub fn benchmark_report() -> (r: TransformerReport)
    ensures
        r.total == 193,
        r.before.contents == 61 && r.before.container == 0 && r.before.origin == 0 && r.before.unknown == 132,
        r.before.total == 193,
        r.after_resolve.contents == 66 && r.after_resolve.container == 0 && r.after_resolve.origin == 0,
        r.after_resolve.unknown == 127 && r.after_resolve.total == 193,
        r.resolved == 5,
        r.after_fold.contents == 66 && r.after_fold.container == 0 && r.after_fold.origin == 0,
        r.after_fold.unknown == 127 && r.after_fold.total == 193,
        r.folded == 0,
        r.exception_ops == 12,
        r.foldable == 126,
{
    let mut prog: Program<u64> = Program::new();
    build_transformer(&mut prog, 4);
    let total = prog.instructions.len();
    let ghost built = prog.instructions@;
    let before = prog.count_by_sort();
    proof {
        lemma_transformer_counts(built, 4);
        lemma_transformer_first_pass(built, 4);
        law_one_pass_suffices(built);
        lemma_count_if_ext(
            193,
            |j: int| built[j].sort == Sort::Unknown && crate::pass_resolve::resolve_prefix(built, 193)[j] != Sort::Unknown,
            |j: int| built[j].sort == Sort::Unknown && !downstream_of_first_rsqrt(j, 4),
        );
    }
    let resolved = resolve_to_fixpoint(&mut prog);
    let ghost res = prog.instructions@;
    let after_resolve = prog.count_by_sort();
    proof {
        let t = transformer_first_sorts(4);
        lemma_count_if_ext(193, |j: int| res[j].sort == Sort::Unknown, |j: int| downstream_of_first_rsqrt(j, 4));
        assert forall|j: int| 0 <= j < 193 implies #[trigger] res[j].sort != Sort::Origin && res[j].sort != Sort::Container by {
            assert(res[j].sort == t[j]);
        }
        lemma_count_if_none(193, |j: int| res[j].sort == Sort::Origin);
        lemma_count_if_none(193, |j: int| res[j].sort == Sort::Container);
        law_closed_program_folds_nothing(res);
    }
    let folded = fold_origin(&mut prog);
    proof {
        assert(prog.instructions@ =~= res);
    }
    let after_fold = prog.count_by_sort();
    let exception_ops = count_exception_ops(&prog);
    proof {
        lemma_count_if_ext(193, |j: int| is_exception(prog.instructions@[j].op), |j: int| is_exception(built[j].op));
    }
    let found = make_first_rsqrt_origin(&mut prog);
    let ghost injected = prog.instructions@;
    proof {
        lemma_first_rsqrt_at_seven(built, res, found);
        lemma_origin_entry(built, injected, 4);
    }
    let foldable = fold_origin(&mut prog);
    TransformerReport { total, before, after_resolve, resolved, after_fold, folded, exception_ops, foldable }
}

} // verus!
