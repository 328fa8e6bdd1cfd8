//! Helpers that append instructions to a program while keeping it
//! well-formed and in SSA order.
use vstd::prelude::*;
use crate::ir::{ssa_ordered, Instruction, Op, Program, Sort};

verus! {

/// Instruction `i` is a contents input without operands.
pub open spec fn is_contents_input<C>(insts: Seq<Instruction<C>>, i: int) -> bool {
    &&& insts[i].op matches Op::Input { sort: Sort::Contents, .. }
    &&& insts[i].operands@.len() == 0
    &&& insts[i].sort == Sort::Contents
}

/// Instruction `i` is the operation `op` on `ops`, not yet resolved.
pub open spec fn is_node<C>(insts: Seq<Instruction<C>>, i: int, op: Op<C>, ops: Seq<usize>) -> bool {
    &&& insts[i].op == op
    &&& insts[i].operands@ == ops
    &&& insts[i].sort == Sort::Unknown
}

/// Instruction `i` is a contents input named `name`, without operands.
pub open spec fn is_named_input<C>(insts: Seq<Instruction<C>>, i: int, name: Seq<char>) -> bool {
    &&& is_contents_input(insts, i)
    &&& insts[i].op matches Op::Input { name: n, .. } && n@ == name
}

/// `prefix`, an underscore and `index` in decimal.
pub open spec fn indexed(prefix: Seq<char>, index: nat) -> Seq<char> {
    prefix + seq!['_'] + decimal(index)
}

/// Append a contents input named `name`.
pub fn contents_input(prog: &mut Program<u64>, name: &str) -> (id: usize)
    requires
        old(prog).wf(),
        ssa_ordered(old(prog).instructions@),
    ensures
        final(prog).wf(),
        ssa_ordered(final(prog).instructions@),
        id == old(prog).instructions@.len(),
        final(prog).instructions@.len() == id + 1,
        final(prog).instructions@.subrange(0, id as int) == old(prog).instructions@,
        is_named_input(final(prog).instructions@, id as int, name@),
{
    prog.add(Op::Input { name: name.to_string(), sort: Sort::Contents }, Vec::new())
}

/// Append a two-operand operation.
pub fn binary(prog: &mut Program<u64>, op: Op<u64>, x: usize, y: usize) -> (id: usize)
    requires
        old(prog).wf(),
        ssa_ordered(old(prog).instructions@),
        x < old(prog).instructions@.len(),
        y < old(prog).instructions@.len(),
        initial_unknown(op),
    ensures
        final(prog).wf(),
        ssa_ordered(final(prog).instructions@),
        id == old(prog).instructions@.len(),
        final(prog).instructions@.len() == id + 1,
        final(prog).instructions@.subrange(0, id as int) == old(prog).instructions@,
        is_node(final(prog).instructions@, id as int, op, seq![x, y]),
{
    let ghost o = op;
    let id = prog.add(op, vec![x, y]);
    assert(prog.instructions@.subrange(0, id as int) =~= old(prog).instructions@);
    id
}


/// Instruction `i` is the constant `value`, without operands.
pub open spec fn is_constant<C>(insts: Seq<Instruction<C>>, i: int, value: C) -> bool {
    &&& insts[i].op == Op::Constant(value)
    &&& insts[i].operands@.len() == 0
    &&& insts[i].sort == Sort::Contents
}

/// An operation that `Program::add` leaves unknown.
pub open spec fn initial_unknown<C>(op: Op<C>) -> bool {
    !(op is Constant) && !(op is Input)
}

/// Append a constant, given by the bit pattern of its IEEE-754 binary64
/// value.
pub fn constant(prog: &mut Program<u64>, bits: u64) -> (id: usize)
    requires
        old(prog).wf(),
        ssa_ordered(old(prog).instructions@),
    ensures
        final(prog).wf(),
        ssa_ordered(final(prog).instructions@),
        id == old(prog).instructions@.len(),
        final(prog).instructions@.len() == id + 1,
        final(prog).instructions@.subrange(0, id as int) == old(prog).instructions@,
        is_constant(final(prog).instructions@, id as int, bits),
{
    prog.add(Op::Constant(bits), Vec::new())
}

/// Append a one-operand operation.
pub fn unary(prog: &mut Program<u64>, op: Op<u64>, x: usize) -> (id: usize)
    requires
        old(prog).wf(),
        ssa_ordered(old(prog).instructions@),
        x < old(prog).instructions@.len(),
        initial_unknown(op),
    ensures
        final(prog).wf(),
        ssa_ordered(final(prog).instructions@),
        id == old(prog).instructions@.len(),
        final(prog).instructions@.len() == id + 1,
        final(prog).instructions@.subrange(0, id as int) == old(prog).instructions@,
        is_node(final(prog).instructions@, id as int, op, seq![x]),
{
    let id = prog.add(op, vec![x]);
    assert(prog.instructions@.subrange(0, id as int) =~= old(prog).instructions@);
    assert(prog.instructions@[id as int].operands@ =~= seq![x]);
    id
}

/// The decimal digits of `n`, most significant first.
pub open spec fn decimal(n: nat) -> Seq<char>
    decreases n,
{
    if n < 10 {
        seq![digit_char(n)]
    } else {
        decimal(n / 10).push(digit_char(n % 10))
    }
}

/// The character of a decimal digit.
pub open spec fn digit_char(d: nat) -> char {
    if d == 0 { '0' } else if d == 1 { '1' } else if d == 2 { '2' } else if d == 3 { '3' } else if d == 4 { '4' }
    else if d == 5 { '5' } else if d == 6 { '6' } else if d == 7 { '7' } else if d == 8 { '8' } else { '9' }
}

/// `prefix`, an underscore and `index` in decimal.
///
/// Trusted: the body calls std's `format!("{}_{}", prefix, index)`, and the
/// contract claims what std documents of it: the string is `prefix`, then
/// `_`, then `index` as `usize`'s `Display` writes it, in decimal digits
/// without sign or leading zeros.
#[verifier::external_body]
pub(crate) fn indexed_name(prefix: &str, index: usize) -> (name: String)
    ensures
        name@ == indexed(prefix@, index as nat),
{
    format!("{}_{}", prefix, index)
}

/// Append an input of the given sort.
pub fn input(prog: &mut Program<u64>, name: String, sort: Sort) -> (id: usize)
    requires
        old(prog).wf(),
        ssa_ordered(old(prog).instructions@),
    ensures
        final(prog).wf(),
        ssa_ordered(final(prog).instructions@),
        id == old(prog).instructions@.len(),
        final(prog).instructions@.len() == id + 1,
        final(prog).instructions@.subrange(0, id as int) == old(prog).instructions@,
        final(prog).instructions@[id as int].op == (Op::<u64>::Input { name, sort }),
        final(prog).instructions@[id as int].operands@.len() == 0,
        final(prog).instructions@[id as int].sort == sort,
{
    prog.add(Op::Input { name, sort }, Vec::new())
}

/// A sequence that starts with `a` agrees with `a` on its positions.
pub proof fn lemma_prefix_same<T>(a: Seq<T>, b: Seq<T>)
    requires
        a.len() <= b.len(),
        b.subrange(0, a.len() as int) == a,
    ensures
        forall|i: int| 0 <= i < a.len() ==> #[trigger] b[i] == a[i],
{
    assert forall|i: int| 0 <= i < a.len() implies #[trigger] b[i] == a[i] by {
        assert(b.subrange(0, a.len() as int)[i] == b[i]);
    }
}

} // verus!
