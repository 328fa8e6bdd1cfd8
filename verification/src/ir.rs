//! The IR graph representation.
//!
//! A program is a list of instructions in SSA form. Each instruction has an
//! opcode, operand references and a sort. The sort starts as `Unknown` and is
//! resolved by the passes.
//!
//! The payload of a constant is a type parameter `C`: the passes never read
//! it, they only carry it.
use vstd::prelude::*;
use crate::count::count_if;

verus! {

/// The sort of a value at the IR level.
#[derive(Debug, Clone, Copy, PartialEq, Eq, Structural)]
pub enum Sort {
    /// Safe territory. Arithmetic lives here.
    Contents,
    /// Boundary crossed. Last known value preserved.
    Container,
    /// Nothing to retrieve. Everything downstream folds.
    Origin,
    /// Not yet resolved. The passes will determine this.
    Unknown,
}

/// The operations the IR supports.
#[derive(Debug, Clone, PartialEq)]
pub enum Op<C> {
    /// A known constant value. Always contents.
    Constant(C),
    /// An external input. Sort depends on declaration.
    Input { name: String, sort: Sort },
    /// Non-exception operations. Follow the universal pattern.
    Add,
    Sub,
    Mul,
    /// Exception operations. Sort transition depends on inner values.
    Div,
    Sqrt,
    Log,
    Exp,
    /// Tensor operations (sort follows the universal pattern on tensors).
    MatMul,
    /// Layer norm components.
    ReduceSum,
    ReduceMean,
    /// Activation functions.
    Relu,
    Gelu,
    Softmax,
    /// Element-wise.
    Rsqrt,
}

/// A single instruction in the IR.
#[derive(Debug, Clone)]
pub struct Instruction<C> {
    /// Unique identifier: the instruction's position in its program.
    pub id: usize,
    /// The operation.
    pub op: Op<C>,
    /// References to operand instructions (by id).
    pub operands: Vec<usize>,
    /// The resolved sort of this instruction's result.
    pub sort: Sort,
}

/// A program: a list of instructions in SSA form.
#[derive(Debug, Clone)]
pub struct Program<C> {
    pub instructions: Vec<Instruction<C>>,
}

/// Instruction counts by sort.
#[derive(Debug, Default)]
pub struct SortCounts {
    pub contents: usize,
    pub container: usize,
    pub origin: usize,
    pub unknown: usize,
    pub total: usize,
}

/// Whether an operation is an exception: its sort transition depends on the
/// inner values, so no static rule decides it.
pub open spec fn is_exception<C>(op: Op<C>) -> bool {
    op is Div || op is Sqrt || op is Log || op is Rsqrt
}

/// The sort that `Program::add` gives a new instruction.
pub open spec fn initial_sort<C>(op: Op<C>) -> Sort {
    match op {
        Op::Constant(_) => Sort::Contents,
        Op::Input { sort, .. } => sort,
        _ => Sort::Unknown,
    }
}

/// Every instruction's id is its position, and every operand names an
/// instruction of the program.
pub open spec fn well_formed<C>(insts: Seq<Instruction<C>>) -> bool {
    &&& forall|i: int| 0 <= i < insts.len() ==> (#[trigger] insts[i]).id == i
    &&& forall|i: int, k: int|
        0 <= i < insts.len() && 0 <= k < insts[i].operands@.len() ==> (#[trigger] insts[i].operands@[k]) < insts.len()
}

/// SSA order: every operand is defined before the instruction that uses it.
pub open spec fn ssa_ordered<C>(insts: Seq<Instruction<C>>) -> bool {
    forall|i: int, k: int|
        0 <= i < insts.len() && 0 <= k < insts[i].operands@.len() ==> (#[trigger] insts[i].operands@[k]) < i
}

/// The number of instructions of the given sort.
pub open spec fn count_sort<C>(insts: Seq<Instruction<C>>, s: Sort) -> nat {
    count_if(insts.len() as int, |i: int| insts[i].sort == s)
}

impl<C> Program<C> {
    pub open spec fn wf(&self) -> bool {
        well_formed(self.instructions@)
    }

    pub fn new() -> (p: Self)
        ensures
            p.instructions@.len() == 0,
    {
        Program { instructions: Vec::new() }
    }

    /// Add an instruction and return its id: its position in the program.
    /// Constants are contents, an input carries its declared sort, and every
    /// other operation starts unknown.
    pub fn add(&mut self, op: Op<C>, operands: Vec<usize>) -> (id: usize)
        ensures
            id == old(self).instructions@.len(),
            final(self).instructions@ == old(self).instructions@.push(
                Instruction { id, op, operands, sort: initial_sort(op) },
            ),
            op is Constant ==> final(self).instructions@[id as int].sort == Sort::Contents,
            op matches Op::Input { sort, .. } ==> final(self).instructions@[id as int].sort == sort,
            !(op is Constant) && !(op is Input) ==> final(self).instructions@[id as int].sort == Sort::Unknown,
            old(self).wf() && (forall|k: int| 0 <= k < operands@.len() ==> operands@[k] <= id) ==> final(self).wf(),
            ssa_ordered(old(self).instructions@) && (forall|k: int| 0 <= k < operands@.len() ==> operands@[k] < id)
                ==> ssa_ordered(final(self).instructions@),
    {
        let id = self.instructions.len();
        let sort = match &op {
            Op::Constant(_) => Sort::Contents,
            Op::Input { sort, .. } => *sort,
            _ => Sort::Unknown,
        };
        self.instructions.push(Instruction { id, op, operands, sort });
        id
    }

    /// Count the instructions at positions `start..end` by sort.
    pub fn count_by_sort_in(&self, start: usize, end: usize) -> (counts: SortCounts)
        requires
            start <= end <= self.instructions@.len(),
        ensures
            counts.contents == count_if(end - start, |k: int| self.instructions@[start + k].sort == Sort::Contents),
            counts.container == count_if(end - start, |k: int| self.instructions@[start + k].sort == Sort::Container),
            counts.origin == count_if(end - start, |k: int| self.instructions@[start + k].sort == Sort::Origin),
            counts.unknown == count_if(end - start, |k: int| self.instructions@[start + k].sort == Sort::Unknown),
            counts.total == end - start,
            counts.contents + counts.container + counts.origin + counts.unknown == counts.total,
    {
        let ghost insts = self.instructions@;
        let mut counts = SortCounts { contents: 0, container: 0, origin: 0, unknown: 0, total: 0 };
        let mut i: usize = start;
        while i < end
            invariant
                insts == self.instructions@,
                start <= i <= end <= insts.len(),
                counts.contents == count_if(i - start, |k: int| insts[start + k].sort == Sort::Contents),
                counts.container == count_if(i - start, |k: int| insts[start + k].sort == Sort::Container),
                counts.origin == count_if(i - start, |k: int| insts[start + k].sort == Sort::Origin),
                counts.unknown == count_if(i - start, |k: int| insts[start + k].sort == Sort::Unknown),
                counts.contents + counts.container + counts.origin + counts.unknown == i - start,
            decreases end - i,
        {
            match self.instructions[i].sort {
                Sort::Contents => counts.contents = counts.contents + 1,
                Sort::Container => counts.container = counts.container + 1,
                Sort::Origin => counts.origin = counts.origin + 1,
                Sort::Unknown => counts.unknown = counts.unknown + 1,
            }
            i = i + 1;
        }
        counts.total = end - start;
        counts
    }

    /// Count instructions by sort.
    pub fn count_by_sort(&self) -> (counts: SortCounts)
        ensures
            counts.contents == count_sort(self.instructions@, Sort::Contents),
            counts.container == count_sort(self.instructions@, Sort::Container),
            counts.origin == count_sort(self.instructions@, Sort::Origin),
            counts.unknown == count_sort(self.instructions@, Sort::Unknown),
            counts.total == self.instructions@.len(),
            counts.contents + counts.container + counts.origin + counts.unknown == counts.total,
    {
        let ghost insts = self.instructions@;
        let mut counts = SortCounts { contents: 0, container: 0, origin: 0, unknown: 0, total: 0 };
        let n = self.instructions.len();
        let mut i: usize = 0;
        while i < n
            invariant
                n == insts.len(),
                insts == self.instructions@,
                i <= n,
                counts.contents == count_if(i as int, |j: int| insts[j].sort == Sort::Contents),
                counts.container == count_if(i as int, |j: int| insts[j].sort == Sort::Container),
                counts.origin == count_if(i as int, |j: int| insts[j].sort == Sort::Origin),
                counts.unknown == count_if(i as int, |j: int| insts[j].sort == Sort::Unknown),
                counts.contents + counts.container + counts.origin + counts.unknown == i,
            decreases n - i,
        {
            match self.instructions[i].sort {
                Sort::Contents => counts.contents = counts.contents + 1,
                Sort::Container => counts.container = counts.container + 1,
                Sort::Origin => counts.origin = counts.origin + 1,
                Sort::Unknown => counts.unknown = counts.unknown + 1,
            }
            i = i + 1;
        }
        counts.total = n;
        counts
    }
}

/// Determine if an operation is an exception (its sort transition depends on
/// inner values).
pub fn is_exception_op<C>(op: &Op<C>) -> (b: bool)
    ensures
        b == is_exception(*op),
        b <==> (*op is Div || *op is Sqrt || *op is Log || *op is Rsqrt),
{
    match op {
        Op::Div | Op::Sqrt | Op::Log | Op::Rsqrt => true,
        _ => false,
    }
}

/// The value of instruction `i` over the integers: additions,
/// subtractions and multiplications compute on the values of their
/// operands; every other instruction (inputs, constants, and the operations
/// whose value is not a ring operation) takes its value from `env`.
pub open spec fn arith_value<C>(insts: Seq<Instruction<C>>, env: spec_fn(int) -> int, i: int) -> int
    decreases i,
{
    if 0 <= i < insts.len() {
        let ops = insts[i].operands@;
        let l = if ops.len() > 0 && ops[0] < i { arith_value(insts, env, ops[0] as int) } else { 0 };
        let r = if ops.len() > 1 && ops[1] < i { arith_value(insts, env, ops[1] as int) } else { 0 };
        match insts[i].op {
            Op::Add => l + r,
            Op::Sub => l - r,
            Op::Mul => l * r,
            _ => env(i),
        }
    } else {
        0
    }
}

/// The number of exception operations among the instructions.
pub open spec fn exception_count<C>(insts: Seq<Instruction<C>>) -> nat {
    count_if(insts.len() as int, |i: int| is_exception(insts[i].op))
}

/// Count the exception operations of a program: the only operations that
/// need a runtime check.
pub fn count_exception_ops<C>(prog: &Program<C>) -> (n: usize)
    ensures
        n == exception_count(prog.instructions@),
{
    let ghost insts = prog.instructions@;
    let len = prog.instructions.len();
    let mut n: usize = 0;
    let mut i: usize = 0;
    while i < len
        invariant
            insts == prog.instructions@,
            len == insts.len(),
            i <= len,
            n == count_if(i as int, |j: int| is_exception(insts[j].op)),
            n <= i,
        decreases len - i,
    {
        if is_exception_op(&prog.instructions[i].op) {
            n = n + 1;
        }
        i = i + 1;
    }
    n
}

} // verus!
