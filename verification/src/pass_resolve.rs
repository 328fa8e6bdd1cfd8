//! Pass 1: static sort resolution.
//!
//! Walk the IR and resolve every sort provable at compile time. Constants
//! are contents. Operations on known-contents operands produce contents.
//! Origin absorbs. Container propagates. The lattice does the work.
use vstd::prelude::*;
use crate::count::{count_if, lemma_count_if_ext, lemma_count_if_bounded, lemma_count_if_split, lemma_count_if_witness};
use crate::ir::{count_sort, is_exception, is_exception_op, ssa_ordered, well_formed, Instruction, Op, Program, Sort};

verus! {

/// The sorts of a list of instructions.
pub open spec fn sorts_of<C>(insts: Seq<Instruction<C>>) -> Seq<Sort> {
    insts.map_values(|x: Instruction<C>| x.sort)
}

/// The sorts of the given operands.
pub open spec fn operand_sorts(operands: Seq<usize>, s: Seq<Sort>) -> Seq<Sort> {
    operands.map_values(|o: usize| s[o as int])
}

/// The sort of one instruction given its operand sorts: origin absorbs even
/// beside unknown operands; otherwise an unknown operand leaves the result
/// unknown; otherwise container propagates; otherwise (all contents) a
/// non-exception operation is contents and an exception stays unknown.
pub open spec fn static_sort<C>(op: Op<C>, ss: Seq<Sort>) -> Sort {
    if ss.contains(Sort::Origin) {
        Sort::Origin
    } else if ss.contains(Sort::Unknown) {
        Sort::Unknown
    } else if ss.contains(Sort::Container) {
        Sort::Container
    } else if is_exception(op) {
        Sort::Unknown
    } else {
        Sort::Contents
    }
}

/// The sort instruction `i` gets when the pass reaches it while the sorts
/// are `s`: a resolved sort or an input's declared sort is kept.
pub open spec fn resolve_step<C>(inst: Instruction<C>, s: Seq<Sort>, i: int) -> Sort {
    if s[i] != Sort::Unknown || inst.op is Input {
        s[i]
    } else {
        static_sort(inst.op, operand_sorts(inst.operands@, s))
    }
}

/// The sorts after the pass has visited the first `k` instructions in order.
pub open spec fn resolve_prefix<C>(insts: Seq<Instruction<C>>, k: nat) -> Seq<Sort>
    decreases k,
{
    if k == 0 {
        sorts_of(insts)
    } else {
        let s = resolve_prefix(insts, (k - 1) as nat);
        s.update(k - 1, resolve_step(insts[k - 1], s, k - 1))
    }
}

/// The sorts after one full forward pass.
pub open spec fn resolve_pass<C>(insts: Seq<Instruction<C>>) -> Seq<Sort> {
    resolve_prefix(insts, insts.len())
}

/// The instructions among the first `k` that the pass moves from unknown to
/// a resolved sort.
pub open spec fn resolved_within<C>(insts: Seq<Instruction<C>>, k: nat) -> nat {
    count_if(
        k as int,
        |j: int| insts[j].sort == Sort::Unknown && resolve_prefix(insts, k)[j] != Sort::Unknown,
    )
}

/// The number of sorts one pass resolves.
pub open spec fn resolved_count<C>(insts: Seq<Instruction<C>>) -> nat {
    resolved_within(insts, insts.len())
}

/// `b` is `a` with the same ids, operations and operands, and sorts `s`.
pub open spec fn with_sorts<C>(a: Seq<Instruction<C>>, b: Seq<Instruction<C>>, s: Seq<Sort>) -> bool {
    &&& b.len() == a.len()
    &&& s.len() == a.len()
    &&& forall|i: int|
        0 <= i < a.len() ==> (#[trigger] b[i]).id == a[i].id && b[i].op == a[i].op && b[i].operands
            == a[i].operands && b[i].sort == s[i]
}

proof fn lemma_resolve_prefix_facts<C>(insts: Seq<Instruction<C>>, k: nat)
    requires
        k <= insts.len(),
    ensures
        resolve_prefix(insts, k).len() == insts.len(),
        forall|j: int| k <= j < insts.len() ==> #[trigger] resolve_prefix(insts, k)[j] == insts[j].sort,
        forall|j: int|
            0 <= j < k ==> #[trigger] resolve_prefix(insts, k)[j] == resolve_prefix(insts, (j + 1) as nat)[j],
        forall|j: int|
            0 <= j < insts.len() && insts[j].sort != Sort::Unknown ==> #[trigger] resolve_prefix(insts, k)[j]
                == insts[j].sort,
    decreases k,
{
    if k > 0 {
        lemma_resolve_prefix_facts(insts, (k - 1) as nat);
    }
}

proof fn lemma_resolved_within_step<C>(insts: Seq<Instruction<C>>, i: nat)
    requires
        i < insts.len(),
    ensures
        resolved_within(insts, i + 1) == resolved_within(insts, i) + if insts[i as int].sort == Sort::Unknown
            && resolve_prefix(insts, i + 1)[i as int] != Sort::Unknown {
            1nat
        } else {
            0nat
        },
        resolved_within(insts, i) <= i,
{
    let f = |j: int| insts[j].sort == Sort::Unknown && resolve_prefix(insts, i)[j] != Sort::Unknown;
    let g = |j: int| insts[j].sort == Sort::Unknown && resolve_prefix(insts, i + 1)[j] != Sort::Unknown;
    lemma_resolve_prefix_facts(insts, i);
    assert forall|j: int| 0 <= j < i implies #[trigger] f(j) == g(j) by {
        assert(resolve_prefix(insts, i + 1)[j] == resolve_prefix(insts, i)[j]);
    }
    lemma_count_if_ext(i as int, f, g);
    lemma_count_if_bounded(i as int, f);
}

/// Resolve the sort of a single instruction given its operand sorts.
fn resolve_instruction_sort<C>(op: &Op<C>, operand_sorts: &[Sort]) -> (s: Sort)
    ensures
        s == static_sort(*op, operand_sorts@),
{
    let mut has_unknown = false;
    let mut has_origin = false;
    let mut has_container = false;
    let mut k: usize = 0;
    while k < operand_sorts.len()
        invariant
            k <= operand_sorts@.len(),
            has_unknown == exists|j: int| 0 <= j < k && operand_sorts@[j] == Sort::Unknown,
            has_origin == exists|j: int| 0 <= j < k && operand_sorts@[j] == Sort::Origin,
            has_container == exists|j: int| 0 <= j < k && operand_sorts@[j] == Sort::Container,
        decreases operand_sorts@.len() - k,
    {
        let s = operand_sorts[k];
        if s == Sort::Unknown {
            has_unknown = true;
        }
        if s == Sort::Origin {
            has_origin = true;
        }
        if s == Sort::Container {
            has_container = true;
        }
        k = k + 1;
    }
    proof {
        if has_origin {
            let j = choose|j: int| 0 <= j < k && operand_sorts@[j] == Sort::Origin;
            assert(operand_sorts@.contains(operand_sorts@[j]));
        }
        if has_unknown {
            let j = choose|j: int| 0 <= j < k && operand_sorts@[j] == Sort::Unknown;
            assert(operand_sorts@.contains(operand_sorts@[j]));
        }
        if has_container {
            let j = choose|j: int| 0 <= j < k && operand_sorts@[j] == Sort::Container;
            assert(operand_sorts@.contains(operand_sorts@[j]));
        }
    }
    if has_origin {
        return Sort::Origin;
    }
    if has_unknown {
        return Sort::Unknown;
    }
    if has_container {
        return Sort::Container;
    }
    if is_exception_op(op) {
        Sort::Unknown
    } else {
        Sort::Contents
    }
}

/// Resolve sorts for all instructions in the program in one forward pass.
/// Returns the number of sorts that were resolved in this pass.
pub fn resolve_sorts<C>(program: &mut Program<C>) -> (resolved: usize)
    requires
        old(program).wf(),
    ensures
        with_sorts(old(program).instructions@, final(program).instructions@, resolve_pass(old(program).instructions@)),
        resolved == resolved_count(old(program).instructions@),
{
    let ghost insts = program.instructions@;
    let n = program.instructions.len();
    let mut resolved: usize = 0;
    let mut i: usize = 0;
    proof {
        assert(resolve_prefix(insts, 0) =~= sorts_of(insts));
        assert(with_sorts(insts, program.instructions@, resolve_prefix(insts, 0)));
    }
    while i < n
        invariant
            n == insts.len(),
            well_formed(insts),
            i <= n,
            with_sorts(insts, program.instructions@, resolve_prefix(insts, i as nat)),
            resolved == resolved_within(insts, i as nat),
        decreases n - i,
    {
        proof {
            lemma_resolve_prefix_facts(insts, i as nat);
            lemma_resolve_prefix_facts(insts, (i + 1) as nat);
        }
        let ghost s = resolve_prefix(insts, i as nat);
        let ghost s2 = resolve_prefix(insts, (i + 1) as nat);
        proof {
            lemma_resolved_within_step(insts, i as nat);
        }
        let inst = &program.instructions[i];
        let skip = inst.sort != Sort::Unknown || (match inst.op {
            Op::Input { .. } => true,
            _ => false,
        });
        if !skip {
            let mut sorts: Vec<Sort> = Vec::new();
            let m = inst.operands.len();
            let mut k: usize = 0;
            while k < m
                invariant
                    inst == program.instructions@[i as int],
                    m == inst.operands@.len(),
                    inst.operands == insts[i as int].operands,
                    k <= m,
                    i < n,
                    n == insts.len(),
                    well_formed(insts),
                    with_sorts(insts, program.instructions@, s),
                    sorts@ == operand_sorts(inst.operands@.take(k as int), s),
                decreases m - k,
            {
                let o = inst.operands[k];
                assert(insts[i as int].operands@[k as int] < n);
                let t = program.instructions[o].sort;
                assert(inst.operands@.take(k + 1) == inst.operands@.take(k as int).push(o));
                sorts.push(t);
                k = k + 1;
            }
            assert(inst.operands@.take(m as int) == inst.operands@);
            let new_sort = resolve_instruction_sort(&inst.op, sorts.as_slice());
            if new_sort != Sort::Unknown {
                program.instructions[i].sort = new_sort;
                resolved = resolved + 1;
            }
        }
        proof {
            assert(s2 == s.update(i as int, resolve_step(insts[i as int], s, i as int)));
            assert(with_sorts(insts, program.instructions@, s2));
        }
        i = i + 1;
    }
    resolved
}

/// `insts` with its sorts replaced by `s`.
pub open spec fn set_sorts<C>(insts: Seq<Instruction<C>>, s: Seq<Sort>) -> Seq<Instruction<C>> {
    Seq::new(
        insts.len(),
        |i: int| Instruction { id: insts[i].id, op: insts[i].op, operands: insts[i].operands, sort: s[i] },
    )
}

/// The instructions after one full pass.
pub open spec fn after_pass<C>(insts: Seq<Instruction<C>>) -> Seq<Instruction<C>> {
    set_sorts(insts, resolve_pass(insts))
}

/// The pass only moves unknown sorts to resolved ones, so the number of
/// unknown sorts drops by exactly the number it resolves.
pub proof fn lemma_pass_unknown_count<C>(insts: Seq<Instruction<C>>)
    ensures
        count_sort(after_pass(insts), Sort::Unknown) + resolved_count(insts) == count_sort(insts, Sort::Unknown),
        resolved_count(insts) == 0 ==> after_pass(insts) == insts,
{
    let n = insts.len();
    let a = after_pass(insts);
    lemma_resolve_prefix_facts(insts, n);
    let f = |i: int| insts[i].sort == Sort::Unknown;
    let g = |i: int| a[i].sort == Sort::Unknown;
    let h = |i: int| insts[i].sort == Sort::Unknown && resolve_prefix(insts, n)[i] != Sort::Unknown;
    assert forall|i: int| 0 <= i < n implies (#[trigger] f(i) <==> (g(i) || h(i))) && !(g(i) && h(i)) by {
        assert(a[i].sort == resolve_prefix(insts, n)[i]);
    }
    lemma_count_if_split(n as int, f, g, h);
    assert(count_sort(after_pass(insts), Sort::Unknown) == count_if(n as int, g));
    if resolved_count(insts) == 0 {
        assert forall|i: int| 0 <= i < n implies a[i] == insts[i] by {
            if h(i) {
                lemma_count_if_witness_of(n as int, h, i);
            }
        }
        assert(a =~= insts);
    }
}

proof fn lemma_count_if_witness_of(n: int, h: spec_fn(int) -> bool, i: int)
    requires
        0 <= i < n,
        h(i),
    ensures
        count_if(n, h) > 0,
    decreases n,
{
    if i < n - 1 {
        lemma_count_if_witness_of(n - 1, h, i);
    }
}

/// The sorts after running passes until one resolves nothing.
pub open spec fn fixpoint_sorts<C>(insts: Seq<Instruction<C>>) -> Seq<Sort>
    decreases count_sort(insts, Sort::Unknown),
{
    if resolved_count(insts) == 0 {
        sorts_of(insts)
    } else {
        proof {
            lemma_pass_unknown_count(insts);
        }
        fixpoint_sorts(after_pass(insts))
    }
}

/// The total number of sorts resolved by running passes until one resolves
/// nothing.
pub open spec fn fixpoint_total<C>(insts: Seq<Instruction<C>>) -> nat
    decreases count_sort(insts, Sort::Unknown),
{
    if resolved_count(insts) == 0 {
        0
    } else {
        proof {
            lemma_pass_unknown_count(insts);
        }
        resolved_count(insts) + fixpoint_total(after_pass(insts))
    }
}

proof fn lemma_with_sorts_after_pass<C>(a: Seq<Instruction<C>>, b: Seq<Instruction<C>>)
    requires
        with_sorts(a, b, resolve_pass(a)),
        well_formed(a),
    ensures
        b == after_pass(a),
        well_formed(b),
{
    assert(b =~= after_pass(a));
}

/// Run resolution passes until one resolves nothing (for programs with
/// back-edges; for straight-line SSA one pass is enough). Returns the total
/// number of sorts resolved.
pub fn resolve_to_fixpoint<C>(program: &mut Program<C>) -> (total: usize)
    requires
        old(program).wf(),
    ensures
        with_sorts(old(program).instructions@, final(program).instructions@, fixpoint_sorts(old(program).instructions@)),
        total == fixpoint_total(old(program).instructions@),
        resolved_count(final(program).instructions@) == 0,
{
    let ghost init = program.instructions@;
    let mut total: usize = 0;
    let n = program.instructions.len();
    proof {
        lemma_count_if_bounded(init.len() as int, |i: int| init[i].sort == Sort::Unknown);
    }
    loop
        invariant_except_break
            well_formed(program.instructions@),
            with_sorts(init, program.instructions@, sorts_of(program.instructions@)),
            fixpoint_sorts(program.instructions@) == fixpoint_sorts(init),
            total + fixpoint_total(program.instructions@) == fixpoint_total(init),
            total + count_sort(program.instructions@, Sort::Unknown) == count_sort(init, Sort::Unknown),
            count_sort(init, Sort::Unknown) <= init.len(),
            init.len() == n,
        ensures
            with_sorts(init, program.instructions@, fixpoint_sorts(init)),
            total == fixpoint_total(init),
            resolved_count(program.instructions@) == 0,
        decreases count_sort(program.instructions@, Sort::Unknown),
    {
        let ghost before = program.instructions@;
        let resolved = resolve_sorts(program);
        proof {
            lemma_with_sorts_after_pass(before, program.instructions@);
            lemma_pass_unknown_count(before);
        }
        if resolved == 0 {
            proof {
                assert(program.instructions@ == before);
                assert(fixpoint_sorts(before) == sorts_of(before));
            }
            break;
        }
        total = total + resolved;
    }
    total
}

/// The operand sorts contain a sort exactly when some operand has it.
pub proof fn lemma_operand_sorts_contains(ops: Seq<usize>, s: Seq<Sort>, t: Sort)
    ensures
        operand_sorts(ops, s).contains(t) <==> exists|k: int| 0 <= k < ops.len() && s[#[trigger] ops[k] as int] == t,
{
    let ss = operand_sorts(ops, s);
    if ss.contains(t) {
        let k = choose|k: int| 0 <= k < ss.len() && ss[k] == t;
        assert(s[ops[k] as int] == t);
    }
    if exists|k: int| 0 <= k < ops.len() && s[#[trigger] ops[k] as int] == t {
        let k = choose|k: int| 0 <= k < ops.len() && s[#[trigger] ops[k] as int] == t;
        assert(ss[k] == t);
    }
}

/// Operands that are all contents give contents, unless the operation is an
/// exception, which stays unknown.
pub proof fn lemma_static_sort_of_contents<C>(op: Op<C>, ops: Seq<usize>, s: Seq<Sort>)
    requires
        forall|k: int| 0 <= k < ops.len() ==> s[#[trigger] ops[k] as int] == Sort::Contents,
    ensures
        static_sort(op, operand_sorts(ops, s)) == if is_exception(op) { Sort::Unknown } else { Sort::Contents },
{
    lemma_operand_sorts_contains(ops, s, Sort::Origin);
    lemma_operand_sorts_contains(ops, s, Sort::Unknown);
    lemma_operand_sorts_contains(ops, s, Sort::Container);
}

/// One origin operand makes the result origin.
pub proof fn lemma_static_sort_of_origin<C>(op: Op<C>, ops: Seq<usize>, s: Seq<Sort>, k: int)
    requires
        0 <= k < ops.len(),
        s[ops[k] as int] == Sort::Origin,
    ensures
        static_sort(op, operand_sorts(ops, s)) == Sort::Origin,
{
    lemma_operand_sorts_contains(ops, s, Sort::Origin);
}

/// Without origin operands, one unknown operand leaves the result unknown.
pub proof fn lemma_static_sort_of_unknown<C>(op: Op<C>, ops: Seq<usize>, s: Seq<Sort>, k: int)
    requires
        0 <= k < ops.len(),
        s[ops[k] as int] == Sort::Unknown,
        forall|j: int| 0 <= j < ops.len() ==> s[#[trigger] ops[j] as int] != Sort::Origin,
    ensures
        static_sort(op, operand_sorts(ops, s)) == Sort::Unknown,
{
    lemma_operand_sorts_contains(ops, s, Sort::Origin);
    lemma_operand_sorts_contains(ops, s, Sort::Unknown);
}

/// Contents and container operands with at least one container give a
/// container.
pub proof fn lemma_static_sort_of_container<C>(op: Op<C>, ops: Seq<usize>, s: Seq<Sort>, k: int)
    requires
        0 <= k < ops.len(),
        s[ops[k] as int] == Sort::Container,
        forall|j: int| 0 <= j < ops.len() ==> s[#[trigger] ops[j] as int] == Sort::Contents || s[ops[j] as int] == Sort::Container,
    ensures
        static_sort(op, operand_sorts(ops, s)) == Sort::Container,
{
    lemma_operand_sorts_contains(ops, s, Sort::Origin);
    lemma_operand_sorts_contains(ops, s, Sort::Unknown);
    lemma_operand_sorts_contains(ops, s, Sort::Container);
}

/// Replacing sorts keeps well-formedness and SSA order.
pub proof fn lemma_with_sorts_shape<C>(a: Seq<Instruction<C>>, b: Seq<Instruction<C>>, s: Seq<Sort>)
    requires
        with_sorts(a, b, s),
    ensures
        well_formed(a) ==> well_formed(b),
        ssa_ordered(a) ==> ssa_ordered(b),
{
    assert(forall|i: int| 0 <= i < a.len() ==> (#[trigger] b[i]).operands@ == a[i].operands@);
}

/// A pass keeps every id, operation and operand, and keeps well-formedness
/// and SSA order.
pub proof fn lemma_after_pass_shape<C>(insts: Seq<Instruction<C>>)
    ensures
        after_pass(insts).len() == insts.len(),
        forall|i: int| 0 <= i < insts.len() ==> (#[trigger] after_pass(insts)[i]).operands == insts[i].operands
            && after_pass(insts)[i].op == insts[i].op && after_pass(insts)[i].id == insts[i].id
            && after_pass(insts)[i].sort == resolve_pass(insts)[i],
        well_formed(insts) ==> well_formed(after_pass(insts)),
        ssa_ordered(insts) ==> ssa_ordered(after_pass(insts)),
{
}

/// A pass never changes a sort that is already resolved, nor the sort of an
/// input: it only moves unknown sorts of operations.
pub proof fn law_resolve_keeps_resolved<C>(insts: Seq<Instruction<C>>, i: int)
    requires
        0 <= i < insts.len(),
        insts[i].sort != Sort::Unknown || insts[i].op is Input,
    ensures
        resolve_pass(insts)[i] == insts[i].sort,
{
    lemma_resolve_prefix_facts(insts, insts.len());
    lemma_resolve_prefix_facts(insts, (i + 1) as nat);
    lemma_resolve_prefix_facts(insts, i as nat);
}

/// In SSA order, one pass gives every operation the sort that the lattice
/// computes from the final sorts of its operands.
pub proof fn law_ssa_pass_local<C>(insts: Seq<Instruction<C>>, i: int)
    requires
        well_formed(insts),
        ssa_ordered(insts),
        0 <= i < insts.len(),
    ensures
        resolve_pass(insts)[i] == if insts[i].sort != Sort::Unknown || insts[i].op is Input {
            insts[i].sort
        } else {
            static_sort(insts[i].op, operand_sorts(insts[i].operands@, resolve_pass(insts)))
        },
{
    let n = insts.len();
    lemma_resolve_prefix_facts(insts, n);
    lemma_resolve_prefix_facts(insts, (i + 1) as nat);
    lemma_resolve_prefix_facts(insts, i as nat);
    let ops = insts[i].operands@;
    let pre = resolve_prefix(insts, i as nat);
    let fin = resolve_pass(insts);
    assert forall|k: int| 0 <= k < ops.len() implies pre[ops[k] as int] == fin[ops[k] as int] by {
        let o = ops[k] as int;
        assert(o < i);
        lemma_resolve_prefix_facts(insts, (o + 1) as nat);
    }
    assert(operand_sorts(ops, pre) =~= operand_sorts(ops, fin));
}

proof fn lemma_second_pass_same<C>(insts: Seq<Instruction<C>>, i: int)
    requires
        well_formed(insts),
        ssa_ordered(insts),
        0 <= i <= insts.len(),
    ensures
        forall|j: int| 0 <= j < i ==> #[trigger] resolve_pass(after_pass(insts))[j] == resolve_pass(insts)[j],
    decreases i,
{
    if i > 0 {
        lemma_second_pass_same(insts, i - 1);
        let a = after_pass(insts);
        let s = resolve_pass(insts);
        let j = i - 1;
        lemma_resolve_prefix_facts(insts, insts.len());
        assert(well_formed(a));
        assert(ssa_ordered(a));
        law_ssa_pass_local(a, j);
        law_ssa_pass_local(insts, j);
        if !(a[j].sort != Sort::Unknown || a[j].op is Input) {
            if insts[j].sort != Sort::Unknown {
                law_resolve_keeps_resolved(insts, j);
            }
            let ops = insts[j].operands@;
            assert forall|k: int| 0 <= k < ops.len() implies resolve_pass(a)[ops[k] as int] == s[ops[k] as int] by {
                assert(ops[k] < j);
            }
            assert(operand_sorts(ops, resolve_pass(a)) =~= operand_sorts(ops, s));
        }
    }
}

/// The sort one pass gives instruction `i` in SSA order, read off the final
/// sorts `t`.
pub open spec fn local_sort<C>(insts: Seq<Instruction<C>>, t: Seq<Sort>, i: int) -> Sort {
    if insts[i].sort != Sort::Unknown || insts[i].op is Input {
        insts[i].sort
    } else {
        static_sort(insts[i].op, operand_sorts(insts[i].operands@, t))
    }
}

proof fn lemma_unique_prefix<C>(insts: Seq<Instruction<C>>, t: Seq<Sort>, i: int)
    requires
        well_formed(insts),
        ssa_ordered(insts),
        t.len() == insts.len(),
        forall|j: int| 0 <= j < insts.len() ==> #[trigger] t[j] == local_sort(insts, t, j),
        0 <= i <= insts.len(),
    ensures
        forall|j: int| 0 <= j < i ==> #[trigger] resolve_pass(insts)[j] == t[j],
    decreases i,
{
    if i > 0 {
        lemma_unique_prefix(insts, t, i - 1);
        let j = i - 1;
        law_ssa_pass_local(insts, j);
        let ops = insts[j].operands@;
        assert forall|k: int| 0 <= k < ops.len() implies resolve_pass(insts)[ops[k] as int] == t[ops[k] as int] by {
            assert(ops[k] < j);
        }
        assert(operand_sorts(ops, resolve_pass(insts)) =~= operand_sorts(ops, t));
        assert(t[j] == local_sort(insts, t, j));
    }
}

/// In SSA order the sorts after one pass are the only assignment in which
/// every instruction has the sort the pass would compute from its operands.
pub proof fn law_pass_is_unique_local_solution<C>(insts: Seq<Instruction<C>>, t: Seq<Sort>)
    requires
        well_formed(insts),
        ssa_ordered(insts),
        t.len() == insts.len(),
        forall|j: int| 0 <= j < insts.len() ==> #[trigger] t[j] == local_sort(insts, t, j),
    ensures
        resolve_pass(insts) == t,
{
    lemma_unique_prefix(insts, t, insts.len() as int);
    lemma_resolve_prefix_facts(insts, insts.len());
    assert(resolve_pass(insts) =~= t);
}

/// For straight-line SSA one pass is sufficient: the pass after it resolves
/// nothing, and running to a fixpoint gives the sorts of the single pass.
pub proof fn law_one_pass_suffices<C>(insts: Seq<Instruction<C>>)
    requires
        well_formed(insts),
        ssa_ordered(insts),
    ensures
        resolved_count(after_pass(insts)) == 0,
        fixpoint_sorts(insts) == resolve_pass(insts),
        fixpoint_total(insts) == resolved_count(insts),
{
    let a = after_pass(insts);
    let n = insts.len();
    lemma_resolve_prefix_facts(insts, n);
    lemma_second_pass_same(insts, n as int);
    assert forall|j: int| 0 <= j < n implies !(#[trigger] a[j].sort == Sort::Unknown && resolve_prefix(a, n)[j] != Sort::Unknown) by {
        assert(resolve_pass(a)[j] == resolve_pass(insts)[j]);
    }
    crate::count::lemma_count_if_none(n as int, |j: int| a[j].sort == Sort::Unknown && resolve_prefix(a, n)[j] != Sort::Unknown);
    lemma_pass_unknown_count(insts);
    lemma_pass_unknown_count(a);
    if resolved_count(insts) == 0 {
        assert(sorts_of(insts) =~= resolve_pass(insts)) by {
            assert forall|j: int| 0 <= j < n implies sorts_of(insts)[j] == resolve_pass(insts)[j] by {
                assert(a[j] == insts[j]);
            }
        }
        assert(fixpoint_sorts(insts) == sorts_of(insts));
    } else {
        assert(sorts_of(a) =~= resolve_pass(insts));
        assert(fixpoint_sorts(a) == sorts_of(a));
        assert(fixpoint_sorts(insts) == fixpoint_sorts(a));
        assert(fixpoint_total(a) == 0);
    }
}

/// The lattice on operands that are all contents: division, square root,
/// logarithm and reciprocal square root wait for a runtime check (unknown);
/// every other operation is contents.
pub proof fn law_contents_operands<C>(op: Op<C>, ss: Seq<Sort>)
    requires
        forall|k: int| 0 <= k < ss.len() ==> ss[k] == Sort::Contents,
    ensures
        (op is Div || op is Sqrt || op is Log || op is Rsqrt) ==> static_sort(op, ss) == Sort::Unknown,
        !(op is Div || op is Sqrt || op is Log || op is Rsqrt) ==> static_sort(op, ss) == Sort::Contents,
{
    assert(!ss.contains(Sort::Origin));
    assert(!ss.contains(Sort::Unknown));
    assert(!ss.contains(Sort::Container));
}

/// Once every runtime check has passed, nothing waits any more: in an SSA
/// program whose instructions are contents, except operations that are not
/// exceptions and are still unknown, one pass makes every instruction
/// contents.
pub proof fn law_passing_checks_leave_all_contents<C>(insts: Seq<Instruction<C>>)
    requires
        well_formed(insts),
        ssa_ordered(insts),
        forall|i: int|
            0 <= i < insts.len() ==> (#[trigger] insts[i]).sort == Sort::Contents || (insts[i].sort == Sort::Unknown
                && !is_exception(insts[i].op) && !(insts[i].op is Input)),
    ensures
        forall|i: int| 0 <= i < insts.len() ==> #[trigger] resolve_pass(insts)[i] == Sort::Contents,
{
    let t = Seq::new(insts.len(), |i: int| Sort::Contents);
    assert forall|j: int| 0 <= j < insts.len() implies #[trigger] t[j] == local_sort(insts, t, j) by {
        assert(insts[j] == insts[j]);
        if insts[j].sort != Sort::Contents {
            lemma_static_sort_of_contents(insts[j].op, insts[j].operands@, t);
        }
    }
    law_pass_is_unique_local_solution(insts, t);
}

/// Every instruction a pass makes origin depends, directly or through other
/// instructions, on an instruction that was already origin.
pub proof fn law_resolved_origin_is_tainted<C>(insts: Seq<Instruction<C>>, i: int)
    requires
        well_formed(insts),
        0 <= i < insts.len(),
        resolve_pass(insts)[i] == Sort::Origin,
    ensures
        crate::pass_fold::tainted(insts, i),
    decreases i,
{
    lemma_resolve_prefix_facts(insts, insts.len());
    lemma_resolve_prefix_facts(insts, (i + 1) as nat);
    lemma_resolve_prefix_facts(insts, i as nat);
    if insts[i].sort == Sort::Origin {
        assert(crate::pass_fold::tainted_within(insts, i, 0));
    } else {
        let pre = resolve_prefix(insts, i as nat);
        let ops = insts[i].operands@;
        let ss = operand_sorts(ops, pre);
        assert(ss.contains(Sort::Origin));
        let k = choose|k: int| 0 <= k < ss.len() && ss[k] == Sort::Origin;
        let o = ops[k] as int;
        assert(ops.contains(o as usize));
        assert(crate::pass_fold::uses(insts, i, o));
        if o < i {
            lemma_resolve_prefix_facts(insts, (o + 1) as nat);
            law_resolved_origin_is_tainted(insts, o);
        } else {
            assert(crate::pass_fold::tainted_within(insts, o, 0));
        }
        crate::pass_fold::lemma_tainted_step(insts, i, o);
    }
}

} // verus!
