//! Pass 2: origin folding.
//!
//! Walk forward from every origin value. Everything that depends on it is
//! origin. The instructions are never emitted.
use vstd::prelude::*;
use crate::count::{count_if, lemma_count_if_add_one, lemma_count_if_bounded, lemma_count_if_ext, lemma_count_if_none};
use crate::ir::{ssa_ordered, well_formed, Instruction, Program, Sort};
use crate::pass_resolve::{after_pass, law_ssa_pass_local, operand_sorts, resolve_pass, set_sorts, sorts_of, with_sorts};

verus! {

/// Instruction `v` uses instruction `u` as an operand.
pub open spec fn uses<C>(insts: Seq<Instruction<C>>, v: int, u: int) -> bool {
    0 <= v < insts.len() && insts[v].operands@.contains(u as usize)
}

/// Instruction `v` is origin, or reaches an origin instruction through at
/// most `k` operand edges.
pub open spec fn tainted_within<C>(insts: Seq<Instruction<C>>, v: int, k: nat) -> bool
    decreases k,
{
    0 <= v < insts.len() && (insts[v].sort == Sort::Origin || (k > 0 && exists|u: int|
        #[trigger] uses(insts, v, u) && tainted_within(insts, u, (k - 1) as nat)))
}

/// Instruction `v` depends, directly or through other instructions, on an
/// origin instruction (or is origin itself).
pub open spec fn tainted<C>(insts: Seq<Instruction<C>>, v: int) -> bool {
    exists|k: nat| #[trigger] tainted_within(insts, v, k)
}

/// The sorts after origin folding: every tainted instruction is origin, the
/// others keep their sort.
pub open spec fn fold_sorts<C>(insts: Seq<Instruction<C>>) -> Seq<Sort> {
    Seq::new(insts.len(), |v: int| if tainted(insts, v) { Sort::Origin } else { insts[v].sort })
}

/// The number of instructions that folding turns into origin.
pub open spec fn foldable_count<C>(insts: Seq<Instruction<C>>) -> nat {
    count_if(insts.len() as int, |v: int| tainted(insts, v) && insts[v].sort != Sort::Origin)
}

/// The state of the forward search: `marks` says which instructions are
/// known origin, `wl` holds marked instructions whose users are still to be
/// visited, and every marked instruction other than `skip` that is not on
/// the worklist has all its users marked.
pub open spec fn search_inv<C>(insts: Seq<Instruction<C>>, marks: Seq<bool>, wl: Seq<usize>, skip: int) -> bool {
    &&& marks.len() == insts.len()
    &&& insts.len() <= usize::MAX
    &&& forall|v: int| 0 <= v < insts.len() && insts[v].sort == Sort::Origin ==> #[trigger] marks[v]
    &&& forall|v: int| 0 <= v < insts.len() && #[trigger] marks[v] ==> tainted(insts, v)
    &&& forall|j: int| 0 <= j < wl.len() ==> #[trigger] wl[j] < insts.len() && marks[wl[j] as int]
    &&& forall|u: int, v: int|
        0 <= u < insts.len() && marks[u] && !wl.contains(u as usize) && u != skip && #[trigger] uses(insts, v, u)
            ==> marks[v]
}

/// `users[o]` lists exactly the instructions that use `o`.
pub open spec fn users_of<C>(insts: Seq<Instruction<C>>, users: Seq<Vec<usize>>) -> bool {
    &&& users.len() == insts.len()
    &&& forall|o: int, v: usize| 0 <= o < insts.len() ==> (#[trigger] users[o]@.contains(v) <==> uses(insts, v as int, o))
    &&& forall|o: int, j: int| 0 <= o < insts.len() && 0 <= j < users[o]@.len() ==> #[trigger] users[o]@[j]
        < insts.len()
}

pub proof fn lemma_tainted_step<C>(insts: Seq<Instruction<C>>, v: int, u: int)
    requires
        uses(insts, v, u),
        tainted(insts, u),
    ensures
        tainted(insts, v),
{
    let k = choose|k: nat| tainted_within(insts, u, k);
    assert(tainted_within(insts, v, k + 1));
}

proof fn lemma_mark<C>(insts: Seq<Instruction<C>>, marks: Seq<bool>, wl: Seq<usize>, skip: int, v: int, u: int)
    requires
        search_inv(insts, marks, wl, skip),
        0 <= u < insts.len(),
        marks[u],
        uses(insts, v, u),
    ensures
        search_inv(insts, marks.update(v, true), wl.push(v as usize), skip),
{
    lemma_tainted_step(insts, v, u);
    let m2 = marks.update(v, true);
    let w2 = wl.push(v as usize);
    assert forall|j: int| 0 <= j < w2.len() implies #[trigger] w2[j] < insts.len() && m2[w2[j] as int] by {
        if j < wl.len() {
            assert(w2[j] == wl[j]);
        }
    }
    assert forall|a: int, b: int|
        0 <= a < insts.len() && m2[a] && !w2.contains(a as usize) && a != skip && #[trigger] uses(insts, b, a)
        implies m2[b] by {
        assert(w2[wl.len() as int] == v as usize);
        if wl.contains(a as usize) {
            let j = choose|j: int| 0 <= j < wl.len() && wl[j] == a as usize;
            assert(w2[j] == a as usize);
        }
    }
}

proof fn lemma_pop<C>(insts: Seq<Instruction<C>>, marks: Seq<bool>, wl: Seq<usize>)
    requires
        search_inv(insts, marks, wl, -1),
        wl.len() > 0,
    ensures
        search_inv(insts, marks, wl.drop_last(), wl.last() as int),
{
    let w2 = wl.drop_last();
    assert forall|j: int| 0 <= j < w2.len() implies #[trigger] w2[j] < insts.len() && marks[w2[j] as int] by {
        assert(w2[j] == wl[j]);
    }
    assert forall|a: int, b: int|
        0 <= a < insts.len() && marks[a] && !w2.contains(a as usize) && a != wl.last() as int && #[trigger] uses(
            insts,
            b,
            a,
        ) implies marks[b] by {
        if wl.contains(a as usize) {
            let j = choose|j: int| 0 <= j < wl.len() && wl[j] == a as usize;
            if j < w2.len() {
                assert(w2[j] == a as usize);
            }
        }
    }
}

proof fn lemma_complete<C>(insts: Seq<Instruction<C>>, marks: Seq<bool>, wl: Seq<usize>)
    requires
        search_inv(insts, marks, wl, -1),
        wl.len() == 0,
    ensures
        forall|v: int| 0 <= v < insts.len() ==> (marks[v] <==> tainted(insts, v)),
{
    assert forall|v: int| 0 <= v < insts.len() && tainted(insts, v) implies marks[v] by {
        let k = choose|k: nat| tainted_within(insts, v, k);
        lemma_complete_within(insts, marks, v, k);
    }
}

proof fn lemma_complete_within<C>(insts: Seq<Instruction<C>>, marks: Seq<bool>, v: int, k: nat)
    requires
        search_inv(insts, marks, Seq::empty(), -1),
        tainted_within(insts, v, k),
    ensures
        marks[v],
    decreases k,
{
    if insts[v].sort != Sort::Origin {
        let u = choose|u: int| #[trigger] uses(insts, v, u) && tainted_within(insts, u, (k - 1) as nat);
        lemma_complete_within(insts, marks, u, (k - 1) as nat);
        assert(!Seq::<usize>::empty().contains(u as usize));
    }
}

/// For each instruction, the list of instructions that use it.
fn build_users<C>(program: &Program<C>) -> (users: Vec<Vec<usize>>)
    requires
        program.wf(),
    ensures
        users_of(program.instructions@, users@),
{
    let ghost insts = program.instructions@;
    let len = program.instructions.len();
    let mut users: Vec<Vec<usize>> = Vec::new();
    while users.len() < len
        invariant
            users@.len() <= len,
            forall|o: int| 0 <= o < users@.len() ==> #[trigger] users@[o]@.len() == 0,
        decreases len - users@.len(),
    {
        users.push(Vec::new());
    }
    let mut i: usize = 0;
    while i < len
        invariant
            len == insts.len(),
            insts == program.instructions@,
            well_formed(insts),
            i <= len,
            users@.len() == len,
            forall|o: int, v: usize| 0 <= o < len ==> (#[trigger] users@[o]@.contains(v) <==> (v < i && uses(insts, v as int, o))),
            forall|o: int, j: int| 0 <= o < len && 0 <= j < users@[o]@.len() ==> #[trigger] users@[o]@[j] < i,
        decreases len - i,
    {
        let inst = &program.instructions[i];
        let m = inst.operands.len();
        let mut k: usize = 0;
        while k < m
            invariant
                len == insts.len(),
                insts == program.instructions@,
                well_formed(insts),
                i < len,
                inst == insts[i as int],
                m == inst.operands@.len(),
                k <= m,
                users@.len() == len,
                forall|o: int, v: usize| 0 <= o < len ==> (#[trigger] users@[o]@.contains(v) <==> ((v < i && uses(insts, v as int, o)) || (v == i
                    && inst.operands@.take(k as int).contains(o as usize)))),
                forall|o: int, j: int| 0 <= o < len && 0 <= j < users@[o]@.len() ==> #[trigger] users@[o]@[j] <= i,
            decreases m - k,
        {
            let operand_id = inst.operands[k];
            let ghost before = users@;
            users[operand_id].push(inst.id);
            proof {
                assert(inst.operands@.take(k + 1) == inst.operands@.take(k as int).push(operand_id));
                assert forall|o: int, v: usize| 0 <= o < len implies (#[trigger] users@[o]@.contains(v) <==> ((v < i && uses(insts, v as int, o)) || (v == i
                    && inst.operands@.take(k + 1).contains(o as usize)))) by {
                    vstd::seq_lib::lemma_seq_contains_after_push(inst.operands@.take(k as int), operand_id, o as usize);
                    if o == operand_id {
                        assert(users@[o]@ == before[o]@.push(i));
                        vstd::seq_lib::lemma_seq_contains_after_push(before[o]@, i, v);
                    } else {
                        assert(users@[o] == before[o]);
                    }
                }
                assert forall|o: int, j: int| 0 <= o < len && 0 <= j < users@[o]@.len() implies #[trigger] users@[o]@[j] <= i by {
                    if o == operand_id {
                        assert(users@[o]@ == before[o]@.push(i));
                        if j < before[o]@.len() {
                            assert(users@[o]@[j] == before[o]@[j]);
                        }
                    } else {
                        assert(users@[o] == before[o]);
                    }
                }
            }
            k = k + 1;
        }
        assert(inst.operands@.take(m as int) == inst.operands@);
        i = i + 1;
    }
    users
}

proof fn lemma_init_search<C>(insts: Seq<Instruction<C>>, marks: Seq<bool>, wl: Seq<usize>)
    requires
        insts.len() <= usize::MAX,
        marks.len() == insts.len(),
        forall|v: int| 0 <= v < insts.len() ==> (#[trigger] marks[v] <==> insts[v].sort == Sort::Origin),
        forall|v: int| 0 <= v < insts.len() && #[trigger] marks[v] ==> wl.contains(v as usize),
        forall|j: int| 0 <= j < wl.len() ==> #[trigger] wl[j] < insts.len() && marks[wl[j] as int],
    ensures
        search_inv(insts, marks, wl, -1),
{
    assert forall|v: int| 0 <= v < insts.len() && #[trigger] marks[v] implies tainted(insts, v) by {
        assert(tainted_within(insts, v, 0));
    }
}

/// The worklist search shared by both folding functions: starting from the
/// marked instructions on `wl`, mark every user of a marked instruction.
/// Returns the marks and the number of instructions newly marked.
fn propagate<C>(insts: Ghost<Seq<Instruction<C>>>, users: &Vec<Vec<usize>>, marks: &mut Vec<bool>, wl: &mut Vec<usize>) -> (added: usize)
    requires
        users_of(insts@, users@),
        search_inv(insts@, old(marks)@, old(wl)@, -1),
    ensures
        forall|v: int| 0 <= v < insts@.len() ==> (final(marks)@[v] <==> tainted(insts@, v)),
        final(marks)@.len() == insts@.len(),
        forall|v: int| 0 <= v < insts@.len() && old(marks)@[v] ==> final(marks)@[v],
        added == count_if(insts@.len() as int, |v: int| final(marks)@[v] && !old(marks)@[v]),
{
    let ghost n = insts@.len() as int;
    let ghost m0 = marks@;
    let mut added: usize = 0;
    proof {
        lemma_count_if_none_marks(n, m0, m0);
    }
    while wl.len() > 0
        invariant
            users_of(insts@, users@),
            n == insts@.len(),
            search_inv(insts@, marks@, wl@, -1),
            forall|v: int| 0 <= v < n && m0[v] ==> marks@[v],
            added == count_if(n, |v: int| marks@[v] && !m0[v]),
            added <= n,
        decreases n - added, wl@.len(),
    {
        proof {
            lemma_count_if_bounded(n, |v: int| marks@[v] && !m0[v]);
            lemma_pop(insts@, marks@, wl@);
        }
        let ghost wl_before = wl@;
        let id = wl.pop().unwrap();
        assert(id == wl_before[wl_before.len() - 1]);
        let us = &users[id];
        let mut k: usize = 0;
        let ghost added_before = added;
        let ghost popped_len = wl@.len();
        while k < us.len()
            invariant
                users_of(insts@, users@),
                n == insts@.len(),
                0 <= id < n,
                us == users@[id as int],
                k <= us@.len(),
                search_inv(insts@, marks@, wl@, id as int),
                forall|j: int| 0 <= j < k ==> marks@[#[trigger] us@[j] as int],
                forall|v: int| 0 <= v < n && m0[v] ==> marks@[v],
                added == count_if(n, |v: int| marks@[v] && !m0[v]),
                added >= added_before,
                added <= n,
                marks@[id as int],
                wl@.len() == popped_len + (added - added_before),
            decreases us@.len() - k,
        {
            let user_id = us[k];
            assert(users@[id as int]@.contains(user_id));
            if !marks[user_id] {
                let ghost mb = marks@;
                proof {
                    lemma_mark(insts@, marks@, wl@, id as int, user_id as int, id as int);
                }
                marks.set(user_id, true);
                wl.push(user_id);
                proof {
                    assert(marks@ == mb.update(user_id as int, true));
                    lemma_count_if_add_one(
                        n,
                        |v: int| mb[v] && !m0[v],
                        |v: int| marks@[v] && !m0[v],
                        user_id as int,
                    );
                    lemma_count_if_bounded(n, |v: int| marks@[v] && !m0[v]);
                }
                added = added + 1;
            }
            k = k + 1;
        }
        proof {
            assert forall|a: int, b: int|
                0 <= a < n && marks@[a] && !wl@.contains(a as usize) && a != -1 && #[trigger] uses(insts@, b, a)
                implies marks@[b] by {
                if a == id as int {
                    assert(users@[id as int]@.contains(b as usize));
                    let j = choose|j: int| 0 <= j < us@.len() && us@[j] == b as usize;
                    assert(marks@[us@[j] as int]);
                }
            }
        }
    }
    proof {
        lemma_complete(insts@, marks@, wl@);
    }
    added
}

proof fn lemma_count_if_none_marks(n: int, m: Seq<bool>, m0: Seq<bool>)
    requires
        m == m0,
    ensures
        count_if(n, |v: int| m[v] && !m0[v]) == 0,
    decreases n,
{
    if n > 0 {
        lemma_count_if_none_marks(n - 1, m, m0);
    }
}

/// The origin instructions, as marks and as a worklist.
fn origin_marks<C>(program: &Program<C>) -> (res: (Vec<bool>, Vec<usize>))
    requires
        program.wf(),
    ensures
        search_inv(program.instructions@, res.0@, res.1@, -1),
        forall|v: int| 0 <= v < program.instructions@.len() ==> (#[trigger] res.0@[v] <==> program.instructions@[v].sort == Sort::Origin),
{
    let ghost insts = program.instructions@;
    let len = program.instructions.len();
    let mut marks: Vec<bool> = Vec::new();
    let mut worklist: Vec<usize> = Vec::new();
    let mut i: usize = 0;
    while i < len
        invariant
            len == insts.len(),
            insts == program.instructions@,
            well_formed(insts),
            i <= len,
            marks@.len() == i,
            forall|v: int| 0 <= v < i ==> (#[trigger] marks@[v] <==> insts[v].sort == Sort::Origin),
            forall|v: int| 0 <= v < i && #[trigger] marks@[v] ==> worklist@.contains(v as usize),
            forall|j: int| 0 <= j < worklist@.len() ==> #[trigger] worklist@[j] < i && marks@[worklist@[j] as int],
        decreases len - i,
    {
        let inst = &program.instructions[i];
        let is_origin = inst.sort == Sort::Origin;
        let ghost wb = worklist@;
        marks.push(is_origin);
        if is_origin {
            worklist.push(inst.id);
            assert(worklist@[wb.len() as int] == i);
        }
        proof {
            assert forall|v: int| 0 <= v <= i && #[trigger] marks@[v] implies worklist@.contains(v as usize) by {
                if v < i {
                    let j = choose|j: int| 0 <= j < wb.len() && wb[j] == v as usize;
                    assert(worklist@[j] == v as usize);
                }
            }
            assert forall|j: int| 0 <= j < worklist@.len() implies #[trigger] worklist@[j] < i + 1 && marks@[worklist@[j] as int] by {
                if j < wb.len() {
                    assert(worklist@[j] == wb[j]);
                }
            }
        }
        i = i + 1;
    }
    proof {
        lemma_init_search(insts, marks@, worklist@);
    }
    (marks, worklist)
}

/// Fold all instructions downstream of origin values: every instruction
/// that depends, directly or through others, on an origin instruction
/// becomes origin. Returns the number of instructions folded.
pub fn fold_origin<C>(program: &mut Program<C>) -> (folded: usize)
    requires
        old(program).wf(),
    ensures
        with_sorts(old(program).instructions@, final(program).instructions@, fold_sorts(old(program).instructions@)),
        folded == foldable_count(old(program).instructions@),
{
    let ghost insts = program.instructions@;
    let users = build_users(program);
    let (mut marks, mut worklist) = origin_marks(program);
    let ghost m0 = marks@;
    let folded = propagate::<C>(Ghost(insts), &users, &mut marks, &mut worklist);
    let len = program.instructions.len();
    let mut i: usize = 0;
    while i < len
        invariant
            len == insts.len(),
            i <= len,
            marks@.len() == len,
            forall|v: int| 0 <= v < len ==> (marks@[v] <==> tainted(insts, v)),
            with_sorts(insts, program.instructions@, Seq::new(len as nat, |v: int| if v < i && tainted(insts, v) { Sort::Origin } else { insts[v].sort })),
        decreases len - i,
    {
        if marks[i] {
            program.instructions[i].sort = Sort::Origin;
        }
        i = i + 1;
    }
    proof {
        assert(fold_sorts(insts) =~= Seq::new(len as nat, |v: int| if v < i && tainted(insts, v) { Sort::Origin } else { insts[v].sort }));
        lemma_count_if_ext(
            len as int,
            |v: int| marks@[v] && !m0[v],
            |v: int| tainted(insts, v) && insts[v].sort != Sort::Origin,
        );
    }
    folded
}

/// Count how many instructions origin folding would turn into origin,
/// without changing the program.
pub fn count_foldable<C>(program: &Program<C>) -> (foldable: usize)
    requires
        program.wf(),
    ensures
        foldable == foldable_count(program.instructions@),
{
    let ghost insts = program.instructions@;
    let (mut is_origin, mut worklist) = origin_marks(program);
    let ghost m0 = is_origin@;
    let users = build_users(program);
    let foldable = propagate::<C>(Ghost(insts), &users, &mut is_origin, &mut worklist);
    proof {
        lemma_count_if_ext(
            insts.len() as int,
            |v: int| is_origin@[v] && !m0[v],
            |v: int| tainted(insts, v) && insts[v].sort != Sort::Origin,
        );
    }
    foldable
}

/// Every user of an origin instruction is origin.
pub open spec fn origin_closed<C>(insts: Seq<Instruction<C>>) -> bool {
    forall|u: int, v: int|
        0 <= u < insts.len() && insts[u].sort == Sort::Origin && #[trigger] uses(insts, v, u) ==> insts[v].sort
            == Sort::Origin
}

proof fn lemma_closed_tainted_within<C>(insts: Seq<Instruction<C>>, v: int, k: nat)
    requires
        origin_closed(insts),
        tainted_within(insts, v, k),
    ensures
        insts[v].sort == Sort::Origin,
    decreases k,
{
    if insts[v].sort != Sort::Origin {
        let u = choose|u: int| #[trigger] uses(insts, v, u) && tainted_within(insts, u, (k - 1) as nat);
        lemma_closed_tainted_within(insts, u, (k - 1) as nat);
    }
}

/// When every user of an origin instruction is already origin, folding
/// finds nothing to fold.
pub proof fn law_closed_program_folds_nothing<C>(insts: Seq<Instruction<C>>)
    requires
        origin_closed(insts),
    ensures
        foldable_count(insts) == 0,
        fold_sorts(insts) == sorts_of(insts),
{
    assert forall|v: int| 0 <= v < insts.len() && tainted(insts, v) implies insts[v].sort == Sort::Origin by {
        let k = choose|k: nat| tainted_within(insts, v, k);
        lemma_closed_tainted_within(insts, v, k);
    }
    lemma_count_if_none(insts.len() as int, |v: int| tainted(insts, v) && insts[v].sort != Sort::Origin);
    assert(fold_sorts(insts) =~= sorts_of(insts));
}

/// The instructions after origin folding.
pub open spec fn after_fold<C>(insts: Seq<Instruction<C>>) -> Seq<Instruction<C>> {
    set_sorts(insts, fold_sorts(insts))
}

/// Folding is idempotent: a folded program has nothing left to fold.
pub proof fn law_fold_idempotent<C>(insts: Seq<Instruction<C>>)
    ensures
        foldable_count(after_fold(insts)) == 0,
        fold_sorts(after_fold(insts)) == fold_sorts(insts),
{
    let f = after_fold(insts);
    assert forall|u: int, v: int|
        0 <= u < f.len() && f[u].sort == Sort::Origin && #[trigger] uses(f, v, u) implies f[v].sort == Sort::Origin by {
        assert(uses(insts, v, u));
        if !tainted(insts, u) {
            assert(tainted_within(insts, u, 0));
        }
        lemma_tainted_step(insts, v, u);
    }
    law_closed_program_folds_nothing(f);
    assert(fold_sorts(f) =~= fold_sorts(insts));
}

/// Counting what folding would do predicts what folding does: the number
/// `count_foldable` reports is the number of sorts `fold_origin` changes.
pub proof fn law_count_foldable_predicts_fold<C>(insts: Seq<Instruction<C>>)
    ensures
        foldable_count(insts) == count_if(insts.len() as int, |v: int| fold_sorts(insts)[v] != insts[v].sort),
{
    lemma_count_if_ext(
        insts.len() as int,
        |v: int| tainted(insts, v) && insts[v].sort != Sort::Origin,
        |v: int| fold_sorts(insts)[v] != insts[v].sort,
    );
}

/// Resolution already propagates origin through an SSA program in which
/// every instruction with operands is an operation that starts unknown (or
/// origin): after one pass, folding finds nothing new.
pub proof fn law_resolve_leaves_nothing_to_fold<C>(insts: Seq<Instruction<C>>)
    requires
        well_formed(insts),
        ssa_ordered(insts),
        forall|v: int|
            0 <= v < insts.len() && (#[trigger] insts[v].operands@).len() > 0 ==> !(insts[v].op is Input) && (
            insts[v].sort == Sort::Unknown || insts[v].sort == Sort::Origin),
    ensures
        foldable_count(after_pass(insts)) == 0,
{
    let a = after_pass(insts);
    let s = resolve_pass(insts);
    crate::pass_resolve::lemma_after_pass_shape(insts);
    assert forall|u: int, v: int|
        0 <= u < a.len() && a[u].sort == Sort::Origin && #[trigger] uses(a, v, u) implies a[v].sort == Sort::Origin by {
        assert(insts[v].operands@.contains(u as usize));
        assert(insts[v].operands@.len() > 0);
        law_ssa_pass_local(insts, v);
        if insts[v].sort != Sort::Origin {
            let ops = insts[v].operands@;
            let k = choose|k: int| 0 <= k < ops.len() && ops[k] == u as usize;
            assert(operand_sorts(ops, s)[k] == Sort::Origin);
            assert(operand_sorts(ops, s).contains(Sort::Origin));
        }
    }
    law_closed_program_folds_nothing(a);
}

proof fn lemma_least_closed_within<C>(insts: Seq<Instruction<C>>, m: spec_fn(int) -> bool, v: int, k: nat)
    requires
        forall|w: int| 0 <= w < insts.len() && insts[w].sort == Sort::Origin ==> #[trigger] m(w),
        forall|u: int, w: int| 0 <= u < insts.len() && m(u) && #[trigger] uses(insts, w, u) ==> m(w),
        tainted_within(insts, v, k),
    ensures
        m(v),
    decreases k,
{
    if insts[v].sort != Sort::Origin {
        let u = choose|u: int| #[trigger] uses(insts, v, u) && tainted_within(insts, u, (k - 1) as nat);
        lemma_least_closed_within(insts, m, u, (k - 1) as nat);
    }
}

/// What folding turns into origin lies inside every set that holds every
/// origin instruction and every user of its members.
pub proof fn law_fold_within_closed_set<C>(insts: Seq<Instruction<C>>, m: spec_fn(int) -> bool)
    requires
        forall|w: int| 0 <= w < insts.len() && insts[w].sort == Sort::Origin ==> #[trigger] m(w),
        forall|u: int, w: int| 0 <= u < insts.len() && m(u) && #[trigger] uses(insts, w, u) ==> m(w),
    ensures
        forall|v: int| 0 <= v < insts.len() && #[trigger] tainted(insts, v) ==> m(v),
{
    assert forall|v: int| 0 <= v < insts.len() && #[trigger] tainted(insts, v) implies m(v) by {
        let k = choose|k: nat| tainted_within(insts, v, k);
        lemma_least_closed_within(insts, m, v, k);
    }
}

/// An instruction is tainted when it is origin or, following `w`, uses an
/// earlier instruction that is in turn origin or uses an earlier one, and
/// so on.
pub proof fn lemma_tainted_by_witness<C>(insts: Seq<Instruction<C>>, m: spec_fn(int) -> bool, w: spec_fn(int) -> int, v: int)
    requires
        forall|x: int|
            0 <= x < insts.len() && m(x) && insts[x].sort != Sort::Origin ==> 0 <= #[trigger] w(x) < x && m(w(x))
                && uses(insts, x, w(x)),
        0 <= v < insts.len(),
        m(v),
    ensures
        tainted(insts, v),
    decreases v,
{
    if insts[v].sort == Sort::Origin {
        assert(tainted_within(insts, v, 0));
    } else {
        let u = w(v);
        lemma_tainted_by_witness(insts, m, w, u);
        lemma_tainted_step(insts, v, u);
    }
}

} // verus!
