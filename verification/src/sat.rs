//! The satisfiability core: the formula model, the simplifier, the unit
//! propagator, the branch selector, and the recursive DPLL search.

use vstd::multiset::Multiset;
use vstd::prelude::*;

verus! {

/// Variable assignment for a SAT problem. The i-th element designates the truth
/// value of the i-th variable.
pub type Assignment = Vec<bool>;

/// CNF formula. A formula represents the AND-product of the contained clauses.
pub type Formula = Vec<Clause>;

/// A clause in a CNF formula. A clause represents the OR-sum of the contained
/// literals.
pub type Clause = Vec<Literal>;

/// A literal in a clause: a zero-based variable index, either plain (the
/// variable must be true) or negated (the variable must be false).
#[derive(Clone, Copy, Debug, PartialEq, Eq, Structural)]
pub enum Literal {
    Var(usize),
    Not(usize),
}

pub use Literal::Not;
pub use Literal::Var;

/// The variable index a literal speaks of.
pub open spec fn lit_var(l: Literal) -> int {
    match l {
        Literal::Var(i) => i as int,
        Literal::Not(i) => i as int,
    }
}

/// Truth of one literal under an assignment. A literal whose variable lies
/// outside the assignment is not satisfied.
pub open spec fn lit_sat(a: Seq<bool>, l: Literal) -> bool {
    match l {
        Literal::Var(i) => i < a.len() && a[i as int],
        Literal::Not(i) => i < a.len() && !a[i as int],
    }
}

/// Truth of a clause: the OR of its literals.
pub open spec fn clause_sat(a: Seq<bool>, c: Seq<Literal>) -> bool {
    exists|k: int| 0 <= k < c.len() && lit_sat(a, #[trigger] c[k])
}

/// Truth of a formula: the AND of its clauses.
pub open spec fn formula_sat(a: Seq<bool>, f: Seq<Seq<Literal>>) -> bool {
    forall|k: int| 0 <= k < f.len() ==> clause_sat(a, #[trigger] f[k])
}

/// A formula is satisfiable when some assignment makes every clause true.
pub open spec fn satisfiable(f: Seq<Seq<Literal>>) -> bool {
    exists|a: Seq<bool>| formula_sat(a, f)
}

/// The mathematical value of a formula: each clause as a sequence of literals.
pub open spec fn formula_view(f: Seq<Vec<Literal>>) -> Seq<Seq<Literal>> {
    Seq::new(f.len(), |i: int| f[i]@)
}

/// Every variable index in the formula lies below `n`.
pub open spec fn formula_bounded(f: Seq<Seq<Literal>>, n: int) -> bool {
    forall|i: int, k: int|
        0 <= i < f.len() && 0 <= k < f[i].len() ==> lit_var(#[trigger] f[i][k]) < n
}

/// Variable `v` occurs (plain or negated) somewhere in the formula.
pub open spec fn var_occurs(f: Seq<Seq<Literal>>, v: int) -> bool {
    exists|i: int, k: int|
        0 <= i < f.len() && 0 <= k < f[i].len() && lit_var(#[trigger] f[i][k]) == v
}

/// The formula holds a unit clause: a clause of exactly one literal.
pub open spec fn has_unit(f: Seq<Seq<Literal>>) -> bool {
    exists|i: int| 0 <= i < f.len() && (#[trigger] f[i]).len() == 1
}

/// The literal over `var` that assigning `truth` makes true.
pub open spec fn lit_for(var: usize, truth: bool) -> Literal {
    if truth {
        Literal::Var(var)
    } else {
        Literal::Not(var)
    }
}

/// `nc` holds exactly the literals of `oc` other than `fl` (duplicates and
/// order aside).
pub open spec fn clause_stripped(nc: Seq<Literal>, oc: Seq<Literal>, fl: Literal) -> bool {
    forall|l: Literal|
        #![trigger nc.contains(l)]
        #![trigger oc.contains(l)]
        nc.contains(l) <==> oc.contains(l) && l != fl
}

/// Two clauses hold the same literals (duplicates and order aside).
pub open spec fn clause_equiv(c1: Seq<Literal>, c2: Seq<Literal>) -> bool {
    forall|l: Literal|
        #![trigger c1.contains(l)]
        #![trigger c2.contains(l)]
        c1.contains(l) <==> c2.contains(l)
}

/// Some clause of `f` before position `hi` is `oc` with `fl` stripped.
pub open spec fn strip_covered(f: Seq<Seq<Literal>>, hi: int, oc: Seq<Literal>, fl: Literal) -> bool {
    exists|i: int| 0 <= i < hi && clause_stripped(#[trigger] f[i], oc, fl)
}

/// Clause `c` is one of the clauses of `f0` that lack `tl`, with `fl` stripped.
pub open spec fn stripped_from(f0: Seq<Seq<Literal>>, c: Seq<Literal>, tl: Literal, fl: Literal) -> bool {
    exists|j: int| 0 <= j < f0.len() && !(#[trigger] f0[j]).contains(tl) && clause_stripped(c, f0[j], fl)
}

/// Clause `c` stands somewhere in `f0`.
pub open spec fn in_formula(f0: Seq<Seq<Literal>>, c: Seq<Literal>) -> bool {
    exists|j: int| 0 <= j < f0.len() && c == #[trigger] f0[j]
}

/// Clause `oc` stands in `f` at or after position `lo`.
pub open spec fn appears_from(f: Seq<Seq<Literal>>, lo: int, oc: Seq<Literal>) -> bool {
    exists|i: int| lo <= i < f.len() && #[trigger] f[i] == oc
}

/// Some clause of `f` at or after position `lo` contains `tl`.
pub open spec fn some_clause_contains(f: Seq<Seq<Literal>>, lo: int, tl: Literal) -> bool {
    exists|i: int| lo <= i < f.len() && (#[trigger] f[i]).contains(tl)
}

/// How `assign` rewrites a formula for the assignment `var := truth`: every
/// clause holding the now-true literal is gone, every remaining clause is one
/// of the old clauses with the now-false literal stripped, and every old
/// clause is accounted for one way or the other.
pub open spec fn simplified(of: Seq<Seq<Literal>>, nf: Seq<Seq<Literal>>, var: usize, truth: bool) -> bool {
    let tl = lit_for(var, truth);
    let fl = lit_for(var, !truth);
    &&& forall|i: int|
        #![trigger nf[i]]
        0 <= i < nf.len() ==> stripped_from(of, nf[i], tl, fl)
    &&& forall|j: int|
        0 <= j < of.len() ==> (#[trigger] of[j]).contains(tl) || strip_covered(
            nf,
            nf.len() as int,
            of[j],
            fl,
        )
}

/// Does the clause contain the literal?
fn clause_contains(c: &Vec<Literal>, l: Literal) -> (r: bool)
    ensures
        r == c@.contains(l),
{
    let mut k: usize = 0;
    while k < c.len()
        invariant
            k <= c@.len(),
            forall|p: int| 0 <= p < k ==> c@[p] != l,
        decreases c@.len() - k,
    {
        if c[k] == l {
            assert(c@.contains(l));
            return true;
        }
        k += 1;
    }
    assert(!c@.contains(l));
    false
}

/// A private copy of one clause.
fn clone_clause(c: &Vec<Literal>) -> (r: Vec<Literal>)
    ensures
        r@ == c@,
{
    let mut r: Vec<Literal> = Vec::new();
    let mut k: usize = 0;
    while k < c.len()
        invariant
            k <= c@.len(),
            r@ == c@.take(k as int),
        decreases c@.len() - k,
    {
        r.push(c[k]);
        assert(c@.take(k as int).push(c@[k as int]) =~= c@.take(k as int + 1));
        k += 1;
    }
    assert(c@.take(c@.len() as int) =~= c@);
    r
}

/// A private copy of a whole formula, for branch isolation in the search.
fn clone_formula(f: &Vec<Vec<Literal>>) -> (r: Vec<Vec<Literal>>)
    ensures
        formula_view(r@) == formula_view(f@),
{
    let mut r: Vec<Vec<Literal>> = Vec::new();
    let mut i: usize = 0;
    while i < f.len()
        invariant
            i <= f@.len(),
            r@.len() == i,
            forall|j: int| 0 <= j < i ==> (#[trigger] r@[j])@ == f@[j]@,
        decreases f@.len() - i,
    {
        let c = clone_clause(&f[i]);
        r.push(c);
        i += 1;
    }
    assert(formula_view(r@) =~= formula_view(f@));
    r
}

/// Removes every occurrence of `fl` from the clause, in place, by swapping
/// the last literal into the gap (clause-internal order carries no meaning).
fn strip_literal(c: &mut Vec<Literal>, fl: Literal)
    ensures
        clause_stripped(final(c)@, old(c)@, fl),
        final(c)@.to_multiset() == strip_ms(old(c)@, fl),
{
    let ghost c0 = old(c)@;
    let mut li: usize = 0;
    while li < c.len()
        invariant
            c0 == old(c)@,
            li <= c@.len(),
            forall|p: int| 0 <= p < li ==> c@[p] != fl,
            forall|l: Literal| #[trigger] c@.contains(l) ==> c0.contains(l),
            forall|l: Literal| #[trigger] c0.contains(l) && l != fl ==> c@.contains(l),
            forall|l: Literal|
                l != fl ==> #[trigger] c@.to_multiset().count(l) == c0.to_multiset().count(l),
        decreases c@.len() - li,
    {
        if c[li] == fl {
            let ghost rpre = c@;
            let last = c.pop().unwrap();
            if li < c.len() {
                c.set(li, last);
            }
            proof {
                broadcast use vstd::multiset::group_multiset_axioms;

                if li < rpre.len() - 1 {
                    assert(c@ =~= rpre.update(li as int, rpre.last()).drop_last());
                } else {
                    assert(rpre.update(li as int, rpre.last()) =~= rpre);
                    assert(c@ =~= rpre.update(li as int, rpre.last()).drop_last());
                }
                lemma_swap_remove_multiset(rpre, li as int);
                assert(c@.to_multiset() == rpre.to_multiset().remove(fl));
                assert forall|l: Literal| #[trigger] c@.contains(l) implies c0.contains(l) by {
                    let p = choose|p: int| 0 <= p < c@.len() && c@[p] == l;
                    if p == li && li < rpre.len() - 1 {
                        assert(rpre[rpre.len() - 1] == l);
                    } else {
                        assert(rpre[p] == l);
                    }
                    assert(rpre.contains(l));
                }
                assert forall|l: Literal| #[trigger] c0.contains(l) && l != fl implies c@.contains(
                    l,
                ) by {
                    assert(rpre.contains(l));
                    let p = choose|p: int| 0 <= p < rpre.len() && rpre[p] == l;
                    assert(p != li);
                    if p == rpre.len() - 1 {
                        assert(li < rpre.len() - 1);
                        assert(c@[li as int] == l);
                    } else {
                        assert(c@[p] == l);
                    }
                }
            }
        } else {
            li += 1;
        }
    }
    proof {
        broadcast use vstd::seq_lib::group_to_multiset_ensures;
        broadcast use vstd::multiset::group_multiset_axioms;

        assert forall|l: Literal| #[trigger] c@.contains(l) implies c0.contains(l) && l != fl by {
            let p = choose|p: int| 0 <= p < c@.len() && c@[p] == l;
            assert(c@[p] != fl);
        }
        assert(!c@.contains(fl));
        assert(c@.to_multiset().count(fl) == 0);
        assert(c@.to_multiset() =~= strip_ms(c0, fl));
    }
}

proof fn lemma_ms_init(f: Seq<Seq<Literal>>, tl: Literal, fl: Literal)
    ensures
        formula_ms(f.take(0)).add(simplified_ms(f.skip(0), tl, fl)) == simplified_ms(f, tl, fl),
{
    broadcast use vstd::seq_lib::group_to_multiset_ensures;
    broadcast use vstd::multiset::group_multiset_axioms;

    assert(f.take(0) =~= Seq::<Seq<Literal>>::empty());
    assert(Seq::<Seq<Literal>>::empty().map_values(|c: Seq<Literal>| c.to_multiset())
        =~= Seq::<Multiset<Literal>>::empty());
    assert(formula_ms(f.take(0)) =~= Multiset::empty());
    assert(f.skip(0) =~= f);
    assert(formula_ms(f.take(0)).add(simplified_ms(f.skip(0), tl, fl)) =~= simplified_ms(
        f,
        tl,
        fl,
    ));
}

proof fn lemma_ms_final(f: Seq<Seq<Literal>>, tl: Literal, fl: Literal)
    ensures
        formula_ms(f.take(f.len() as int)).add(simplified_ms(f.skip(f.len() as int), tl, fl))
            == formula_ms(f),
{
    broadcast use vstd::multiset::group_multiset_axioms;

    assert(f.take(f.len() as int) =~= f);
    assert(f.skip(f.len() as int) =~= Seq::<Seq<Literal>>::empty());
    assert(formula_ms(f.take(f.len() as int)).add(
        simplified_ms(f.skip(f.len() as int), tl, fl),
    ) =~= formula_ms(f));
}

proof fn lemma_ms_step_removed(
    fpre: Seq<Seq<Literal>>,
    fnow: Seq<Seq<Literal>>,
    ci: int,
    tl: Literal,
    fl: Literal,
)
    requires
        0 <= ci < fpre.len(),
        fnow == fpre.update(ci, fpre.last()).drop_last(),
        fpre[ci].contains(tl),
    ensures
        formula_ms(fnow.take(ci)).add(simplified_ms(fnow.skip(ci), tl, fl)) == formula_ms(
            fpre.take(ci),
        ).add(simplified_ms(fpre.skip(ci), tl, fl)),
{
    broadcast use vstd::seq_lib::group_to_multiset_ensures;
    broadcast use vstd::multiset::group_multiset_axioms;

    let tailpre = fpre.skip(ci);
    let tailnow = fnow.skip(ci);
    assert(fnow.take(ci) =~= fpre.take(ci));
    assert(tailnow =~= tailpre.update(0, tailpre.last()).drop_last());
    lemma_swap_remove_multiset(tailpre, 0);
    lemma_simplified_ms_remove(tailpre, 0, tl, fl);
    assert(tailpre[0] == fpre[ci]);
    assert(clause_contrib(fpre[ci], tl, fl) =~= Multiset::empty());
    assert(tailpre.remove(0).to_multiset() == tailpre.to_multiset().remove(tailpre[0]));
    assert(tailnow.to_multiset() == tailpre.to_multiset().remove(tailpre[0]));
    lemma_simplified_ms_perm(tailpre.remove(0), tailnow, tl, fl);
    assert(simplified_ms(tailpre, tl, fl) =~= simplified_ms(tailnow, tl, fl));
}

proof fn lemma_ms_step_stripped(
    fpre: Seq<Seq<Literal>>,
    fnow: Seq<Seq<Literal>>,
    ci: int,
    stripped: Seq<Literal>,
    tl: Literal,
    fl: Literal,
)
    requires
        0 <= ci < fpre.len(),
        fnow == fpre.update(ci, stripped),
        !fpre[ci].contains(tl),
        stripped.to_multiset() == strip_ms(fpre[ci], fl),
    ensures
        formula_ms(fnow.take(ci + 1)).add(simplified_ms(fnow.skip(ci + 1), tl, fl)) == formula_ms(
            fpre.take(ci),
        ).add(simplified_ms(fpre.skip(ci), tl, fl)),
{
    broadcast use vstd::multiset::group_multiset_axioms;

    let tailpre = fpre.skip(ci);
    let tailnow = fnow.skip(ci + 1);
    assert(fnow.take(ci + 1) =~= fpre.take(ci).push(stripped));
    lemma_formula_ms_push(fpre.take(ci), stripped);
    assert(tailnow =~= tailpre.remove(0));
    lemma_simplified_ms_remove(tailpre, 0, tl, fl);
    assert(tailpre[0] == fpre[ci]);
    assert(clause_contrib(fpre[ci], tl, fl) =~= Multiset::singleton(stripped.to_multiset()));
    assert(formula_ms(fnow.take(ci + 1)).add(simplified_ms(tailnow, tl, fl)) =~= formula_ms(
        fpre.take(ci),
    ).add(simplified_ms(tailpre, tl, fl)));
}

/// Simplifies a CNF formula under the assignment `var := truth`: removes every
/// clause that the assignment satisfies, and strips the falsified literal from
/// the remaining clauses. Removal works by swap-and-truncate; neither clause
/// order nor literal order is semantically significant.
#[verifier::rlimit(60)]
pub fn simplify(formula: &mut Vec<Vec<Literal>>, var: usize, truth: bool)
    ensures
        simplified(formula_view(old(formula)@), formula_view(final(formula)@), var, truth),
        formula_ms(formula_view(final(formula)@)) == simplified_ms(
            formula_view(old(formula)@),
            lit_for(var, truth),
            lit_for(var, !truth),
        ),
        final(formula)@.len() <= old(formula)@.len(),
        some_clause_contains(formula_view(old(formula)@), 0, lit_for(var, truth))
            ==> final(formula)@.len() < old(formula)@.len(),
{
    let truthy = if truth {
        Literal::Var(var)
    } else {
        Literal::Not(var)
    };
    let falsey = if truth {
        Literal::Not(var)
    } else {
        Literal::Var(var)
    };
    let ghost f0 = formula_view(old(formula)@);
    proof {
        assert forall|i: int|
            #![trigger formula_view(formula@)[i]]
            0 <= i < formula@.len() implies in_formula(f0, formula_view(formula@)[i])
            && (f0[i].contains(truthy) ==> some_clause_contains(formula_view(formula@), 0, truthy)) by {
            assert(formula_view(formula@)[i] == f0[i]);
        }
        assert forall|j: int|
            0 <= j < f0.len() implies appears_from(formula_view(formula@), 0, #[trigger] f0[j]) by {
            assert(formula_view(formula@)[j] == f0[j]);
        }
        lemma_ms_init(f0, truthy, falsey);
        assert(formula_view(formula@).take(0) == f0.take(0));
        assert(formula_view(formula@).skip(0) =~= f0.skip(0));
    }
    let mut ci: usize = 0;
    while ci < formula.len()
        invariant
            truthy == lit_for(var, truth),
            falsey == lit_for(var, !truth),
            f0 == formula_view(old(formula)@),
            ci <= formula@.len(),
            formula@.len() <= f0.len(),
            forall|i: int|
                #![trigger formula_view(formula@)[i]]
                0 <= i < ci ==> stripped_from(f0, formula_view(formula@)[i], truthy, falsey),
            forall|i: int|
                #![trigger formula_view(formula@)[i]]
                ci <= i < formula@.len() ==> in_formula(f0, formula_view(formula@)[i]),
            forall|j: int|
                0 <= j < f0.len() ==> (#[trigger] f0[j]).contains(truthy) || strip_covered(
                    formula_view(formula@),
                    ci as int,
                    f0[j],
                    falsey,
                ) || appears_from(formula_view(formula@), ci as int, f0[j]),
            some_clause_contains(f0, 0, truthy) ==> (formula@.len() < f0.len()
                || some_clause_contains(formula_view(formula@), ci as int, truthy)),
            simplified_ms(f0, truthy, falsey) == formula_ms(
                formula_view(formula@).take(ci as int),
            ).add(simplified_ms(formula_view(formula@).skip(ci as int), truthy, falsey)),
        decreases formula@.len() - ci,
    {
        let ghost fpre = formula_view(formula@);
        let has_truthy = clause_contains(&formula[ci], truthy);
        proof {
            assert(fpre[ci as int] == formula@[ci as int]@);
        }
        if has_truthy {
            let _removed = formula.swap_remove(ci);
            proof {
                let fnow = formula_view(formula@);
                assert(fnow.len() == fpre.len() - 1);
                assert forall|i: int| 0 <= i < fnow.len() && i != ci implies fnow[i] == fpre[i] by {}
                if ci < fnow.len() {
                    assert(fnow[ci as int] == fpre[fpre.len() - 1]);
                }
                // prefix stays accounted for
                assert forall|i: int|
                    #![trigger fnow[i]]
                    0 <= i < ci implies stripped_from(f0, fnow[i], truthy, falsey) by {
                    assert(fnow[i] == fpre[i]);
                    assert(stripped_from(f0, fpre[i], truthy, falsey));
                }
                // the tail still holds untouched clauses
                assert forall|i: int|
                    #![trigger fnow[i]]
                    ci <= i < fnow.len() implies in_formula(f0, fnow[i]) by {
                    if i == ci {
                        assert(fnow[i] == fpre[fpre.len() - 1]);
                        assert(in_formula(f0, fpre[fpre.len() - 1]));
                    } else {
                        assert(fnow[i] == fpre[i]);
                        assert(in_formula(f0, fpre[i]));
                    }
                }
                // every incoming clause is still accounted for
                assert forall|j: int|
                    0 <= j < f0.len() implies (#[trigger] f0[j]).contains(truthy) || strip_covered(
                    fnow,
                    ci as int,
                    f0[j],
                    falsey,
                ) || appears_from(fnow, ci as int, f0[j]) by {
                    if !f0[j].contains(truthy) {
                        if strip_covered(fpre, ci as int, f0[j], falsey) {
                            let i = choose|i: int|
                                0 <= i < ci && clause_stripped(#[trigger] fpre[i], f0[j], falsey);
                            assert(fnow[i] == fpre[i]);
                            assert(clause_stripped(fnow[i], f0[j], falsey));
                        } else {
                            assert(appears_from(fpre, ci as int, f0[j]));
                            let i = choose|i: int| ci <= i < fpre.len() && #[trigger] fpre[i] == f0[j];
                            assert(i != ci);
                            if i == fpre.len() - 1 {
                                assert(ci < fnow.len());
                                assert(fnow[ci as int] == f0[j]);
                            } else {
                                assert(fnow[i] == f0[j]);
                            }
                        }
                    }
                }
                // the removed clause contributes nothing to the simplified content
                assert(fnow =~= fpre.update(ci as int, fpre.last()).drop_last());
                lemma_ms_step_removed(fpre, fnow, ci as int, truthy, falsey);
            }
        } else {
            strip_literal(&mut formula[ci], falsey);
            proof {
                let fnow = formula_view(formula@);
                let stripped = fnow[ci as int];
                assert(fnow.len() == fpre.len());
                assert forall|i: int| 0 <= i < fnow.len() && i != ci implies fnow[i] == fpre[i] by {}
                assert(clause_stripped(fnow[ci as int], fpre[ci as int], falsey));
                assert(in_formula(f0, fpre[ci as int]));
                let jc = choose|j: int| 0 <= j < f0.len() && fpre[ci as int] == #[trigger] f0[j];
                assert(!f0[jc].contains(truthy));
                // prefix, one clause longer
                assert forall|i: int|
                    #![trigger fnow[i]]
                    0 <= i < ci + 1 implies stripped_from(f0, fnow[i], truthy, falsey) by {
                    if i == ci {
                        assert(clause_stripped(fnow[i], f0[jc], falsey));
                    } else {
                        assert(fnow[i] == fpre[i]);
                        assert(stripped_from(f0, fpre[i], truthy, falsey));
                    }
                }
                // tail unchanged
                assert forall|i: int|
                    #![trigger fnow[i]]
                    ci + 1 <= i < fnow.len() implies in_formula(f0, fnow[i]) by {
                    assert(fnow[i] == fpre[i]);
                    assert(in_formula(f0, fpre[i]));
                }
                // every incoming clause still accounted for
                assert forall|j: int|
                    0 <= j < f0.len() implies (#[trigger] f0[j]).contains(truthy) || strip_covered(
                    fnow,
                    ci + 1 as int,
                    f0[j],
                    falsey,
                ) || appears_from(fnow, ci + 1 as int, f0[j]) by {
                    if !f0[j].contains(truthy) {
                        if strip_covered(fpre, ci as int, f0[j], falsey) {
                            let i = choose|i: int|
                                0 <= i < ci && clause_stripped(#[trigger] fpre[i], f0[j], falsey);
                            assert(fnow[i] == fpre[i]);
                            assert(clause_stripped(fnow[i], f0[j], falsey));
                        } else {
                            assert(appears_from(fpre, ci as int, f0[j]));
                            let i = choose|i: int| ci <= i < fpre.len() && #[trigger] fpre[i] == f0[j];
                            if i == ci {
                                assert(f0[j] == fpre[ci as int]);
                                assert(clause_stripped(fnow[ci as int], f0[j], falsey));
                            } else {
                                assert(fnow[i] == f0[j]);
                            }
                        }
                    }
                }
                // a satisfied clause, if any, still sits in the tail
                if some_clause_contains(f0, 0, truthy) && !(fnow.len() < f0.len()) {
                    if some_clause_contains(fpre, ci as int, truthy) {
                        let i0 = choose|i: int|
                            ci <= i < fpre.len() && (#[trigger] fpre[i]).contains(truthy);
                        assert(i0 != ci);
                        assert(fnow[i0] == fpre[i0]);
                        assert(some_clause_contains(fnow, ci + 1 as int, truthy));
                    }
                }
                // the stripped clause moves from the pending tail to the kept prefix
                assert(fnow =~= fpre.update(ci as int, stripped));
                lemma_ms_step_stripped(fpre, fnow, ci as int, stripped, truthy, falsey);
            }
            ci += 1;
        }
    }
    proof {
        let fnow = formula_view(formula@);
        assert forall|j: int|
            0 <= j < f0.len() implies (#[trigger] f0[j]).contains(truthy) || strip_covered(
            fnow,
            fnow.len() as int,
            f0[j],
            falsey,
        ) by {
            if !f0[j].contains(truthy) && appears_from(fnow, ci as int, f0[j]) {
                let i = choose|i: int| ci <= i < fnow.len() && #[trigger] fnow[i] == f0[j];
                assert(false);
            }
        }
        if some_clause_contains(f0, 0, truthy) {
            if some_clause_contains(fnow, ci as int, truthy) {
                let i0 = choose|i: int| ci <= i < fnow.len() && (#[trigger] fnow[i]).contains(truthy);
                assert(false);
            }
        }
        lemma_ms_final(fnow, truthy, falsey);
        assert(ci as int == fnow.len() as int);
        assert(simplified_ms(f0, truthy, falsey) == formula_ms(fnow.take(ci as int)).add(
            simplified_ms(fnow.skip(ci as int), truthy, falsey),
        ));
        assert(fnow.take(ci as int) == fnow.take(fnow.len() as int));
        assert(fnow.skip(ci as int) == fnow.skip(fnow.len() as int));
        assert(formula_ms(fnow) == simplified_ms(f0, truthy, falsey));
    }
}


/// The literals of a clause with every occurrence of `fl` removed: order
/// aside, multiplicities kept.
pub open spec fn strip_ms(oc: Seq<Literal>, fl: Literal) -> Multiset<Literal> {
    oc.to_multiset().filter(|l: Literal| l != fl)
}

/// The clauses of a formula as a multiset of literal multisets: clause order
/// and literal order aside, nothing else forgotten.
pub open spec fn formula_ms(f: Seq<Seq<Literal>>) -> Multiset<Multiset<Literal>> {
    f.map_values(|c: Seq<Literal>| c.to_multiset()).to_multiset()
}

/// What one clause contributes to the simplified formula: nothing when the
/// now-true literal satisfies it, else its stripped literals.
pub open spec fn clause_contrib(c: Seq<Literal>, tl: Literal, fl: Literal) -> Multiset<
    Multiset<Literal>,
> {
    if c.contains(tl) {
        Multiset::empty()
    } else {
        Multiset::singleton(strip_ms(c, fl))
    }
}

/// The exact clause content of the simplified formula: one stripped clause for
/// each clause the assignment does not satisfy, multiplicities kept.
pub open spec fn simplified_ms(of: Seq<Seq<Literal>>, tl: Literal, fl: Literal) -> Multiset<
    Multiset<Literal>,
>
    decreases of.len(),
{
    if of.len() == 0 {
        Multiset::empty()
    } else {
        simplified_ms(of.drop_last(), tl, fl).add(clause_contrib(of.last(), tl, fl))
    }
}

proof fn lemma_update_multiset<A>(s: Seq<A>, i: int, x: A)
    requires
        0 <= i < s.len(),
    ensures
        s.update(i, x).to_multiset() == s.to_multiset().remove(s[i]).insert(x),
    decreases s.len(),
{
    broadcast use vstd::seq_lib::group_to_multiset_ensures;
    broadcast use vstd::multiset::group_multiset_axioms;

    if i == s.len() - 1 {
        assert(s.update(i, x) =~= s.drop_last().push(x));
        assert(s.drop_last() =~= s.remove(i));
        assert(s.update(i, x).to_multiset() =~= s.to_multiset().remove(s[i]).insert(x));
    } else {
        let d = s.drop_last();
        assert(s.update(i, x) =~= d.update(i, x).push(s.last()));
        lemma_update_multiset(d, i, x);
        assert(d[i] == s[i]);
        assert(s =~= d.push(s.last()));
        assert(s.update(i, x).to_multiset() =~= s.to_multiset().remove(s[i]).insert(x));
    }
}

proof fn lemma_swap_remove_multiset<A>(s: Seq<A>, i: int)
    requires
        0 <= i < s.len(),
    ensures
        s.update(i, s.last()).drop_last().to_multiset() == s.to_multiset().remove(s[i]),
{
    broadcast use vstd::seq_lib::group_to_multiset_ensures;
    broadcast use vstd::multiset::group_multiset_axioms;

    if i == s.len() - 1 {
        assert(s.update(i, s.last()) =~= s);
        assert(s.update(i, s.last()).drop_last() =~= s.remove(i));
        assert(s.update(i, s.last()).drop_last().to_multiset() =~= s.to_multiset().remove(s[i]));
    } else {
        let u = s.update(i, s.last());
        lemma_update_multiset(s, i, s.last());
        assert(u.drop_last() =~= u.remove(u.len() - 1));
        assert(u.last() == s.last());
        assert(u.drop_last().to_multiset() =~= s.to_multiset().remove(s[i]));
    }
}

proof fn lemma_simplified_ms_remove(s: Seq<Seq<Literal>>, j: int, tl: Literal, fl: Literal)
    requires
        0 <= j < s.len(),
    ensures
        simplified_ms(s, tl, fl) == simplified_ms(s.remove(j), tl, fl).add(
            clause_contrib(s[j], tl, fl),
        ),
    decreases s.len(),
{
    broadcast use vstd::multiset::group_multiset_axioms;

    if j == s.len() - 1 {
        assert(s.remove(j) =~= s.drop_last());
        assert(simplified_ms(s, tl, fl) =~= simplified_ms(s.remove(j), tl, fl).add(
            clause_contrib(s[j], tl, fl),
        ));
    } else {
        assert(s.remove(j).drop_last() =~= s.drop_last().remove(j));
        assert(s.remove(j).last() == s.last());
        lemma_simplified_ms_remove(s.drop_last(), j, tl, fl);
        assert(s.drop_last()[j] == s[j]);
        assert(simplified_ms(s, tl, fl) =~= simplified_ms(s.remove(j), tl, fl).add(
            clause_contrib(s[j], tl, fl),
        ));
    }
}

proof fn lemma_simplified_ms_perm(s1: Seq<Seq<Literal>>, s2: Seq<Seq<Literal>>, tl: Literal, fl: Literal)
    requires
        s1.to_multiset() == s2.to_multiset(),
    ensures
        simplified_ms(s1, tl, fl) == simplified_ms(s2, tl, fl),
    decreases s1.len(),
{
    broadcast use vstd::seq_lib::group_to_multiset_ensures;
    broadcast use vstd::multiset::group_multiset_axioms;

    if s1.len() == 0 {
        assert(s1.to_multiset().len() == s1.len());
        assert(s2.to_multiset().len() == s2.len());
        assert(s2.len() == 0);
        assert(s2 =~= Seq::<Seq<Literal>>::empty());
        assert(s1 =~= Seq::<Seq<Literal>>::empty());
    } else {
        let c = s1.last();
        assert(s1.contains(c));
        assert(s2.to_multiset().count(c) > 0);
        assert(s2.contains(c));
        let j = choose|j: int| 0 <= j < s2.len() && s2[j] == c;
        lemma_simplified_ms_remove(s2, j, tl, fl);
        assert(s1.drop_last() =~= s1.remove(s1.len() - 1));
        assert(s2.remove(j).to_multiset() =~= s1.drop_last().to_multiset());
        lemma_simplified_ms_perm(s1.drop_last(), s2.remove(j), tl, fl);
        assert(simplified_ms(s1, tl, fl) =~= simplified_ms(s2, tl, fl));
    }
}

proof fn lemma_formula_ms_push(s: Seq<Seq<Literal>>, c: Seq<Literal>)
    ensures
        formula_ms(s.push(c)) == formula_ms(s).insert(c.to_multiset()),
{
    broadcast use vstd::seq_lib::group_to_multiset_ensures;
    broadcast use vstd::multiset::group_multiset_axioms;

    let f = |x: Seq<Literal>| x.to_multiset();
    assert(s.push(c).map_values(f) =~= s.map_values(f).push(c.to_multiset()));
    assert(formula_ms(s.push(c)) =~= formula_ms(s).insert(c.to_multiset()));
}

/// A stripped clause is satisfied exactly when its source clause is, under any
/// assignment that falsifies the stripped literal.
proof fn lemma_stripped_clause_sat(a: Seq<bool>, nc: Seq<Literal>, oc: Seq<Literal>, fl: Literal)
    requires
        clause_stripped(nc, oc, fl),
        !lit_sat(a, fl),
    ensures
        clause_sat(a, nc) == clause_sat(a, oc),
{
    if clause_sat(a, nc) {
        let k = choose|k: int| 0 <= k < nc.len() && lit_sat(a, #[trigger] nc[k]);
        assert(nc.contains(nc[k]));
        assert(oc.contains(nc[k]));
        let p = choose|p: int| 0 <= p < oc.len() && #[trigger] oc[p] == nc[k];
        assert(lit_sat(a, oc[p]));
        assert(clause_sat(a, oc));
    }
    if clause_sat(a, oc) {
        let k = choose|k: int| 0 <= k < oc.len() && lit_sat(a, #[trigger] oc[k]);
        assert(oc[k] != fl);
        assert(oc.contains(oc[k]));
        assert(nc.contains(oc[k]));
        let p = choose|p: int| 0 <= p < nc.len() && #[trigger] nc[p] == oc[k];
        assert(lit_sat(a, nc[p]));
        assert(clause_sat(a, nc));
    }
}

/// Simplifying under `var := truth` keeps the formula's truth value, for every
/// assignment that agrees with that choice.
pub proof fn lemma_simplified_sat_equiv(
    of: Seq<Seq<Literal>>,
    nf: Seq<Seq<Literal>>,
    var: usize,
    truth: bool,
    a: Seq<bool>,
)
    requires
        simplified(of, nf, var, truth),
        var < a.len(),
        a[var as int] == truth,
    ensures
        formula_sat(a, nf) == formula_sat(a, of),
{
    let tl = lit_for(var, truth);
    let fl = lit_for(var, !truth);
    assert(lit_sat(a, tl));
    assert(!lit_sat(a, fl));
    if formula_sat(a, nf) {
        assert forall|j: int| 0 <= j < of.len() implies clause_sat(a, #[trigger] of[j]) by {
            if of[j].contains(tl) {
                let p = choose|p: int| 0 <= p < of[j].len() && #[trigger] of[j][p] == tl;
                assert(lit_sat(a, of[j][p]));
            } else {
                assert(strip_covered(nf, nf.len() as int, of[j], fl));
                let i = choose|i: int|
                    0 <= i < nf.len() && clause_stripped(#[trigger] nf[i], of[j], fl);
                assert(clause_sat(a, nf[i]));
                lemma_stripped_clause_sat(a, nf[i], of[j], fl);
            }
        }
    }
    if formula_sat(a, of) {
        assert forall|i: int| 0 <= i < nf.len() implies clause_sat(a, #[trigger] nf[i]) by {
            assert(stripped_from(of, nf[i], tl, fl));
            let j = choose|j: int|
                0 <= j < of.len() && !(#[trigger] of[j]).contains(tl) && clause_stripped(
                    nf[i],
                    of[j],
                    fl,
                );
            assert(clause_sat(a, of[j]));
            lemma_stripped_clause_sat(a, nf[i], of[j], fl);
        }
    }
}

/// After simplification on `var`, only other variables that already occurred
/// can occur; `var` itself is gone.
pub proof fn lemma_simplified_occurs(of: Seq<Seq<Literal>>, nf: Seq<Seq<Literal>>, var: usize, truth: bool)
    requires
        simplified(of, nf, var, truth),
    ensures
        forall|v: int| #[trigger] var_occurs(nf, v) ==> var_occurs(of, v) && v != var,
{
    let tl = lit_for(var, truth);
    let fl = lit_for(var, !truth);
    assert forall|v: int| #[trigger] var_occurs(nf, v) implies var_occurs(of, v) && v != var by {
        let (i, k) = choose|i: int, k: int|
            0 <= i < nf.len() && 0 <= k < nf[i].len() && lit_var(#[trigger] nf[i][k]) == v;
        let l = nf[i][k];
        assert(nf[i].contains(l));
        assert(stripped_from(of, nf[i], tl, fl));
        let j = choose|j: int|
            0 <= j < of.len() && !(#[trigger] of[j]).contains(tl) && clause_stripped(nf[i], of[j], fl);
        assert(of[j].contains(l));
        let p = choose|p: int| 0 <= p < of[j].len() && #[trigger] of[j][p] == l;
        assert(var_occurs(of, v));
        if v == var {
            assert(l == tl || l == fl);
            assert(false);
        }
    }
}


/// The first unit clause in formula order, if any.
fn find_unit(formula: &Vec<Vec<Literal>>) -> (r: Option<usize>)
    ensures
        match r {
            Some(i) => i < formula@.len() && formula_view(formula@)[i as int].len() == 1,
            None => !has_unit(formula_view(formula@)),
        },
{
    let mut i: usize = 0;
    while i < formula.len()
        invariant
            i <= formula@.len(),
            forall|j: int| 0 <= j < i ==> (#[trigger] formula_view(formula@)[j]).len() != 1,
        decreases formula@.len() - i,
    {
        if formula[i].len() == 1 {
            proof {
                assert(formula_view(formula@)[i as int] == formula@[i as int]@);
            }
            return Some(i);
        }
        proof {
            assert(formula_view(formula@)[i as int] == formula@[i as int]@);
        }
        i += 1;
    }
    None
}

/// Resolves unit clauses to fixpoint: while some clause holds exactly one
/// literal, writes the truth value that literal forces into the assignment and
/// simplifies the formula under it.
pub fn unit_propagate(formula: &mut Vec<Vec<Literal>>, vars: &mut Vec<bool>)
    requires
        formula_bounded(formula_view(old(formula)@), old(vars)@.len() as int),
    ensures
        final(vars)@.len() == old(vars)@.len(),
        formula_bounded(formula_view(final(formula)@), final(vars)@.len() as int),
        !has_unit(formula_view(final(formula)@)),
        forall|v: int|
            #[trigger] var_occurs(formula_view(final(formula)@), v) ==> var_occurs(
                formula_view(old(formula)@),
                v,
            ),
        final(formula)@.len() <= old(formula)@.len(),
        forall|i: int|
            0 <= i < final(vars)@.len() && final(vars)@[i] != old(vars)@[i] ==> var_occurs(
                formula_view(old(formula)@),
                i,
            ),
        forall|i: int|
            0 <= i < final(vars)@.len() && final(vars)@[i] != old(vars)@[i] ==> !var_occurs(
                formula_view(final(formula)@),
                i,
            ),
        forall|a: Seq<bool>|
            #![trigger formula_sat(a, formula_view(old(formula)@))]
            a.len() == final(vars)@.len() && formula_sat(a, formula_view(old(formula)@))
                ==> formula_sat(a, formula_view(final(formula)@)),
        forall|a: Seq<bool>|
            #![trigger formula_sat(a, formula_view(final(formula)@))]
            (a.len() == final(vars)@.len() && formula_sat(a, formula_view(final(formula)@)) && (
            forall|i: int|
                0 <= i < a.len() && a[i] != final(vars)@[i] ==> var_occurs(
                    formula_view(final(formula)@),
                    i,
                ))) ==> formula_sat(a, formula_view(old(formula)@)),
        has_unit(formula_view(old(formula)@)) ==> exists|w: int|
            var_occurs(formula_view(old(formula)@), w) && !(#[trigger] var_occurs(
                formula_view(final(formula)@),
                w,
            )),
        !has_unit(formula_view(old(formula)@)) ==> formula_view(final(formula)@) == formula_view(
            old(formula)@,
        ) && final(vars)@ == old(vars)@,
{
    let ghost f0 = formula_view(old(formula)@);
    let ghost v0 = old(vars)@;
    let ghost n = old(vars)@.len() as int;
    loop
        invariant
            f0 == formula_view(old(formula)@),
            v0 == old(vars)@,
            n == v0.len(),
            vars@.len() == n,
            formula_bounded(formula_view(formula@), n),
            formula@.len() <= old(formula)@.len(),
            forall|v: int|
                #[trigger] var_occurs(formula_view(formula@), v) ==> var_occurs(f0, v),
            forall|i: int| 0 <= i < n && vars@[i] != v0[i] ==> var_occurs(f0, i),
            forall|i: int|
                0 <= i < n && vars@[i] != v0[i] ==> !var_occurs(formula_view(formula@), i),
            forall|a: Seq<bool>|
                #![trigger formula_sat(a, f0)]
                a.len() == n && formula_sat(a, f0) ==> formula_sat(a, formula_view(formula@)),
            forall|a: Seq<bool>|
                #![trigger formula_sat(a, formula_view(formula@))]
                (a.len() == n && formula_sat(a, formula_view(formula@)) && (forall|i: int|
                    0 <= i < n && a[i] != vars@[i] ==> var_occurs(formula_view(formula@), i)))
                    ==> formula_sat(a, f0),
            (formula_view(formula@) == f0 && vars@ == v0) || (has_unit(f0) && exists|w: int|
                var_occurs(f0, w) && !(#[trigger] var_occurs(formula_view(formula@), w))),
        ensures
            !has_unit(formula_view(formula@)),
        decreases formula@.len(),
    {
        let ghost fpre = formula_view(formula@);
        let ghost vpre = vars@;
        let idx = match find_unit(formula) {
            None => {
                break;
            },
            Some(i) => i,
        };
        let lit = formula[idx][0];
        let (var, truth) = match lit {
            Literal::Var(i) => (i, true),
            Literal::Not(i) => (i, false),
        };
        proof {
            assert(fpre[idx as int] == formula@[idx as int]@);
            assert(fpre[idx as int][0] == lit);
            assert(lit_var(lit) < n);
            assert(lit == lit_for(var, truth));
            assert(fpre[idx as int].contains(lit));
        }
        vars.set(var, truth);
        simplify(formula, var, truth);
        proof {
            let fnew = formula_view(formula@);
            let vnew = vars@;
            lemma_simplified_occurs(fpre, fnew, var, truth);
            // the unit clause itself contained the satisfied literal, so the
            // formula shrank
            assert(some_clause_contains(fpre, 0, lit_for(var, truth)));
            // bounds
            assert forall|i: int, k: int|
                0 <= i < fnew.len() && 0 <= k < fnew[i].len() implies lit_var(
                #[trigger] fnew[i][k],
            ) < n by {
                assert(var_occurs(fnew, lit_var(fnew[i][k])));
            }
            // occurrences only shrink against the incoming formula
            assert forall|v: int| #[trigger] var_occurs(fnew, v) implies var_occurs(f0, v) by {
                assert(var_occurs(fpre, v));
            }
            // forced truth: any model of the old formula satisfies the unit
            assert forall|a: Seq<bool>|
                #![trigger formula_sat(a, f0)]
                a.len() == n && formula_sat(a, f0) implies formula_sat(a, fnew) by {
                assert(formula_sat(a, fpre));
                assert(clause_sat(a, fpre[idx as int]));
                let k = choose|k: int|
                    0 <= k < fpre[idx as int].len() && lit_sat(a, #[trigger] fpre[idx as int][k]);
                assert(k == 0);
                assert(lit_sat(a, lit));
                assert(a[var as int] == truth);
                lemma_simplified_sat_equiv(fpre, fnew, var, truth, a);
            }
            // backward direction
            assert forall|a: Seq<bool>|
                #![trigger formula_sat(a, fnew)]
                (a.len() == n && formula_sat(a, fnew) && (forall|i: int|
                    0 <= i < n && a[i] != vnew[i] ==> var_occurs(fnew, i))) implies formula_sat(
                a,
                f0,
            ) by {
                assert(!var_occurs(fnew, var as int));
                assert(a[var as int] == vnew[var as int]);
                assert(a[var as int] == truth);
                lemma_simplified_sat_equiv(fpre, fnew, var, truth, a);
                assert(formula_sat(a, fpre));
                assert forall|i: int|
                    0 <= i < n && a[i] != vpre[i] implies var_occurs(fpre, i) by {
                    if i == var as int {
                        assert(var_occurs(fpre, lit_var(fpre[idx as int][0])));
                    } else {
                        assert(vpre[i] == vnew[i]);
                        assert(var_occurs(fnew, i));
                    }
                }
                assert(formula_sat(a, f0));
            }
            // the propagated variable occurred in the formula
            assert(0 <= idx < fpre.len() && 0 < fpre[idx as int].len() && lit_var(
                fpre[idx as int][0],
            ) == var as int);
            assert(var_occurs(fpre, var as int));
            assert(var_occurs(f0, var as int));
            assert(has_unit(f0) || (fpre == f0 && vpre == v0));
            assert(has_unit(fpre));
            // writes touch only variables of the incoming formula
            assert forall|i: int| 0 <= i < n && vnew[i] != v0[i] implies var_occurs(f0, i) by {
                if i != var as int {
                    assert(vpre[i] == vnew[i]);
                }
            }
            // a written variable never survives into the formula
            assert forall|i: int| 0 <= i < n && vnew[i] != v0[i] implies !var_occurs(fnew, i) by {
                if i != var as int {
                    assert(vpre[i] == vnew[i]);
                    assert(!var_occurs(fpre, i));
                    if var_occurs(fnew, i) {
                        assert(var_occurs(fpre, i));
                    }
                }
            }
            // a variable of the incoming formula has been eliminated
            if fpre == f0 && vpre == v0 {
                assert(!var_occurs(fnew, var as int));
            } else {
                let w = choose|w: int|
                    var_occurs(f0, w) && !(#[trigger] var_occurs(fpre, w));
                assert(!var_occurs(fnew, w));
            }
        }
    }
    proof {
        if has_unit(f0) {
            if formula_view(formula@) == f0 && vars@ == v0 {
                assert(false);
            }
        }
    }
}


/// How often variable `v` occurs in a clause (a repeated variable counts each
/// time).
pub open spec fn count_in_clause(c: Seq<Literal>, v: int) -> nat
    decreases c.len(),
{
    if c.len() == 0 {
        0
    } else {
        count_in_clause(c.drop_last(), v) + (if lit_var(c.last()) == v {
            1nat
        } else {
            0nat
        })
    }
}

/// How often variable `v` occurs in a formula.
pub open spec fn count_in_formula(f: Seq<Seq<Literal>>, v: int) -> nat
    decreases f.len(),
{
    if f.len() == 0 {
        0
    } else {
        count_in_formula(f.drop_last(), v) + count_in_clause(f.last(), v)
    }
}

/// An occurrence count as the branch selector tallies it: saturated at the
/// machine word, so that astronomically large formulas still select a maximal
/// variable of the saturated tallies.
pub open spec fn capped_count(f: Seq<Seq<Literal>>, v: int) -> nat {
    if count_in_formula(f, v) > usize::MAX {
        usize::MAX as nat
    } else {
        count_in_formula(f, v)
    }
}

proof fn lemma_clause_count_step(c: Seq<Literal>, v: int, k: int)
    requires
        0 <= k < c.len(),
    ensures
        count_in_clause(c.take(k + 1), v) == count_in_clause(c.take(k), v) + (if lit_var(c[k]) == v {
            1nat
        } else {
            0nat
        }),
{
    assert(c.take(k + 1).drop_last() =~= c.take(k));
    assert(c.take(k + 1).last() == c[k]);
}

proof fn lemma_formula_count_step(f: Seq<Seq<Literal>>, v: int, k: int)
    requires
        0 <= k < f.len(),
    ensures
        count_in_formula(f.take(k + 1), v) == count_in_formula(f.take(k), v) + count_in_clause(
            f[k],
            v,
        ),
{
    assert(f.take(k + 1).drop_last() =~= f.take(k));
    assert(f.take(k + 1).last() == f[k]);
}

proof fn lemma_clause_count_occurs(c: Seq<Literal>, v: int)
    ensures
        (count_in_clause(c, v) > 0) == exists|k: int| 0 <= k < c.len() && lit_var(#[trigger] c[k]) == v,
    decreases c.len(),
{
    if c.len() == 0 {
        if exists|k: int| 0 <= k < c.len() && lit_var(#[trigger] c[k]) == v {
            let k = choose|k: int| 0 <= k < c.len() && lit_var(#[trigger] c[k]) == v;
            assert(false);
        }
    } else {
        let d = c.drop_last();
        lemma_clause_count_occurs(d, v);
        if exists|k: int| 0 <= k < c.len() && lit_var(#[trigger] c[k]) == v {
            let k = choose|k: int| 0 <= k < c.len() && lit_var(#[trigger] c[k]) == v;
            if k == c.len() - 1 {
                assert(lit_var(c.last()) == v);
            } else {
                assert(lit_var(d[k]) == v);
                assert(count_in_clause(d, v) > 0);
            }
            assert(count_in_clause(c, v) > 0);
        }
        if count_in_clause(c, v) > 0 {
            if lit_var(c.last()) == v {
                assert(lit_var(c[c.len() - 1]) == v);
            } else {
                assert(count_in_clause(d, v) > 0);
                let k = choose|k: int| 0 <= k < d.len() && lit_var(#[trigger] d[k]) == v;
                assert(lit_var(c[k]) == v);
            }
        }
    }
}

/// A variable occurs in a formula exactly when its occurrence count is positive.
pub proof fn lemma_formula_count_occurs(f: Seq<Seq<Literal>>, v: int)
    ensures
        (count_in_formula(f, v) > 0) == var_occurs(f, v),
    decreases f.len(),
{
    if f.len() == 0 {
        if var_occurs(f, v) {
            let (i, k) = choose|i: int, k: int|
                0 <= i < f.len() && 0 <= k < f[i].len() && lit_var(#[trigger] f[i][k]) == v;
            assert(false);
        }
    } else {
        let d = f.drop_last();
        lemma_formula_count_occurs(d, v);
        lemma_clause_count_occurs(f.last(), v);
        if var_occurs(f, v) {
            let (i, k) = choose|i: int, k: int|
                0 <= i < f.len() && 0 <= k < f[i].len() && lit_var(#[trigger] f[i][k]) == v;
            if i == f.len() - 1 {
                assert(lit_var(f.last()[k]) == v);
                assert(count_in_clause(f.last(), v) > 0);
            } else {
                assert(lit_var(d[i][k]) == v);
                assert(var_occurs(d, v));
            }
            assert(count_in_formula(f, v) > 0);
        }
        if count_in_formula(f, v) > 0 {
            if count_in_clause(f.last(), v) > 0 {
                let k = choose|k: int|
                    0 <= k < f.last().len() && lit_var(#[trigger] f.last()[k]) == v;
                assert(lit_var(f[f.len() - 1][k]) == v);
                assert(var_occurs(f, v));
            } else {
                assert(count_in_formula(d, v) > 0);
                let (i, k) = choose|i: int, k: int|
                    0 <= i < d.len() && 0 <= k < d[i].len() && lit_var(#[trigger] d[i][k]) == v;
                assert(lit_var(f[i][k]) == v);
                assert(var_occurs(f, v));
            }
        }
    }
}

/// Finds the most used variable in a formula: the one appearing in the most
/// literals, lowest index winning ties.
pub fn find_dominant_variable(formula: &Vec<Vec<Literal>>, n_vars: usize) -> (r: usize)
    requires
        n_vars >= 1,
        formula_bounded(formula_view(formula@), n_vars as int),
    ensures
        r < n_vars,
        forall|v: int|
            0 <= v < n_vars ==> capped_count(formula_view(formula@), v) <= capped_count(
                formula_view(formula@),
                r as int,
            ),
        forall|v: int|
            0 <= v < r ==> capped_count(formula_view(formula@), v) < capped_count(
                formula_view(formula@),
                r as int,
            ),
{
    let ghost fv = formula_view(formula@);
    let mut freqs: Vec<usize> = Vec::new();
    let mut t: usize = 0;
    while t < n_vars
        invariant
            t <= n_vars,
            freqs@.len() == t,
            forall|p: int| 0 <= p < t ==> freqs@[p] == 0,
        decreases n_vars - t,
    {
        freqs.push(0);
        t += 1;
    }
    let mut ci: usize = 0;
    while ci < formula.len()
        invariant
            fv == formula_view(formula@),
            formula_bounded(fv, n_vars as int),
            ci <= fv.len(),
            freqs@.len() == n_vars,
            forall|v: int|
                0 <= v < n_vars ==> freqs@[v] == (if count_in_formula(fv.take(ci as int), v)
                    > usize::MAX {
                    usize::MAX as nat
                } else {
                    count_in_formula(fv.take(ci as int), v)
                }),
        decreases fv.len() - ci,
    {
        let clause = &formula[ci];
        proof {
            assert(clause@ == fv[ci as int]);
        }
        let mut li: usize = 0;
        while li < clause.len()
            invariant
                fv == formula_view(formula@),
                formula_bounded(fv, n_vars as int),
                ci < fv.len(),
                clause@ == fv[ci as int],
                li <= clause@.len(),
                freqs@.len() == n_vars,
                forall|v: int|
                    0 <= v < n_vars ==> freqs@[v] == (if count_in_formula(fv.take(ci as int), v)
                        + count_in_clause(clause@.take(li as int), v) > usize::MAX {
                        usize::MAX as nat
                    } else {
                        count_in_formula(fv.take(ci as int), v) + count_in_clause(
                            clause@.take(li as int),
                            v,
                        )
                    }),
            decreases clause@.len() - li,
        {
            let lit = clause[li];
            let i = match lit {
                Literal::Var(i) => i,
                Literal::Not(i) => i,
            };
            proof {
                assert(lit == fv[ci as int][li as int]);
                assert(lit_var(lit) < n_vars as int);
                lemma_clause_count_step(clause@, i as int, li as int);
                assert forall|v: int| 0 <= v < n_vars && v != i as int implies count_in_clause(
                    clause@.take(li as int + 1),
                    v,
                ) == count_in_clause(clause@.take(li as int), v) by {
                    lemma_clause_count_step(clause@, v, li as int);
                }
            }
            if freqs[i] < usize::MAX {
                let fi = freqs[i];
                freqs.set(i, fi + 1);
            }
            li += 1;
        }
        proof {
            assert(clause@.take(clause@.len() as int) =~= clause@);
            assert forall|v: int| 0 <= v < n_vars implies count_in_formula(
                fv.take(ci as int + 1),
                v,
            ) == count_in_formula(fv.take(ci as int), v) + count_in_clause(clause@, v) by {
                lemma_formula_count_step(fv, v, ci as int);
            }
        }
        ci += 1;
    }
    proof {
        assert(fv.take(fv.len() as int) =~= fv);
    }
    let mut max: usize = 0;
    let mut argmax: usize = 0;
    let mut i: usize = 0;
    while i < n_vars
        invariant
            fv == formula_view(formula@),
            i <= n_vars,
            n_vars >= 1,
            freqs@.len() == n_vars,
            forall|v: int| 0 <= v < n_vars ==> freqs@[v] == capped_count(fv, v),
            argmax < n_vars,
            forall|v: int| 0 <= v < i ==> capped_count(fv, v) <= max,
            forall|v: int| 0 <= v < argmax ==> capped_count(fv, v) < max,
            (max == 0 && argmax == 0) || capped_count(fv, argmax as int) == max,
            argmax < i || argmax == 0,
        decreases n_vars - i,
    {
        if freqs[i] > max {
            max = freqs[i];
            argmax = i;
        }
        i += 1;
    }
    proof {
        if max == 0 {
            assert(capped_count(fv, argmax as int) == 0);
        }
    }
    argmax
}


/// How many of the variables below `k` occur in the formula.
pub open spec fn count_occurring(f: Seq<Seq<Literal>>, k: int) -> nat
    decreases k,
{
    if k <= 0 {
        0
    } else {
        count_occurring(f, k - 1) + (if var_occurs(f, k - 1) {
            1nat
        } else {
            0nat
        })
    }
}

proof fn lemma_count_occurring_le(f1: Seq<Seq<Literal>>, f2: Seq<Seq<Literal>>, k: int)
    requires
        forall|v: int| #[trigger] var_occurs(f1, v) ==> var_occurs(f2, v),
    ensures
        count_occurring(f1, k) <= count_occurring(f2, k),
    decreases k,
{
    if k > 0 {
        lemma_count_occurring_le(f1, f2, k - 1);
    }
}

proof fn lemma_count_occurring_lt(f1: Seq<Seq<Literal>>, f2: Seq<Seq<Literal>>, k: int, w: int)
    requires
        forall|v: int| #[trigger] var_occurs(f1, v) ==> var_occurs(f2, v),
        !var_occurs(f1, w),
        var_occurs(f2, w),
        0 <= w < k,
    ensures
        count_occurring(f1, k) < count_occurring(f2, k),
    decreases k,
{
    if w == k - 1 {
        lemma_count_occurring_le(f1, f2, k - 1);
    } else {
        lemma_count_occurring_lt(f1, f2, k - 1, w);
    }
}

proof fn lemma_count_occurring_agree(f1: Seq<Seq<Literal>>, f2: Seq<Seq<Literal>>, k: int)
    requires
        forall|v: int|
            #![trigger var_occurs(f1, v)]
            #![trigger var_occurs(f2, v)]
            var_occurs(f1, v) == var_occurs(f2, v),
    ensures
        count_occurring(f1, k) == count_occurring(f2, k),
    decreases k,
{
    if k > 0 {
        lemma_count_occurring_agree(f1, f2, k - 1);
    }
}

proof fn lemma_count_occurring_ext(f: Seq<Seq<Literal>>, k1: int, k2: int)
    requires
        0 <= k1 <= k2,
        forall|v: int| k1 <= v < k2 ==> !(#[trigger] var_occurs(f, v)),
    ensures
        count_occurring(f, k1) == count_occurring(f, k2),
    decreases k2 - k1,
{
    if k2 > k1 {
        lemma_count_occurring_ext(f, k1, k2 - 1);
    }
}

/// One more than the highest variable index in a clause; zero for an empty one.
pub open spec fn clause_num_vars(c: Seq<Literal>) -> nat
    decreases c.len(),
{
    if c.len() == 0 {
        0
    } else {
        let rest = clause_num_vars(c.drop_last());
        let this = (lit_var(c.last()) + 1) as nat;
        if this > rest {
            this
        } else {
            rest
        }
    }
}

/// One more than the highest variable index in a formula; zero for an empty one.
pub open spec fn formula_num_vars(f: Seq<Seq<Literal>>) -> nat
    decreases f.len(),
{
    if f.len() == 0 {
        0
    } else {
        let rest = formula_num_vars(f.drop_last());
        let this = clause_num_vars(f.last());
        if this > rest {
            this
        } else {
            rest
        }
    }
}

proof fn lemma_clause_num_vars_bound(c: Seq<Literal>)
    ensures
        forall|k: int| 0 <= k < c.len() ==> lit_var(#[trigger] c[k]) < clause_num_vars(c),
    decreases c.len(),
{
    if c.len() > 0 {
        let d = c.drop_last();
        lemma_clause_num_vars_bound(d);
        assert forall|k: int| 0 <= k < c.len() implies lit_var(#[trigger] c[k]) < clause_num_vars(c) by {
            if k < c.len() - 1 {
                assert(d[k] == c[k]);
                assert(lit_var(d[k]) < clause_num_vars(d));
            } else {
                assert(c[k] == c.last());
            }
        }
    }
}

/// Every variable of a formula lies below the formula's variable count.
pub proof fn lemma_formula_num_vars_bound(f: Seq<Seq<Literal>>)
    ensures
        formula_bounded(f, formula_num_vars(f) as int),
    decreases f.len(),
{
    if f.len() > 0 {
        let d = f.drop_last();
        lemma_formula_num_vars_bound(d);
        lemma_clause_num_vars_bound(f.last());
        assert forall|i: int, k: int|
            0 <= i < f.len() && 0 <= k < f[i].len() implies lit_var(#[trigger] f[i][k])
            < formula_num_vars(f) as int by {
            if i < f.len() - 1 {
                assert(d[i] == f[i]);
                assert(lit_var(d[i][k]) < formula_num_vars(d) as int);
            } else {
                assert(f[i] == f.last());
                assert(lit_var(f.last()[k]) < clause_num_vars(f.last()) as int);
            }
        }
    }
}

proof fn lemma_clause_num_vars_le(c: Seq<Literal>, b: int)
    requires
        0 <= b,
        forall|k: int| 0 <= k < c.len() ==> lit_var(#[trigger] c[k]) < b,
    ensures
        clause_num_vars(c) <= b,
    decreases c.len(),
{
    if c.len() > 0 {
        let d = c.drop_last();
        assert forall|k: int| 0 <= k < d.len() implies lit_var(#[trigger] d[k]) < b by {
            assert(d[k] == c[k]);
        }
        lemma_clause_num_vars_le(d, b);
        assert(lit_var(c[c.len() - 1]) < b);
    }
}

/// A bound on every variable of a formula bounds its variable count.
pub proof fn lemma_formula_num_vars_le(f: Seq<Seq<Literal>>, b: int)
    requires
        0 <= b,
        formula_bounded(f, b),
    ensures
        formula_num_vars(f) <= b,
    decreases f.len(),
{
    if f.len() > 0 {
        let d = f.drop_last();
        assert forall|i: int, k: int|
            0 <= i < d.len() && 0 <= k < d[i].len() implies lit_var(#[trigger] d[i][k]) < b by {
            assert(d[i] == f[i]);
        }
        lemma_formula_num_vars_le(d, b);
        assert forall|k: int| 0 <= k < f.last().len() implies lit_var(#[trigger] f.last()[k]) < b by {
            assert(f.last() == f[f.len() - 1]);
        }
        lemma_clause_num_vars_le(f.last(), b);
    }
}

proof fn lemma_occurs_lt_num_vars(f: Seq<Seq<Literal>>, u: int)
    requires
        var_occurs(f, u),
    ensures
        u < formula_num_vars(f),
{
    lemma_formula_num_vars_bound(f);
    let (i, k) = choose|i: int, k: int|
        0 <= i < f.len() && 0 <= k < f[i].len() && lit_var(#[trigger] f[i][k]) == u;
}

proof fn lemma_occurs_push(f: Seq<Seq<Literal>>, c: Seq<Literal>, v: int)
    ensures
        var_occurs(f.push(c), v) == (var_occurs(f, v) || exists|k: int|
            0 <= k < c.len() && lit_var(#[trigger] c[k]) == v),
{
    let g = f.push(c);
    if var_occurs(g, v) {
        let (i, k) = choose|i: int, k: int|
            0 <= i < g.len() && 0 <= k < g[i].len() && lit_var(#[trigger] g[i][k]) == v;
        if i == f.len() {
            assert(g[i] == c);
            assert(lit_var(c[k]) == v);
        } else {
            assert(g[i] == f[i]);
            assert(var_occurs(f, v));
        }
    }
    if var_occurs(f, v) {
        let (i, k) = choose|i: int, k: int|
            0 <= i < f.len() && 0 <= k < f[i].len() && lit_var(#[trigger] f[i][k]) == v;
        assert(g[i] == f[i]);
        assert(lit_var(g[i][k]) == v);
        assert(var_occurs(g, v));
    }
    if exists|k: int| 0 <= k < c.len() && lit_var(#[trigger] c[k]) == v {
        let k = choose|k: int| 0 <= k < c.len() && lit_var(#[trigger] c[k]) == v;
        assert(g[f.len() as int] == c);
        assert(lit_var(g[f.len() as int][k]) == v);
        assert(var_occurs(g, v));
    }
}

/// Appending a clause conjoins it: the longer formula holds exactly when both
/// the shorter formula and the clause hold.
pub proof fn lemma_sat_push(a: Seq<bool>, f: Seq<Seq<Literal>>, c: Seq<Literal>)
    ensures
        formula_sat(a, f.push(c)) == (formula_sat(a, f) && clause_sat(a, c)),
{
    let g = f.push(c);
    if formula_sat(a, g) {
        assert forall|k: int| 0 <= k < f.len() implies clause_sat(a, #[trigger] f[k]) by {
            assert(g[k] == f[k]);
            assert(clause_sat(a, g[k]));
        }
        assert(g[f.len() as int] == c);
        assert(clause_sat(a, g[f.len() as int]));
    }
    if formula_sat(a, f) && clause_sat(a, c) {
        assert forall|k: int| 0 <= k < g.len() implies clause_sat(a, #[trigger] g[k]) by {
            if k < f.len() {
                assert(g[k] == f[k]);
                assert(clause_sat(a, f[k]));
            } else {
                assert(g[k] == c);
            }
        }
    }
}


/// Appending a unit clause over a variable of the propagated formula shrinks
/// the search measure: strictly when propagation consumed a unit clause, and
/// otherwise it introduces the first unit clause.
proof fn lemma_branch_decreases(fv0: Seq<Seq<Literal>>, g1: Seq<Seq<Literal>>, c: Seq<Literal>, v: int)
    requires
        c.len() == 1,
        lit_var(c[0]) == v,
        var_occurs(g1, v),
        forall|u: int| #[trigger] var_occurs(g1, u) ==> var_occurs(fv0, u),
        has_unit(fv0) ==> exists|w: int|
            var_occurs(fv0, w) && !(#[trigger] var_occurs(g1, w)),
        !has_unit(fv0) ==> g1 == fv0,
    ensures
        has_unit(g1.push(c)),
        count_occurring(g1.push(c), formula_num_vars(g1.push(c)) as int) <= count_occurring(
            fv0,
            formula_num_vars(fv0) as int,
        ),
        has_unit(fv0) ==> count_occurring(g1.push(c), formula_num_vars(g1.push(c)) as int)
            < count_occurring(fv0, formula_num_vars(fv0) as int),
{
    let fpp = g1.push(c);
    let nv0 = formula_num_vars(fv0) as int;
    assert(fpp[g1.len() as int] == c);
    assert(has_unit(fpp));
    assert forall|u: int| #[trigger] var_occurs(fpp, u) implies var_occurs(fv0, u) by {
        lemma_occurs_push(g1, c, u);
        if !var_occurs(g1, u) {
            let k = choose|k: int| 0 <= k < c.len() && lit_var(#[trigger] c[k]) == u;
            assert(u == v);
        }
    }
    lemma_formula_num_vars_bound(fpp);
    // the appended formula speaks only of variables below the incoming count
    assert forall|u: int| formula_num_vars(fpp) as int <= u < nv0 implies !(#[trigger] var_occurs(
        fpp,
        u,
    )) by {
        if var_occurs(fpp, u) {
            lemma_occurs_lt_num_vars(fpp, u);
        }
    }
    assert forall|i: int, k: int|
        0 <= i < fpp.len() && 0 <= k < fpp[i].len() implies lit_var(#[trigger] fpp[i][k]) < nv0 by {
        assert(var_occurs(fpp, lit_var(fpp[i][k])));
        lemma_occurs_lt_num_vars(fv0, lit_var(fpp[i][k]));
    }
    lemma_formula_num_vars_le(fpp, nv0);
    lemma_count_occurring_ext(fpp, formula_num_vars(fpp) as int, nv0);
    if has_unit(fv0) {
        let w = choose|w: int| var_occurs(fv0, w) && !(#[trigger] var_occurs(g1, w));
        lemma_occurs_push(g1, c, w);
        assert(w != v);
        assert(!var_occurs(fpp, w));
        lemma_occurs_lt_num_vars(fv0, w);
        lemma_count_occurring_lt(fpp, fv0, nv0, w);
    } else {
        assert forall|u: int|
            #![trigger var_occurs(fpp, u)]
            #![trigger var_occurs(fv0, u)]
            var_occurs(fpp, u) == var_occurs(fv0, u) by {
            lemma_occurs_push(g1, c, u);
        }
        lemma_count_occurring_agree(fpp, fv0, nv0);
    }
    lemma_count_occurring_le(fpp, fv0, nv0);
}

/// The recursive DPLL search: propagate unit clauses, stop on an empty formula
/// (satisfied) or an empty clause (conflict), else branch on the dominant
/// variable, trying true before false. On success the assignment holds a model
/// of the formula; on failure no assignment of this size is a model.
pub fn dpll(formula: &Vec<Vec<Literal>>, vars: &mut Vec<bool>) -> (r: bool)
    requires
        formula_bounded(formula_view(formula@), old(vars)@.len() as int),
    ensures
        final(vars)@.len() == old(vars)@.len(),
        forall|i: int|
            0 <= i < final(vars)@.len() && final(vars)@[i] != old(vars)@[i] ==> var_occurs(
                formula_view(formula@),
                i,
            ),
        r ==> formula_sat(final(vars)@, formula_view(formula@)),
        !r ==> forall|a: Seq<bool>|
            #![trigger formula_sat(a, formula_view(formula@))]
            a.len() == final(vars)@.len() ==> !formula_sat(a, formula_view(formula@)),
    decreases
        count_occurring(formula_view(formula@), formula_num_vars(formula_view(formula@)) as int),
        (if has_unit(formula_view(formula@)) {
            0int
        } else {
            1int
        }),
{
    let ghost fv0 = formula_view(formula@);
    let ghost v0 = old(vars)@;
    let ghost n = old(vars)@.len() as int;
    let mut g = clone_formula(formula);
    unit_propagate(&mut g, vars);
    let ghost g1 = formula_view(g@);
    let ghost v1 = vars@;
    if g.len() == 0 {
        proof {
            assert(formula_sat(v1, g1));
            assert(formula_sat(v1, fv0));
        }
        return true;
    }
    let mut has_empty = false;
    let mut i: usize = 0;
    while i < g.len()
        invariant
            i <= g@.len(),
            g1 == formula_view(g@),
            has_empty == exists|j: int| 0 <= j < i && (#[trigger] g1[j]).len() == 0,
        decreases g@.len() - i,
    {
        proof {
            assert(g1[i as int] == g@[i as int]@);
        }
        if g[i].len() == 0 {
            has_empty = true;
        }
        i += 1;
    }
    if has_empty {
        proof {
            let j = choose|j: int| 0 <= j < g1.len() && (#[trigger] g1[j]).len() == 0;
            assert forall|a: Seq<bool>|
                #![trigger formula_sat(a, fv0)]
                a.len() == vars@.len() implies !formula_sat(a, fv0) by {
                if formula_sat(a, fv0) {
                    assert(formula_sat(a, g1));
                    assert(clause_sat(a, g1[j]));
                    let k = choose|k: int| 0 <= k < g1[j].len() && lit_sat(a, #[trigger] g1[j][k]);
                    assert(false);
                }
            }
        }
        return false;
    }
    proof {
        assert(g1[0].len() != 0);
        assert(var_occurs(g1, lit_var(g1[0][0])));
        assert(lit_var(g1[0][0]) < n);
        assert(n >= 1);
    }
    let var = find_dominant_variable(&g, vars.len());
    proof {
        let w0 = lit_var(g1[0][0]);
        lemma_formula_count_occurs(g1, w0);
        assert(count_in_formula(g1, w0) > 0);
        assert(capped_count(g1, w0) >= 1);
        assert(capped_count(g1, var as int) >= 1);
        lemma_formula_count_occurs(g1, var as int);
        assert(var_occurs(g1, var as int));
    }
    // assume the variable true: a synthetic unit clause forces it
    let mut bc: Vec<Literal> = Vec::new();
    bc.push(Literal::Var(var));
    proof {
        assert(bc@ =~= seq![Literal::Var(var)]);
    }
    g.push(bc);
    let ghost fpp1 = formula_view(g@);
    proof {
        assert(fpp1 =~= g1.push(seq![Literal::Var(var)]));
        lemma_branch_decreases(fv0, g1, seq![Literal::Var(var)], var as int);
        assert(formula_bounded(fpp1, n)) by {
            assert forall|i2: int, k2: int|
                0 <= i2 < fpp1.len() && 0 <= k2 < fpp1[i2].len() implies lit_var(
                #[trigger] fpp1[i2][k2],
            ) < n by {
                if i2 < g1.len() {
                    assert(fpp1[i2] == g1[i2]);
                } else {
                    assert(fpp1[i2] == seq![Literal::Var(var)]);
                }
            }
        }
    }
    if dpll(&g, vars) {
        proof {
            let v2 = vars@;
            assert(formula_sat(v2, fpp1));
            lemma_sat_push(v2, g1, seq![Literal::Var(var)]);
            assert(formula_sat(v2, g1));
            assert forall|i2: int| 0 <= i2 < n && v2[i2] != v1[i2] implies var_occurs(g1, i2) by {
                assert(var_occurs(fpp1, i2));
                lemma_occurs_push(g1, seq![Literal::Var(var)], i2);
                if !var_occurs(g1, i2) {
                    let k = choose|k: int|
                        0 <= k < seq![Literal::Var(var)].len() && lit_var(
                            #[trigger] seq![Literal::Var(var)][k],
                        ) == i2;
                    assert(i2 == var as int);
                    assert(false);
                }
            }
            assert(formula_sat(v2, fv0));
            assert forall|i2: int| 0 <= i2 < n && v2[i2] != v0[i2] implies var_occurs(fv0, i2) by {
                if v2[i2] != v1[i2] {
                    assert(var_occurs(g1, i2));
                } else {
                    assert(v1[i2] != v0[i2]);
                }
            }
        }
        return true;
    }
    let ghost v2 = vars@;
    let _ = g.pop();
    proof {
        assert(formula_view(g@) =~= g1);
    }
    let mut bc2: Vec<Literal> = Vec::new();
    bc2.push(Literal::Not(var));
    proof {
        assert(bc2@ =~= seq![Literal::Not(var)]);
    }
    g.push(bc2);
    let ghost fpp2 = formula_view(g@);
    proof {
        assert(fpp2 =~= g1.push(seq![Literal::Not(var)]));
        lemma_branch_decreases(fv0, g1, seq![Literal::Not(var)], var as int);
        assert(formula_bounded(fpp2, n)) by {
            assert forall|i2: int, k2: int|
                0 <= i2 < fpp2.len() && 0 <= k2 < fpp2[i2].len() implies lit_var(
                #[trigger] fpp2[i2][k2],
            ) < n by {
                if i2 < g1.len() {
                    assert(fpp2[i2] == g1[i2]);
                } else {
                    assert(fpp2[i2] == seq![Literal::Not(var)]);
                }
            }
        }
    }
    let r2 = dpll(&g, vars);
    proof {
        let v3 = vars@;
        if r2 {
            assert(formula_sat(v3, fpp2));
            lemma_sat_push(v3, g1, seq![Literal::Not(var)]);
            assert(formula_sat(v3, g1));
            assert forall|i2: int| 0 <= i2 < n && v3[i2] != v1[i2] implies var_occurs(g1, i2) by {
                if v3[i2] != v2[i2] {
                    assert(var_occurs(fpp2, i2));
                    lemma_occurs_push(g1, seq![Literal::Not(var)], i2);
                    if !var_occurs(g1, i2) {
                        let k = choose|k: int|
                            0 <= k < seq![Literal::Not(var)].len() && lit_var(
                                #[trigger] seq![Literal::Not(var)][k],
                            ) == i2;
                        assert(i2 == var as int);
                        assert(false);
                    }
                } else {
                    assert(v2[i2] != v1[i2]);
                    assert(var_occurs(fpp1, i2));
                    lemma_occurs_push(g1, seq![Literal::Var(var)], i2);
                    if !var_occurs(g1, i2) {
                        let k = choose|k: int|
                            0 <= k < seq![Literal::Var(var)].len() && lit_var(
                                #[trigger] seq![Literal::Var(var)][k],
                            ) == i2;
                        assert(i2 == var as int);
                        assert(false);
                    }
                }
            }
            assert(formula_sat(v3, fv0));
        } else {
            assert forall|a: Seq<bool>|
                #![trigger formula_sat(a, fv0)]
                a.len() == n implies !formula_sat(a, fv0) by {
                if formula_sat(a, fv0) {
                    assert(formula_sat(a, g1));
                    if a[var as int] {
                        assert(lit_sat(a, Literal::Var(var)));
                        assert(seq![Literal::Var(var)][0] == Literal::Var(var));
                        assert(clause_sat(a, seq![Literal::Var(var)]));
                        lemma_sat_push(a, g1, seq![Literal::Var(var)]);
                        assert(formula_sat(a, fpp1));
                        assert(false);
                    } else {
                        assert(lit_sat(a, Literal::Not(var)));
                        assert(seq![Literal::Not(var)][0] == Literal::Not(var));
                        assert(clause_sat(a, seq![Literal::Not(var)]));
                        lemma_sat_push(a, g1, seq![Literal::Not(var)]);
                        assert(formula_sat(a, fpp2));
                        assert(false);
                    }
                }
            }
        }
        // writes touch only variables of the formula
        assert forall|i2: int| 0 <= i2 < n && v3[i2] != v0[i2] implies var_occurs(fv0, i2) by {
            if v3[i2] != v2[i2] {
                assert(var_occurs(fpp2, i2));
                lemma_occurs_push(g1, seq![Literal::Not(var)], i2);
                if !var_occurs(g1, i2) {
                    let k = choose|k: int|
                        0 <= k < seq![Literal::Not(var)].len() && lit_var(
                            #[trigger] seq![Literal::Not(var)][k],
                        ) == i2;
                    assert(i2 == var as int);
                    assert(var_occurs(g1, var as int));
                    assert(false);
                }
            } else if v2[i2] != v1[i2] {
                assert(var_occurs(fpp1, i2));
                lemma_occurs_push(g1, seq![Literal::Var(var)], i2);
                if !var_occurs(g1, i2) {
                    let k = choose|k: int|
                        0 <= k < seq![Literal::Var(var)].len() && lit_var(
                            #[trigger] seq![Literal::Var(var)][k],
                        ) == i2;
                    assert(i2 == var as int);
                    assert(var_occurs(g1, var as int));
                    assert(false);
                }
            } else {
                assert(v1[i2] != v0[i2]);
            }
        }
    }
    r2
}


proof fn lemma_clause_num_vars_step(c: Seq<Literal>, k: int)
    requires
        0 <= k < c.len(),
    ensures
        clause_num_vars(c.take(k + 1)) == (if (lit_var(c[k]) + 1) as nat > clause_num_vars(
            c.take(k),
        ) {
            (lit_var(c[k]) + 1) as nat
        } else {
            clause_num_vars(c.take(k))
        }),
{
    assert(c.take(k + 1).drop_last() =~= c.take(k));
    assert(c.take(k + 1).last() == c[k]);
}

proof fn lemma_formula_num_vars_step(f: Seq<Seq<Literal>>, k: int)
    requires
        0 <= k < f.len(),
    ensures
        formula_num_vars(f.take(k + 1)) == (if clause_num_vars(f[k]) > formula_num_vars(f.take(k)) {
            clause_num_vars(f[k])
        } else {
            formula_num_vars(f.take(k))
        }),
{
    assert(f.take(k + 1).drop_last() =~= f.take(k));
    assert(f.take(k + 1).last() == f[k]);
}

/// A model of a formula bounded by `n` can be resized to exactly `n` entries.
proof fn lemma_sat_resize(f: Seq<Seq<Literal>>, a: Seq<bool>, n: int)
    requires
        formula_bounded(f, n),
        0 <= n,
        formula_sat(a, f),
    ensures
        formula_sat(Seq::new(n as nat, |i: int| i < a.len() && a[i]), f),
{
    let b = Seq::new(n as nat, |i: int| i < a.len() && a[i]);
    assert forall|k: int| 0 <= k < f.len() implies clause_sat(b, #[trigger] f[k]) by {
        assert(clause_sat(a, f[k]));
        let p = choose|p: int| 0 <= p < f[k].len() && lit_sat(a, #[trigger] f[k][p]);
        assert(lit_var(f[k][p]) < n);
        assert(lit_sat(b, f[k][p]));
        assert(clause_sat(b, f[k]));
    }
}

/// Solves a satisfiability problem given as a CNF formula.
///
/// Returns a variable assignment exactly when the formula is satisfiable, and
/// an absent result when it is not. The assignment is sized one past the
/// highest variable index the formula references and makes every clause true;
/// entries for variables the formula never references default to false. The
/// formula's variable count must fit the machine word, since it sizes the
/// assignment.
pub fn check_sat(formula: &Vec<Vec<Literal>>) -> (r: Option<Vec<bool>>)
    requires
        formula_num_vars(formula_view(formula@)) <= usize::MAX,
    ensures
        (r is Some) == satisfiable(formula_view(formula@)),
        r matches Some(a) ==> a@.len() == formula_num_vars(formula_view(formula@))
            && formula_sat(a@, formula_view(formula@)),
        r matches Some(a) ==> forall|i: int|
            0 <= i < a@.len() && !var_occurs(formula_view(formula@), i) ==> !a@[i],
{
    let ghost fv = formula_view(formula@);
    proof {
        lemma_formula_num_vars_bound(fv);
    }
    let mut n_vars: usize = 0;
    let mut ci: usize = 0;
    while ci < formula.len()
        invariant
            fv == formula_view(formula@),
            formula_num_vars(fv) <= usize::MAX,
            formula_bounded(fv, formula_num_vars(fv) as int),
            ci <= fv.len(),
            n_vars as nat == formula_num_vars(fv.take(ci as int)),
        decreases fv.len() - ci,
    {
        let clause = &formula[ci];
        proof {
            assert(clause@ == fv[ci as int]);
        }
        let mut li: usize = 0;
        while li < clause.len()
            invariant
                fv == formula_view(formula@),
                formula_num_vars(fv) <= usize::MAX,
                formula_bounded(fv, formula_num_vars(fv) as int),
                ci < fv.len(),
                clause@ == fv[ci as int],
                li <= clause@.len(),
                n_vars as nat >= formula_num_vars(fv.take(ci as int)),
                n_vars as nat >= clause_num_vars(clause@.take(li as int)),
                n_vars as nat == formula_num_vars(fv.take(ci as int)) || n_vars as nat
                    == clause_num_vars(clause@.take(li as int)),
            decreases clause@.len() - li,
        {
            let lit = clause[li];
            let idx = match lit {
                Literal::Var(i) => i,
                Literal::Not(i) => i,
            };
            proof {
                assert(lit == fv[ci as int][li as int]);
                assert(lit_var(lit) < formula_num_vars(fv) as int);
                lemma_clause_num_vars_step(clause@, li as int);
            }
            if idx >= n_vars {
                n_vars = idx + 1;
            }
            li += 1;
        }
        proof {
            assert(clause@.take(clause@.len() as int) =~= clause@);
            lemma_formula_num_vars_step(fv, ci as int);
        }
        ci += 1;
    }
    proof {
        assert(fv.take(fv.len() as int) =~= fv);
    }
    let mut vars: Vec<bool> = Vec::new();
    let mut t: usize = 0;
    while t < n_vars
        invariant
            t <= n_vars,
            vars@.len() == t,
            forall|p: int| 0 <= p < t ==> !vars@[p],
        decreases n_vars - t,
    {
        vars.push(false);
        t += 1;
    }
    if dpll(formula, &mut vars) {
        proof {
            assert(formula_sat(vars@, fv));
            assert(satisfiable(fv));
        }
        Some(vars)
    } else {
        proof {
            assert forall|a: Seq<bool>| !(#[trigger] formula_sat(a, fv)) by {
                if formula_sat(a, fv) {
                    lemma_sat_resize(fv, a, n_vars as int);
                    let b = Seq::new(n_vars as nat, |i: int| i < a.len() && a[i]);
                    assert(!formula_sat(b, fv));
                }
            }
        }
        None
    }
}

/// An empty formula is trivially true: every assignment satisfies it, the
/// empty assignment included.
pub proof fn lemma_empty_formula_sat()
    ensures
        formula_sat(Seq::<bool>::empty(), Seq::<Seq<Literal>>::empty()),
        satisfiable(Seq::<Seq<Literal>>::empty()),
{
    assert(formula_sat(Seq::<bool>::empty(), Seq::<Seq<Literal>>::empty()));
}

/// A formula holding an empty clause is unsatisfiable, whatever other clauses
/// it holds.
pub proof fn lemma_empty_clause_unsat(f: Seq<Seq<Literal>>)
    requires
        exists|i: int| 0 <= i < f.len() && (#[trigger] f[i]).len() == 0,
    ensures
        !satisfiable(f),
{
    let i = choose|i: int| 0 <= i < f.len() && (#[trigger] f[i]).len() == 0;
    assert forall|a: Seq<bool>| !(#[trigger] formula_sat(a, f)) by {
        if formula_sat(a, f) {
            assert(clause_sat(a, f[i]));
            let k = choose|k: int| 0 <= k < f[i].len() && lit_sat(a, #[trigger] f[i][k]);
        }
    }
}

/// The solver's verdict is a function of the formula alone: any two verdicts
/// that each hold exactly when the formula is satisfiable agree, so repeated
/// runs on an unchanged formula agree.
pub proof fn lemma_verdict_deterministic(f: Seq<Seq<Literal>>, s1: bool, s2: bool)
    requires
        s1 == satisfiable(f),
        s2 == satisfiable(f),
    ensures
        s1 == s2,
{
}

/// Truth of a formula is blind to assignment entries for variables that do not
/// occur in it.
pub proof fn lemma_sat_update_nonoccurring(f: Seq<Seq<Literal>>, a: Seq<bool>, v: usize, t: bool)
    requires
        !var_occurs(f, v as int),
        v < a.len(),
    ensures
        formula_sat(a.update(v as int, t), f) == formula_sat(a, f),
{
    let b = a.update(v as int, t);
    assert forall|k: int| 0 <= k < f.len() implies clause_sat(a, #[trigger] f[k]) == clause_sat(
        b,
        f[k],
    ) by {
        if clause_sat(a, f[k]) {
            let p = choose|p: int| 0 <= p < f[k].len() && lit_sat(a, #[trigger] f[k][p]);
            if lit_var(f[k][p]) == v as int {
                assert(var_occurs(f, v as int));
            }
            assert(lit_sat(b, f[k][p]));
        }
        if clause_sat(b, f[k]) {
            let p = choose|p: int| 0 <= p < f[k].len() && lit_sat(b, #[trigger] f[k][p]);
            if lit_var(f[k][p]) == v as int {
                assert(var_occurs(f, v as int));
            }
            assert(lit_sat(a, f[k][p]));
        }
    }
    if formula_sat(a, f) {
        assert forall|k: int| 0 <= k < f.len() implies clause_sat(b, #[trigger] f[k]) by {}
    }
    if formula_sat(b, f) {
        assert forall|k: int| 0 <= k < f.len() implies clause_sat(a, #[trigger] f[k]) by {}
    }
}

/// Clause-wise equivalent formulas (same literals, duplicates and order aside)
/// are satisfied by exactly the same assignments.
pub proof fn lemma_sat_clause_equiv(f1: Seq<Seq<Literal>>, f2: Seq<Seq<Literal>>, a: Seq<bool>)
    requires
        f1.len() == f2.len(),
        forall|j: int| 0 <= j < f1.len() ==> clause_equiv(#[trigger] f1[j], f2[j]),
    ensures
        formula_sat(a, f1) == formula_sat(a, f2),
{
    assert forall|j: int| 0 <= j < f1.len() implies clause_sat(a, #[trigger] f1[j]) == clause_sat(
        a,
        f2[j],
    ) by {
        if clause_sat(a, f1[j]) {
            let p = choose|p: int| 0 <= p < f1[j].len() && lit_sat(a, #[trigger] f1[j][p]);
            assert(f1[j].contains(f1[j][p]));
            assert(f2[j].contains(f1[j][p]));
            let q = choose|q: int| 0 <= q < f2[j].len() && #[trigger] f2[j][q] == f1[j][p];
            assert(lit_sat(a, f2[j][q]));
            assert(clause_sat(a, f2[j]));
        }
        if clause_sat(a, f2[j]) {
            let p = choose|p: int| 0 <= p < f2[j].len() && lit_sat(a, #[trigger] f2[j][p]);
            assert(f2[j].contains(f2[j][p]));
            assert(f1[j].contains(f2[j][p]));
            let q = choose|q: int| 0 <= q < f1[j].len() && #[trigger] f1[j][q] == f2[j][p];
            assert(lit_sat(a, f1[j][q]));
            assert(clause_sat(a, f1[j]));
        }
    }
    if formula_sat(a, f1) {
        assert forall|k: int| 0 <= k < f2.len() implies clause_sat(a, #[trigger] f2[k]) by {
            assert(clause_sat(a, f1[k]));
        }
    }
    if formula_sat(a, f2) {
        assert forall|k: int| 0 <= k < f1.len() implies clause_sat(a, #[trigger] f1[k]) by {
            assert(clause_sat(a, f2[k]));
        }
    }
}

/// Simplification is confluent with duplicate literals: simplifying a formula,
/// and simplifying one whose clauses hold the same literals with duplicates
/// removed, give formulas that the same assignments satisfy.
pub proof fn lemma_simplify_confluent(
    f1: Seq<Seq<Literal>>,
    n1: Seq<Seq<Literal>>,
    f2: Seq<Seq<Literal>>,
    n2: Seq<Seq<Literal>>,
    var: usize,
    truth: bool,
    a: Seq<bool>,
)
    requires
        simplified(f1, n1, var, truth),
        simplified(f2, n2, var, truth),
        f1.len() == f2.len(),
        forall|j: int| 0 <= j < f1.len() ==> clause_equiv(#[trigger] f1[j], f2[j]),
        var < a.len(),
    ensures
        formula_sat(a, n1) == formula_sat(a, n2),
{
    let b = a.update(var as int, truth);
    lemma_simplified_occurs(f1, n1, var, truth);
    lemma_simplified_occurs(f2, n2, var, truth);
    if var_occurs(n1, var as int) {
        assert(false);
    }
    if var_occurs(n2, var as int) {
        assert(false);
    }
    lemma_sat_update_nonoccurring(n1, a, var, truth);
    lemma_sat_update_nonoccurring(n2, a, var, truth);
    lemma_simplified_sat_equiv(f1, n1, var, truth, b);
    lemma_simplified_sat_equiv(f2, n2, var, truth, b);
    lemma_sat_clause_equiv(f1, f2, b);
}


} // verus!