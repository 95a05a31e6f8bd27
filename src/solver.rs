//! The bottom-up fixpoint engine: unification of predicates with facts,
//! conjunctive joins, rule application and bounded naive iteration.
use vstd::prelude::*;
use crate::datalog::{
    Predicate, PredV, Rule, RuleV, Term, TermV, contains_pred, copy_env, copy_pred, copy_term,
    env_view, fact_set, lookup_var, preds_view, rules_view, term_eq,
};
use crate::expr::{expression_holds, holds};
use crate::datalog::OpV;
use crate::error::Error;

verus! {

/// Binds or checks one pattern term against one fact term.
pub open spec fn unify_term(p: TermV, f: TermV, env: Map<u32, TermV>) -> Option<
    Map<u32, TermV>,
> {
    match p {
        TermV::Variable(v) => if env.contains_key(v) {
            if env[v] == f {
                Some(env)
            } else {
                None
            }
        } else {
            Some(env.insert(v, f))
        },
        _ => if p == f {
            Some(env)
        } else {
            None
        },
    }
}

/// Unifies two term lists position by position, extending `env`.
pub open spec fn unify_terms(ps: Seq<TermV>, fs: Seq<TermV>, env: Map<u32, TermV>) -> Option<
    Map<u32, TermV>,
>
    decreases ps.len(),
{
    if ps.len() == 0 || fs.len() == 0 {
        Some(env)
    } else {
        match unify_terms(ps.drop_last(), fs.drop_last(), env) {
            Some(e) => unify_term(ps.last(), fs.last(), e),
            None => None,
        }
    }
}

/// The extension of `env` under which pattern `p` becomes fact `f`, if any.
pub open spec fn unify(p: PredV, f: PredV, env: Map<u32, TermV>) -> Option<Map<u32, TermV>> {
    if p.name == f.name && p.terms.len() == f.terms.len() {
        unify_terms(p.terms, f.terms, env)
    } else {
        None
    }
}

/// The bindings that extend `env` so that every predicate of `body`,
/// left to right, unifies with a fact of `facts`.
pub open spec fn solutions(facts: Set<PredV>, body: Seq<PredV>, env: Map<u32, TermV>) -> Set<
    Map<u32, TermV>,
>
    decreases body.len(),
{
    if body.len() == 0 {
        set![env]
    } else {
        let prev = solutions(facts, body.drop_last(), env);
        Set::new(
            |e2: Map<u32, TermV>|
                exists|e1: Map<u32, TermV>, f: PredV|
                    #![trigger prev.contains(e1), facts.contains(f)]
                    prev.contains(e1) && facts.contains(f) && unify(body.last(), f, e1) == Some(e2),
        )
    }
}

/// A term with bound variables replaced by their values.
pub open spec fn subst_term(t: TermV, env: Map<u32, TermV>) -> TermV {
    match t {
        TermV::Variable(v) => if env.contains_key(v) {
            env[v]
        } else {
            t
        },
        _ => t,
    }
}

/// A predicate with bound variables replaced by their values.
pub open spec fn subst_pred(p: PredV, env: Map<u32, TermV>) -> PredV {
    PredV { name: p.name, terms: p.terms.map_values(|t: TermV| subst_term(t, env)) }
}

/// Every expression of the list evaluates to `true` under `env`.
pub open spec fn all_hold(exprs: Seq<Seq<OpV>>, env: Map<u32, TermV>) -> bool {
    forall|i: int| 0 <= i < exprs.len() ==> holds(#[trigger] exprs[i], env)
}

/// The fact a rule produces under a binding of its body: the head, when
/// the expressions hold and it is ground.
pub open spec fn candidate(r: RuleV, env: Map<u32, TermV>) -> Option<PredV> {
    if all_hold(r.expressions, env) && subst_pred(r.head, env).is_ground() {
        Some(subst_pred(r.head, env))
    } else {
        None
    }
}

/// The facts that one application of rule `r` derives from `facts`.
pub open spec fn derived(facts: Set<PredV>, r: RuleV) -> Set<PredV> {
    let sols = solutions(facts, r.body, Map::empty());
    Set::new(
        |h: PredV|
            exists|e: Map<u32, TermV>| #[trigger] sols.contains(e) && candidate(r, e) == Some(h),
    )
}

/// Once a prefix fails to unify, the whole lists fail.
proof fn lemma_unify_fails(ps: Seq<TermV>, fs: Seq<TermV>, env: Map<u32, TermV>, i: int)
    requires
        0 < i <= ps.len(),
        ps.len() == fs.len(),
        unify_terms(ps.subrange(0, i), fs.subrange(0, i), env) is None,
    ensures
        unify_terms(ps, fs, env) is None,
    decreases ps.len() - i,
{
    if i < ps.len() {
        assert(ps.subrange(0, i + 1).drop_last() =~= ps.subrange(0, i));
        assert(fs.subrange(0, i + 1).drop_last() =~= fs.subrange(0, i));
        lemma_unify_fails(ps, fs, env, i + 1);
    } else {
        assert(ps.subrange(0, i) =~= ps);
        assert(fs.subrange(0, i) =~= fs);
    }
}

/// Computes [`unify`] on bindings lists.
pub fn unify_exec(p: &Predicate, f: &Predicate, env: &Vec<(u32, Term)>) -> (r: Option<
    Vec<(u32, Term)>,
>)
    ensures
        match r {
            Some(e) => unify(p@, f@, env_view(env@)) == Some(env_view(e@)),
            None => unify(p@, f@, env_view(env@)) is None,
        },
{
    if p.name != f.name || p.terms.len() != f.terms.len() {
        return None;
    }
    let ghost ps = p@.terms;
    let ghost fs = f@.terms;
    let ghost env0 = env_view(env@);
    let mut e = copy_env(env);
    let mut i: usize = 0;
    assert(ps.subrange(0, 0).len() == 0);
    while i < p.terms.len()
        invariant
            i <= p.terms.len(),
            p.terms.len() == f.terms.len(),
            ps == p@.terms,
            fs == f@.terms,
            env0 == env_view(env@),
            unify_terms(ps.subrange(0, i as int), fs.subrange(0, i as int), env0) == Some(
                env_view(e@),
            ),
        decreases p.terms.len() - i,
    {
        assert(ps.subrange(0, i + 1).drop_last() =~= ps.subrange(0, i as int));
        assert(fs.subrange(0, i + 1).drop_last() =~= fs.subrange(0, i as int));
        assert(ps.subrange(0, i + 1).last() == p.terms@[i as int]@);
        assert(fs.subrange(0, i + 1).last() == f.terms@[i as int]@);
        match &p.terms[i] {
            Term::Variable(v) => match lookup_var(&e, *v) {
                Some(t) => {
                    if !term_eq(&t, &f.terms[i]) {
                        proof {
                            assert(ps.subrange(0, i + 1).last() == TermV::Variable(*v));
                            assert(unify_term(ps.subrange(0, i + 1).last(), fs.subrange(0, i + 1).last(), env_view(e@)) is None);
                            assert(unify_terms(ps.subrange(0, i + 1), fs.subrange(0, i + 1), env0) is None);
                            lemma_unify_fails(ps, fs, env0, i + 1);
                            assert(unify_terms(ps, fs, env0) is None);
                            assert(p@.terms.len() == f@.terms.len());
                            assert(unify(p@, f@, env0) is None);
                        }
                        return None;
                    }
                },
                None => {
                    let t = copy_term(&f.terms[i]);
                    let ghost before = e@;
                    e.push((*v, t));
                    assert(e@.drop_last() =~= before);
                },
            },
            _ => {
                if !term_eq(&p.terms[i], &f.terms[i]) {
                    proof {
                        lemma_unify_fails(ps, fs, env0, i + 1);
                    }
                    return None;
                }
            },
        }
        i = i + 1;
    }
    assert(ps.subrange(0, i as int) =~= ps);
    assert(fs.subrange(0, i as int) =~= fs);
    Some(e)
}

/// The set of bindings held in a list.
pub open spec fn envs_set(s: Seq<Vec<(u32, Term)>>) -> Set<Map<u32, TermV>> {
    s.map_values(|e: Vec<(u32, Term)>| env_view(e@)).to_set()
}

/// Unification of the `y`-th fact with the `x`-th binding.
pub open spec fn unify_at(
    p: PredV,
    fv: Seq<PredV>,
    cv: Seq<Map<u32, TermV>>,
    x: int,
    y: int,
) -> Option<Map<u32, TermV>> {
    unify(p, fv[y], cv[x])
}

/// The pairs of binding `x` and fact `y` handled once `a` bindings were
/// done and `j` facts against binding `a`.
pub open spec fn visited(x: int, y: int, a: int, j: int, n: int) -> bool {
    (0 <= x < a && 0 <= y < n) || (x == a && 0 <= y < j)
}

/// Enumerates [`solutions`] of a rule body from empty bindings.
pub fn join(facts: &Vec<Predicate>, body: &Vec<Predicate>) -> (r: Vec<Vec<(u32, Term)>>)
    ensures
        envs_set(r@) == solutions(fact_set(facts@), preds_view(body@), Map::empty()),
{
    let ghost fs = fact_set(facts@);
    let ghost fv = preds_view(facts@);
    let ghost bv = preds_view(body@);
    let mut cur: Vec<Vec<(u32, Term)>> = Vec::new();
    cur.push(Vec::new());
    assert(env_view(cur@[0]@) == Map::<u32, TermV>::empty());
    assert(bv.subrange(0, 0).len() == 0);
    assert(envs_set(cur@) =~= set![Map::<u32, TermV>::empty()]) by {
        let cvs = cur@.map_values(|e: Vec<(u32, Term)>| env_view(e@));
        assert(cvs.len() == 1 && cvs[0] == Map::<u32, TermV>::empty());
        assert(cvs.contains(Map::<u32, TermV>::empty()));
    }
    let mut i: usize = 0;
    while i < body.len()
        invariant
            i <= body.len(),
            fs == fact_set(facts@),
            fv == preds_view(facts@),
            bv == preds_view(body@),
            envs_set(cur@) == solutions(fs, bv.subrange(0, i as int), Map::empty()),
        decreases body.len() - i,
    {
        let ghost cv = cur@.map_values(|e: Vec<(u32, Term)>| env_view(e@));
        let ghost p = bv[i as int];
        let mut next: Vec<Vec<(u32, Term)>> = Vec::new();
        let ghost mut wit: Seq<(int, int)> = Seq::empty();
        let mut a: usize = 0;
        while a < cur.len()
            invariant
                a <= cur.len(),
                i < body.len(),
                cv == cur@.map_values(|e: Vec<(u32, Term)>| env_view(e@)),
                fv == preds_view(facts@),
                p == body@[i as int]@,
                wit.len() == next@.len(),
                forall|k: int|
                    0 <= k < next@.len() ==> visited(
                        (#[trigger] wit[k]).0,
                        wit[k].1,
                        a as int,
                        0,
                        facts@.len() as int,
                    ) && unify_at(p, fv, cv, wit[k].0, wit[k].1) == Some(env_view(next@[k]@)),
                forall|x: int, y: int|
                    visited(x, y, a as int, 0, facts@.len() as int) && (#[trigger] unify_at(
                        p,
                        fv,
                        cv,
                        x,
                        y,
                    )) is Some ==> envs_set(next@).contains(unify_at(p, fv, cv, x, y)->0),
            decreases cur.len() - a,
        {
            let mut j: usize = 0;
            while j < facts.len()
                invariant
                    a < cur.len(),
                    i < body.len(),
                    j <= facts.len(),
                    cv == cur@.map_values(|e: Vec<(u32, Term)>| env_view(e@)),
                    fv == preds_view(facts@),
                    p == body@[i as int]@,
                    wit.len() == next@.len(),
                    forall|k: int|
                        0 <= k < next@.len() ==> visited(
                            (#[trigger] wit[k]).0,
                            wit[k].1,
                            a as int,
                            j as int,
                            facts@.len() as int,
                        ) && unify_at(p, fv, cv, wit[k].0, wit[k].1) == Some(env_view(next@[k]@)),
                    forall|x: int, y: int|
                        visited(x, y, a as int, j as int, facts@.len() as int) && (
                        #[trigger] unify_at(p, fv, cv, x, y)) is Some ==> envs_set(
                            next@,
                        ).contains(unify_at(p, fv, cv, x, y)->0),
                decreases facts.len() - j,
            {
                let u = unify_exec(&body[i], &facts[j], &cur[a]);
                assert(unify_at(p, fv, cv, a as int, j as int) == unify(
                    body@[i as int]@,
                    facts@[j as int]@,
                    env_view(cur@[a as int]@),
                ));
                let ghost old_next = next@;
                let ghost old_wit = wit;
                match u {
                    Some(e) => {
                        next.push(e);
                        proof {
                            wit = wit.push((a as int, j as int));
                        }
                        assert forall|k: int|
                            0 <= k < next@.len() implies visited(
                            (#[trigger] wit[k]).0,
                            wit[k].1,
                            a as int,
                            j + 1,
                            facts@.len() as int,
                        ) && unify_at(p, fv, cv, wit[k].0, wit[k].1) == Some(env_view(next@[k]@)) by {
                            if k < old_next.len() {
                                assert(next@[k] == old_next[k]);
                                assert(wit[k] == old_wit[k]);
                            }
                        }
                        assert forall|x: int, y: int|
                            visited(x, y, a as int, j + 1, facts@.len() as int) && (
                            #[trigger] unify_at(p, fv, cv, x, y)) is Some implies envs_set(
                                next@,
                            ).contains(unify_at(p, fv, cv, x, y)->0) by {
                            let nv = next@.map_values(|e: Vec<(u32, Term)>| env_view(e@));
                            if x == a && y == j {
                                assert(nv[next@.len() - 1] == unify_at(p, fv, cv, x, y)->0);
                            } else {
                                let ov = old_next.map_values(|e: Vec<(u32, Term)>| env_view(e@));
                                assert(ov.contains(unify_at(p, fv, cv, x, y)->0));
                                let k = choose|k: int|
                                    0 <= k < ov.len() && ov[k] == unify_at(p, fv, cv, x, y)->0;
                                assert(nv[k] == ov[k]);
                            }
                        }
                    },
                    None => {
                        assert forall|k: int|
                            0 <= k < next@.len() implies visited(
                            (#[trigger] wit[k]).0,
                            wit[k].1,
                            a as int,
                            j + 1,
                            facts@.len() as int,
                        ) by {}
                    },
                }
                j = j + 1;
            }
            assert forall|x: int, y: int|
                visited(x, y, a + 1, 0, facts@.len() as int) implies visited(
                    x,
                    y,
                    a as int,
                    facts@.len() as int,
                    facts@.len() as int,
                ) by {}
            assert forall|k: int|
                0 <= k < next@.len() implies visited(
                (#[trigger] wit[k]).0,
                wit[k].1,
                a + 1,
                0,
                facts@.len() as int,
            ) by {}
            a = a + 1;
        }
        proof {
            let prev = solutions(fs, bv.subrange(0, i as int), Map::empty());
            let sub = bv.subrange(0, i + 1);
            assert(sub.drop_last() =~= bv.subrange(0, i as int));
            assert(sub.last() == p);
            let goal = solutions(fs, sub, Map::empty());
            assert forall|e2: Map<u32, TermV>| envs_set(next@).contains(e2) == goal.contains(e2) by {
                let nv = next@.map_values(|e: Vec<(u32, Term)>| env_view(e@));
                if envs_set(next@).contains(e2) {
                    let k = choose|k: int| 0 <= k < nv.len() && nv[k] == e2;
                    assert(nv[k] == env_view(next@[k]@));
                    let x = wit[k].0;
                    let y = wit[k].1;
                    assert(cv.contains(cv[x]));
                    assert(fv.contains(fv[y]));
                    assert(prev.contains(cv[x]));
                    assert(fs.contains(fv[y]));
                    assert(goal.contains(e2));
                }
                if goal.contains(e2) {
                    let (e1, f) = choose|e1: Map<u32, TermV>, f: PredV|
                        prev.contains(e1) && fs.contains(f) && unify(p, f, e1) == Some(e2);
                    assert(cv.to_set().contains(e1));
                    let x = choose|x: int| 0 <= x < cv.len() && cv[x] == e1;
                    assert(fv.to_set().contains(f));
                    let y = choose|y: int| 0 <= y < fv.len() && fv[y] == f;
                    assert(unify_at(p, fv, cv, x, y) == Some(e2));
                    assert(visited(x, y, cur@.len() as int, 0, facts@.len() as int));
                }
            }
            assert(envs_set(next@) =~= goal);
        }
        cur = next;
        i = i + 1;
    }
    assert(bv.subrange(0, i as int) =~= bv);
    cur
}

/// Computes [`subst_pred`] when the result is ground; `None` otherwise.
pub fn subst_exec(head: &Predicate, env: &Vec<(u32, Term)>) -> (r: Option<Predicate>)
    ensures
        match r {
            Some(h) => subst_pred(head@, env_view(env@)).is_ground() && h@ == subst_pred(
                head@,
                env_view(env@),
            ),
            None => !subst_pred(head@, env_view(env@)).is_ground(),
        },
{
    let ghost ev = env_view(env@);
    let ghost goal = subst_pred(head@, ev);
    let mut terms: Vec<Term> = Vec::new();
    let mut i: usize = 0;
    while i < head.terms.len()
        invariant
            i <= head.terms.len(),
            ev == env_view(env@),
            goal == subst_pred(head@, ev),
            terms@.len() == i,
            forall|k: int| 0 <= k < i ==> (#[trigger] terms@[k])@ == goal.terms[k],
            forall|k: int| 0 <= k < i ==> !(#[trigger] goal.terms[k] is Variable),
        decreases head.terms.len() - i,
    {
        assert(goal.terms[i as int] == subst_term(head.terms@[i as int]@, ev));
        let t = match &head.terms[i] {
            Term::Variable(v) => match lookup_var(env, *v) {
                Some(t) => {
                    if let Term::Variable(_) = t {
                        return None;
                    }
                    t
                },
                None => {
                    return None;
                },
            },
            other => copy_term(other),
        };
        terms.push(t);
        i = i + 1;
    }
    let h = Predicate { name: head.name, terms };
    assert(h@.terms =~= goal.terms);
    Some(h)
}

/// Whether every expression of the list evaluates to `true` under `env`.
pub fn expression_holds_all(exprs: &Vec<crate::datalog::Expression>, env: &Vec<(u32, Term)>) -> (r: bool)
    ensures
        r == all_hold(exprs@.map_values(|e: crate::datalog::Expression| e@), env_view(env@)),
{
    let ghost ev = env_view(env@);
    let ghost xs = exprs@.map_values(|e: crate::datalog::Expression| e@);
    let mut i: usize = 0;
    while i < exprs.len()
        invariant
            i <= exprs.len(),
            ev == env_view(env@),
            xs == exprs@.map_values(|e: crate::datalog::Expression| e@),
            forall|k: int| 0 <= k < i ==> holds(#[trigger] xs[k], ev),
        decreases exprs.len() - i,
    {
        if !expression_holds(&exprs[i], env) {
            assert(!holds(xs[i as int], ev));
            return false;
        }
        i = i + 1;
    }
    true
}

/// Computes [`candidate`].
pub fn candidate_exec(rule: &Rule, env: &Vec<(u32, Term)>) -> (r: Option<Predicate>)
    ensures
        match r {
            Some(h) => candidate(rule@, env_view(env@)) == Some(h@),
            None => candidate(rule@, env_view(env@)) is None,
        },
{
    if !expression_holds_all(&rule.expressions, env) {
        return None;
    }
    subst_exec(&rule.head, env)
}

/// The derived facts of the first `n` rules.
pub open spec fn derived_upto(facts: Set<PredV>, rules: Seq<RuleV>, n: int) -> Set<PredV> {
    Set::new(
        |h: PredV| exists|i: int| 0 <= i < n && #[trigger] derived(facts, rules[i]).contains(h),
    )
}

/// The facts one pass of all rules derives from `facts`.
pub open spec fn derived_all(facts: Set<PredV>, rules: Seq<RuleV>) -> Set<PredV> {
    derived_upto(facts, rules, rules.len() as int)
}

/// One naive pass: the facts together with all they derive.
pub open spec fn step(facts: Set<PredV>, rules: Seq<RuleV>) -> Set<PredV> {
    facts.union(derived_all(facts, rules))
}

/// A list of facts without repeated values.
pub open spec fn distinct(ps: Seq<Predicate>) -> bool {
    preds_view(ps).no_duplicates()
}

/// Appends to `out` each fact that `rule` derives from `facts` and that
/// neither list holds yet.
pub fn apply_rule(facts: &Vec<Predicate>, rule: &Rule, out: &mut Vec<Predicate>)
    requires
        distinct(old(out)@),
        fact_set(old(out)@).disjoint(fact_set(facts@)),
    ensures
        distinct(final(out)@),
        fact_set(final(out)@).disjoint(fact_set(facts@)),
        fact_set(final(out)@) == fact_set(old(out)@).union(
            derived(fact_set(facts@), rule@).difference(fact_set(facts@)),
        ),
{
    let ghost fs = fact_set(facts@);
    let envs = join(facts, &rule.body);
    let ghost evs = envs@.map_values(|e: Vec<(u32, Term)>| env_view(e@));
    let ghost out0 = fact_set(out@);
    let mut k: usize = 0;
    while k < envs.len()
        invariant
            k <= envs.len(),
            fs == fact_set(facts@),
            evs == envs@.map_values(|e: Vec<(u32, Term)>| env_view(e@)),
            out0 == fact_set(old(out)@),
            distinct(out@),
            fact_set(out@).disjoint(fs),
            forall|h: PredV|
                #![trigger fact_set(out@).contains(h)]
                fact_set(out@).contains(h) <==> (out0.contains(h) || (!fs.contains(h) && exists|
                    k2: int,
                | 0 <= k2 < k && #[trigger] candidate(rule@, evs[k2]) == Some(h))),
        decreases envs.len() - k,
    {
        let c = candidate_exec(rule, &envs[k]);
        assert(evs[k as int] == env_view(envs@[k as int]@));
        let ghost before = out@;
        let mut pushed = false;
        match &c {
            Some(h) => {
                if !contains_pred(facts, h) && !contains_pred(out, h) {
                    out.push(copy_pred(h));
                    pushed = true;
                    assert(preds_view(out@) =~= preds_view(before).push(h@));
                    proof {
                        Seq::<PredV>::lemma_to_set_insert_commutes(preds_view(before), h@);
                        assert(preds_view(before) + seq![h@] =~= preds_view(before).push(h@));
                    }
                    assert(fact_set(out@) == fact_set(before).insert(h@));
                }
            },
            None => {},
        }
        assert(!pushed ==> out@ == before);
        assert forall|h: PredV|
            #![trigger fact_set(out@).contains(h)]
            fact_set(out@).contains(h) <==> (out0.contains(h) || (!fs.contains(h) && exists|
                k2: int,
            | 0 <= k2 < k + 1 && #[trigger] candidate(rule@, evs[k2]) == Some(h))) by {
            if fact_set(out@).contains(h) && !fact_set(before).contains(h) {
                assert(candidate(rule@, evs[k as int]) == Some(h));
            }
            if fact_set(before).contains(h) {
                assert(fact_set(out@).contains(h));
                if !out0.contains(h) {
                    let k2 = choose|k2: int|
                        0 <= k2 < k && #[trigger] candidate(rule@, evs[k2]) == Some(h);
                    assert(0 <= k2 < k + 1);
                }
            }
            if !fs.contains(h) && exists|k2: int|
                0 <= k2 < k + 1 && #[trigger] candidate(rule@, evs[k2]) == Some(h) {
                let k2 = choose|k2: int|
                    0 <= k2 < k + 1 && #[trigger] candidate(rule@, evs[k2]) == Some(h);
                if k2 == k {
                    if !fact_set(before).contains(h) {
                        assert(!preds_view(facts@).contains(h));
                        assert(!preds_view(before).contains(h));
                        assert(pushed);
                    }
                } else {
                    assert(fact_set(before).contains(h));
                }
            }
        }
        assert(distinct(out@));
        k = k + 1;
    }
    let ghost sols = solutions(fs, rule@.body, Map::empty());
    assert(envs_set(envs@) == sols);
    assert forall|h: PredV|
        #![trigger fact_set(out@).contains(h)]
        fact_set(out@).contains(h) == out0.union(derived(fs, rule@).difference(fs)).contains(h) by {
        if derived(fs, rule@).contains(h) {
            let e = choose|e: Map<u32, TermV>| #[trigger] sols.contains(e) && candidate(rule@, e)
                == Some(h);
            assert(evs.to_set().contains(e));
            let k2 = choose|k2: int| 0 <= k2 < evs.len() && evs[k2] == e;
            assert(candidate(rule@, evs[k2]) == Some(h));
        }
        if !fs.contains(h) && exists|k2: int|
            0 <= k2 < envs.len() && #[trigger] candidate(rule@, evs[k2]) == Some(h) {
            let k2 = choose|k2: int|
                0 <= k2 < envs.len() && #[trigger] candidate(rule@, evs[k2]) == Some(h);
            assert(evs.contains(evs[k2]));
            assert(sols.contains(evs[k2]));
        }
    }
    assert(fact_set(out@) =~= out0.union(derived(fs, rule@).difference(fs)));
}

/// The facts that one pass derives and `facts` lacks, each once.
pub fn new_facts(facts: &Vec<Predicate>, rules: &Vec<Rule>) -> (out: Vec<Predicate>)
    ensures
        distinct(out@),
        fact_set(out@).disjoint(fact_set(facts@)),
        fact_set(out@) == derived_all(fact_set(facts@), rules_view(rules@)).difference(
            fact_set(facts@),
        ),
{
    let ghost fs = fact_set(facts@);
    let ghost rv = rules_view(rules@);
    let mut out: Vec<Predicate> = Vec::new();
    assert(fact_set(out@) =~= Set::empty());
    assert(derived_upto(fs, rv, 0) =~= Set::empty());
    let mut i: usize = 0;
    while i < rules.len()
        invariant
            i <= rules.len(),
            fs == fact_set(facts@),
            rv == rules_view(rules@),
            distinct(out@),
            fact_set(out@).disjoint(fs),
            fact_set(out@) == derived_upto(fs, rv, i as int).difference(fs),
        decreases rules.len() - i,
    {
        apply_rule(facts, &rules[i], &mut out);
        assert(rv[i as int] == rules@[i as int]@);
        assert(derived_upto(fs, rv, i + 1) =~= derived_upto(fs, rv, i as int).union(
            derived(fs, rv[i as int]),
        )) by {
            assert forall|h: PredV| #[trigger]
                derived_upto(fs, rv, i + 1).contains(h) implies derived_upto(
                fs,
                rv,
                i as int,
            ).union(derived(fs, rv[i as int])).contains(h) by {
                let i2 = choose|i2: int|
                    0 <= i2 < i + 1 && #[trigger] derived(fs, rv[i2]).contains(h);
                if i2 < i {
                    assert(derived_upto(fs, rv, i as int).contains(h));
                }
            }
        }
        assert(fact_set(out@) =~= derived_upto(fs, rv, i + 1).difference(fs));
        i = i + 1;
    }
    out
}

/// Naive iteration from `facts`: `Some` of the first set that one more pass
/// leaves unchanged, or `None` when that takes more than `iterations`
/// growing passes or a pass yields more than `max_facts` facts.
pub open spec fn run(facts: Set<PredV>, rules: Seq<RuleV>, iterations: nat, max_facts: nat) -> Option<
    Set<PredV>,
>
    decreases iterations,
{
    if step(facts, rules) == facts {
        Some(facts)
    } else if iterations == 0 {
        None
    } else if step(facts, rules).len() > max_facts {
        None
    } else {
        run(step(facts, rules), rules, (iterations - 1) as nat, max_facts)
    }
}

/// The bounds that stop the solver on adversarial rules.
#[derive(Clone, Copy, Debug, PartialEq, Eq)]
pub struct RunLimits {
    pub max_facts: u64,
    pub max_iterations: u64,
}

impl RunLimits {
    /// At most a thousand facts and a hundred growing passes.
    pub fn default_limits() -> (r: RunLimits)
        ensures
            r.max_facts == 1000,
            r.max_iterations == 100,
    {
        RunLimits { max_facts: 1000, max_iterations: 100 }
    }
}

/// The facts of the list, each value once.
pub fn dedup(facts: &Vec<Predicate>) -> (r: Vec<Predicate>)
    ensures
        distinct(r@),
        fact_set(r@) == fact_set(facts@),
{
    let mut out: Vec<Predicate> = Vec::new();
    let mut i: usize = 0;
    while i < facts.len()
        invariant
            i <= facts.len(),
            distinct(out@),
            fact_set(out@) == preds_view(facts@.subrange(0, i as int)).to_set(),
        decreases facts.len() - i,
    {
        let ghost before = out@;
        assert(preds_view(facts@.subrange(0, i + 1)) =~= preds_view(facts@.subrange(0, i as int)).push(facts@[i as int]@));
        proof {
            Seq::<PredV>::lemma_to_set_insert_commutes(preds_view(facts@.subrange(0, i as int)), facts@[i as int]@);
            assert(preds_view(facts@.subrange(0, i as int)) + seq![facts@[i as int]@] =~= preds_view(facts@.subrange(0, i as int)).push(facts@[i as int]@));
        }
        if !contains_pred(&out, &facts[i]) {
            out.push(copy_pred(&facts[i]));
            assert(preds_view(out@) =~= preds_view(before).push(facts@[i as int]@));
            proof {
                Seq::<PredV>::lemma_to_set_insert_commutes(preds_view(before), facts@[i as int]@);
                assert(preds_view(before) + seq![facts@[i as int]@] =~= preds_view(before).push(facts@[i as int]@));
            }
        } else {
            assert(fact_set(out@) =~= fact_set(out@).insert(facts@[i as int]@));
        }
        i = i + 1;
    }
    assert(facts@.subrange(0, i as int) =~= facts@);
    out
}

/// Runs the rules over the facts to a fixpoint under the limits: the result
/// is exactly what [`run`] gives, and the limits' error when it gives
/// nothing.
pub fn solve(facts: &Vec<Predicate>, rules: &Vec<Rule>, limits: RunLimits) -> (r: Result<
    Vec<Predicate>,
    Error,
>)
    ensures
        match r {
            Ok(out) => distinct(out@) && run(
                fact_set(facts@),
                rules_view(rules@),
                limits.max_iterations as nat,
                limits.max_facts as nat,
            ) == Some(fact_set(out@)),
            Err(e) => e == Error::EvaluationLimitExceeded && run(
                fact_set(facts@),
                rules_view(rules@),
                limits.max_iterations as nat,
                limits.max_facts as nat,
            ) is None,
        },
{
    let ghost rv = rules_view(rules@);
    let ghost mf = limits.max_facts as nat;
    let ghost goal = run(fact_set(facts@), rv, limits.max_iterations as nat, mf);
    let mut current = dedup(facts);
    let mut left: u64 = limits.max_iterations;
    loop
        invariant
            rv == rules_view(rules@),
            mf == limits.max_facts as nat,
            distinct(current@),
            goal == run(fact_set(facts@), rv, limits.max_iterations as nat, mf),
            run(fact_set(current@), rv, left as nat, mf) == goal,
        decreases left,
    {
        let ghost fs = fact_set(current@);
        let mut fresh = new_facts(&current, rules);
        if fresh.len() == 0 {
            assert(step(fs, rv) =~= fs) by {
                assert forall|h: PredV| derived_all(fs, rv).contains(h) implies fs.contains(h) by {
                    if !fs.contains(h) {
                        assert(fact_set(fresh@).contains(h));
                    }
                }
            }
            return Ok(current);
        }
        assert(preds_view(fresh@)[0] == fresh@[0]@);
        assert(fact_set(fresh@).contains(fresh@[0]@));
        assert(!fs.contains(fresh@[0]@));
        assert(step(fs, rv).contains(fresh@[0]@));
        if left == 0 {
            return Err(Error::EvaluationLimitExceeded);
        }
        let ghost cur0 = current@;
        let ghost fr0 = fresh@;
        current.append(&mut fresh);
        assert(preds_view(current@) =~= preds_view(cur0) + preds_view(fr0));
        assert(distinct(current@)) by {
            let all = preds_view(current@);
            assert forall|a: int, b: int| 0 <= a < all.len() && 0 <= b < all.len() && a != b implies all[a] != all[b] by {
                if a < cur0.len() && b >= cur0.len() {
                    assert(fact_set(fr0).contains(all[b]));
                    assert(fs.contains(all[a]));
                } else if a >= cur0.len() && b < cur0.len() {
                    assert(fact_set(fr0).contains(all[a]));
                    assert(fs.contains(all[b]));
                } else if a >= cur0.len() && b >= cur0.len() {
                    assert(preds_view(fr0)[a - cur0.len()] == all[a]);
                    assert(preds_view(fr0)[b - cur0.len()] == all[b]);
                }
            }
        }
        assert(fact_set(current@) =~= step(fs, rv)) by {
            assert forall|h: PredV| #[trigger] fact_set(current@).contains(h) == step(fs, rv).contains(h) by {
                if fs.contains(h) {
                    let k = choose|k: int| 0 <= k < preds_view(cur0).len() && preds_view(cur0)[k] == h;
                    assert(preds_view(current@)[k] == h);
                }
                if step(fs, rv).contains(h) && !fs.contains(h) {
                    assert(fact_set(fr0).contains(h));
                    let k = choose|k: int| 0 <= k < preds_view(fr0).len() && preds_view(fr0)[k] == h;
                    assert(preds_view(current@)[cur0.len() + k] == h);
                }
                if fact_set(current@).contains(h) {
                    let k = choose|k: int| 0 <= k < preds_view(current@).len() && preds_view(current@)[k] == h;
                    if k >= cur0.len() {
                        assert(preds_view(fr0)[k - cur0.len()] == h);
                        assert(fact_set(fr0).contains(h));
                    } else {
                        assert(preds_view(cur0)[k] == h);
                    }
                }
            }
        }
        proof {
            preds_view(current@).unique_seq_to_set();
        }
        if current.len() as u64 > limits.max_facts {
            return Err(Error::EvaluationLimitExceeded);
        }
        left = left - 1;
    }
}

/// More facts never remove a solution of a body.
pub proof fn lemma_solutions_monotone(
    f1: Set<PredV>,
    f2: Set<PredV>,
    body: Seq<PredV>,
    env: Map<u32, TermV>,
)
    requires
        f1.subset_of(f2),
    ensures
        solutions(f1, body, env).subset_of(solutions(f2, body, env)),
    decreases body.len(),
{
    if body.len() > 0 {
        lemma_solutions_monotone(f1, f2, body.drop_last(), env);
        let prev1 = solutions(f1, body.drop_last(), env);
        let prev2 = solutions(f2, body.drop_last(), env);
        assert forall|e2: Map<u32, TermV>| #[trigger]
            solutions(f1, body, env).contains(e2) implies solutions(f2, body, env).contains(e2) by {
            let (e1, f) = choose|e1: Map<u32, TermV>, f: PredV|
                prev1.contains(e1) && f1.contains(f) && unify(body.last(), f, e1) == Some(e2);
            assert(prev2.contains(e1) && f2.contains(f));
        }
    }
}

/// More facts never remove a derived fact.
pub proof fn lemma_derived_all_monotone(f1: Set<PredV>, f2: Set<PredV>, rules: Seq<RuleV>)
    requires
        f1.subset_of(f2),
    ensures
        derived_all(f1, rules).subset_of(derived_all(f2, rules)),
{
    assert forall|h: PredV| #[trigger]
        derived_all(f1, rules).contains(h) implies derived_all(f2, rules).contains(h) by {
        let i = choose|i: int| 0 <= i < rules.len() && #[trigger] derived(f1, rules[i]).contains(h);
        let sols1 = solutions(f1, rules[i].body, Map::empty());
        let e = choose|e: Map<u32, TermV>| #[trigger] sols1.contains(e) && candidate(rules[i], e)
            == Some(h);
        lemma_solutions_monotone(f1, f2, rules[i].body, Map::empty());
        assert(solutions(f2, rules[i].body, Map::empty()).contains(e));
        assert(derived(f2, rules[i]).contains(h));
    }
}

/// The fixpoint holds every initial fact.
pub proof fn lemma_run_contains_facts(
    facts: Set<PredV>,
    rules: Seq<RuleV>,
    iterations: nat,
    max_facts: nat,
)
    requires
        run(facts, rules, iterations, max_facts) is Some,
    ensures
        facts.subset_of(run(facts, rules, iterations, max_facts)->0),
    decreases iterations,
{
    if step(facts, rules) != facts {
        lemma_run_contains_facts(step(facts, rules), rules, (iterations - 1) as nat, max_facts);
    }
}

/// The fixpoint is closed: one more pass derives nothing new.
pub proof fn lemma_run_is_closed(
    facts: Set<PredV>,
    rules: Seq<RuleV>,
    iterations: nat,
    max_facts: nat,
)
    requires
        run(facts, rules, iterations, max_facts) is Some,
    ensures
        step(run(facts, rules, iterations, max_facts)->0, rules) == run(
            facts,
            rules,
            iterations,
            max_facts,
        )->0,
    decreases iterations,
{
    if step(facts, rules) != facts {
        lemma_run_is_closed(step(facts, rules), rules, (iterations - 1) as nat, max_facts);
    }
}

/// The fixpoint is the least one: it lies inside every set that holds the
/// initial facts and is closed under the rules.
pub proof fn lemma_run_is_least(
    facts: Set<PredV>,
    rules: Seq<RuleV>,
    iterations: nat,
    max_facts: nat,
    closed: Set<PredV>,
)
    requires
        run(facts, rules, iterations, max_facts) is Some,
        facts.subset_of(closed),
        step(closed, rules) == closed,
    ensures
        run(facts, rules, iterations, max_facts)->0.subset_of(closed),
    decreases iterations,
{
    if step(facts, rules) != facts {
        lemma_derived_all_monotone(facts, closed, rules);
        assert(step(facts, rules).subset_of(step(closed, rules)));
        lemma_run_is_least(step(facts, rules), rules, (iterations - 1) as nat, max_facts, closed);
    }
}

/// Solving again from a fixpoint gives it back unchanged, whatever the limits.
pub proof fn lemma_run_idempotent(
    facts: Set<PredV>,
    rules: Seq<RuleV>,
    iterations: nat,
    max_facts: nat,
    iterations2: nat,
    max_facts2: nat,
)
    requires
        run(facts, rules, iterations, max_facts) is Some,
    ensures
        run(run(facts, rules, iterations, max_facts)->0, rules, iterations2, max_facts2) == run(
            facts,
            rules,
            iterations,
            max_facts,
        ),
{
    lemma_run_is_closed(facts, rules, iterations, max_facts);
}

/// Two rule lists that hold the same rules, in any order and with any
/// repetition, derive the same facts in a pass.
pub proof fn lemma_derived_all_rule_order(facts: Set<PredV>, r1: Seq<RuleV>, r2: Seq<RuleV>)
    requires
        r1.to_set() == r2.to_set(),
    ensures
        derived_all(facts, r1) == derived_all(facts, r2),
{
    assert forall|h: PredV| #[trigger] derived_all(facts, r1).contains(h) implies derived_all(
        facts,
        r2,
    ).contains(h) by {
        let i = choose|i: int| 0 <= i < r1.len() && #[trigger] derived(facts, r1[i]).contains(h);
        assert(r1.to_set().contains(r1[i]));
        assert(r2.contains(r1[i]));
        let j = choose|j: int| 0 <= j < r2.len() && r2[j] == r1[i];
        assert(derived(facts, r2[j]).contains(h));
    }
    assert forall|h: PredV| #[trigger] derived_all(facts, r2).contains(h) implies derived_all(
        facts,
        r1,
    ).contains(h) by {
        let i = choose|i: int| 0 <= i < r2.len() && #[trigger] derived(facts, r2[i]).contains(h);
        assert(r2.to_set().contains(r2[i]));
        assert(r1.contains(r2[i]));
        let j = choose|j: int| 0 <= j < r1.len() && r1[j] == r2[i];
        assert(derived(facts, r1[j]).contains(h));
    }
    assert(derived_all(facts, r1) =~= derived_all(facts, r2));
}

/// Permuting the rule list leaves the outcome of the solver unchanged.
pub proof fn lemma_run_rule_order(
    facts: Set<PredV>,
    r1: Seq<RuleV>,
    r2: Seq<RuleV>,
    iterations: nat,
    max_facts: nat,
)
    requires
        r1.to_set() == r2.to_set(),
    ensures
        run(facts, r1, iterations, max_facts) == run(facts, r2, iterations, max_facts),
    decreases iterations,
{
    lemma_derived_all_rule_order(facts, r1, r2);
    if step(facts, r1) != facts && iterations > 0 {
        lemma_run_rule_order(step(facts, r1), r1, r2, (iterations - 1) as nat, max_facts);
    }
}

/// The variables of a list of terms.
pub open spec fn terms_vars(ts: Seq<TermV>) -> Set<u32> {
    Set::new(|v: u32| exists|i: int| 0 <= i < ts.len() && ts[i] == TermV::Variable(v))
}

/// The variables of a rule body.
pub open spec fn body_vars(body: Seq<PredV>) -> Set<u32> {
    Set::new(|v: u32| exists|i: int| 0 <= i < body.len() && #[trigger] terms_vars(body[i].terms).contains(v))
}

/// A successful unification extends the bindings with exactly the
/// pattern's variables and turns the pattern into the fact.
proof fn lemma_unify_terms_sound(ps: Seq<TermV>, fs: Seq<TermV>, e1: Map<u32, TermV>)
    requires
        ps.len() == fs.len(),
        unify_terms(ps, fs, e1) is Some,
    ensures
        e1.submap_of(unify_terms(ps, fs, e1)->0),
        unify_terms(ps, fs, e1)->0.dom() == e1.dom().union(terms_vars(ps)),
        forall|i: int| 0 <= i < ps.len() ==> subst_term(ps[i], unify_terms(ps, fs, e1)->0) == fs[i],
    decreases ps.len(),
{
    let e2 = unify_terms(ps, fs, e1)->0;
    if ps.len() == 0 {
        assert(e2.dom() =~= e1.dom().union(terms_vars(ps)));
    } else {
        let pre = ps.drop_last();
        let fpre = fs.drop_last();
        lemma_unify_terms_sound(pre, fpre, e1);
        let em = unify_terms(pre, fpre, e1)->0;
        let p = ps.last();
        let f = fs.last();
        assert(terms_vars(ps) =~= terms_vars(pre).union(
            match p {
                TermV::Variable(v) => set![v],
                _ => Set::empty(),
            },
        )) by {
            assert forall|v: u32| terms_vars(ps).contains(v) implies terms_vars(pre).union(
                match p {
                    TermV::Variable(v) => set![v],
                    _ => Set::empty(),
                },
            ).contains(v) by {
                let i = choose|i: int| 0 <= i < ps.len() && ps[i] == TermV::Variable(v);
                if i < ps.len() - 1 {
                    assert(pre[i] == ps[i]);
                }
            }
            assert forall|v: u32| terms_vars(pre).contains(v) implies terms_vars(ps).contains(v) by {
                let i = choose|i: int| 0 <= i < pre.len() && pre[i] == TermV::Variable(v);
                assert(ps[i] == pre[i]);
            }
        }
        match p {
            TermV::Variable(v) => {
                if !em.contains_key(v) {
                    assert(e2 == em.insert(v, f));
                    assert forall|i: int| 0 <= i < ps.len() implies subst_term(ps[i], e2) == fs[i] by {
                        if i < ps.len() - 1 {
                            assert(pre[i] == ps[i] && fpre[i] == fs[i]);
                            if let TermV::Variable(w) = ps[i] {
                                assert(terms_vars(pre).contains(w));
                            }
                        }
                    }
                    assert(e2.dom() =~= e1.dom().union(terms_vars(ps)));
                } else {
                    assert forall|i: int| 0 <= i < ps.len() implies subst_term(ps[i], e2) == fs[i] by {
                        if i < ps.len() - 1 {
                            assert(pre[i] == ps[i] && fpre[i] == fs[i]);
                        }
                    }
                    assert(e2.dom() =~= e1.dom().union(terms_vars(ps)));
                }
            },
            _ => {
                assert forall|i: int| 0 <= i < ps.len() implies subst_term(ps[i], e2) == fs[i] by {
                    if i < ps.len() - 1 {
                        assert(pre[i] == ps[i] && fpre[i] == fs[i]);
                    }
                }
                assert(e2.dom() =~= e1.dom().union(terms_vars(ps)));
            },
        }
    }
}

/// Unification finds every binding that turns the pattern into the fact:
/// it succeeds, with bindings inside the given ones.
proof fn lemma_unify_terms_complete(ps: Seq<TermV>, fs: Seq<TermV>, e1: Map<u32, TermV>, e: Map<u32, TermV>)
    requires
        ps.len() == fs.len(),
        e1.submap_of(e),
        terms_vars(ps).subset_of(e.dom()),
        forall|i: int| 0 <= i < ps.len() ==> subst_term(ps[i], e) == fs[i],
    ensures
        unify_terms(ps, fs, e1) is Some,
        unify_terms(ps, fs, e1)->0.submap_of(e),
    decreases ps.len(),
{
    if ps.len() > 0 {
        let pre = ps.drop_last();
        let fpre = fs.drop_last();
        assert forall|v: u32| terms_vars(pre).contains(v) implies e.dom().contains(v) by {
            let i = choose|i: int| 0 <= i < pre.len() && pre[i] == TermV::Variable(v);
            assert(ps[i] == pre[i]);
            assert(terms_vars(ps).contains(v));
        }
        assert forall|i: int| 0 <= i < pre.len() implies subst_term(pre[i], e) == fpre[i] by {
            assert(pre[i] == ps[i] && fpre[i] == fs[i]);
        }
        lemma_unify_terms_complete(pre, fpre, e1, e);
        let em = unify_terms(pre, fpre, e1)->0;
        let p = ps.last();
        assert(subst_term(ps[ps.len() - 1], e) == fs[fs.len() - 1]);
        match p {
            TermV::Variable(v) => {
                assert(terms_vars(ps).contains(v));
            },
            _ => {},
        }
    }
}

/// The solutions of a body are exactly the bindings that extend `env` by
/// the body's variables and make every predicate of the body a fact.
pub proof fn lemma_solutions_characterized(
    facts: Set<PredV>,
    body: Seq<PredV>,
    env: Map<u32, TermV>,
    e: Map<u32, TermV>,
)
    ensures
        solutions(facts, body, env).contains(e) <==> {
            &&& env.submap_of(e)
            &&& e.dom() == env.dom().union(body_vars(body))
            &&& forall|i: int| 0 <= i < body.len() ==> facts.contains(#[trigger] subst_pred(body[i], e))
        },
    decreases body.len(),
{
    if body.len() == 0 {
        assert(body_vars(body) =~= Set::empty());
        assert(env.dom().union(body_vars(body)) =~= env.dom());
        if env.submap_of(e) && e.dom() == env.dom().union(body_vars(body)) {
            assert(e =~= env);
        }
        if e == env {
            assert(env.submap_of(e));
        }
    } else {
        let pre = body.drop_last();
        let p = body.last();
        let prev = solutions(facts, pre, env);
        assert(body_vars(body) =~= body_vars(pre).union(terms_vars(p.terms))) by {
            assert forall|v: u32| body_vars(body).contains(v) implies body_vars(pre).union(terms_vars(p.terms)).contains(v) by {
                let i = choose|i: int| 0 <= i < body.len() && #[trigger] terms_vars(body[i].terms).contains(v);
                if i < body.len() - 1 {
                    assert(pre[i] == body[i]);
                }
            }
            assert forall|v: u32| body_vars(pre).contains(v) implies body_vars(body).contains(v) by {
                let i = choose|i: int| 0 <= i < pre.len() && #[trigger] terms_vars(pre[i].terms).contains(v);
                assert(body[i] == pre[i]);
            }
        }
        if solutions(facts, body, env).contains(e) {
            let (e1, f) = choose|e1: Map<u32, TermV>, f: PredV|
                prev.contains(e1) && facts.contains(f) && unify(p, f, e1) == Some(e);
            lemma_solutions_characterized(facts, pre, env, e1);
            lemma_unify_terms_sound(p.terms, f.terms, e1);
            assert(subst_pred(p, e).terms =~= f.terms);
            assert forall|i: int| 0 <= i < body.len() implies facts.contains(#[trigger] subst_pred(body[i], e)) by {
                if i < body.len() - 1 {
                    assert(pre[i] == body[i]);
                    assert(facts.contains(subst_pred(pre[i], e1)));
                    assert(subst_pred(body[i], e).terms =~= subst_pred(body[i], e1).terms) by {
                        assert forall|k: int| 0 <= k < body[i].terms.len() implies subst_term(body[i].terms[k], e) == subst_term(body[i].terms[k], e1) by {
                            if let TermV::Variable(w) = body[i].terms[k] {
                                assert(terms_vars(body[i].terms).contains(w));
                                assert(body_vars(pre).contains(w));
                            }
                        }
                    }
                }
            }
            assert(e.dom() =~= env.dom().union(body_vars(body)));
            assert(env.submap_of(e)) by {
                assert forall|k: u32| env.dom().contains(k) implies e.dom().contains(k) && env[k] == e[k] by {
                    assert(e1.dom().contains(k) && env[k] == e1[k]);
                }
            }
        }
        if env.submap_of(e) && e.dom() == env.dom().union(body_vars(body)) && forall|i: int|
            0 <= i < body.len() ==> facts.contains(#[trigger] subst_pred(body[i], e)) {
            let keys = env.dom().union(body_vars(pre));
            let e1 = e.restrict(keys);
            assert(e1.dom() =~= keys);
            assert forall|i: int| 0 <= i < pre.len() implies facts.contains(#[trigger] subst_pred(pre[i], e1)) by {
                assert(pre[i] == body[i]);
                assert(facts.contains(subst_pred(body[i], e)));
                assert(subst_pred(pre[i], e1).terms =~= subst_pred(body[i], e).terms) by {
                    assert forall|k: int| 0 <= k < pre[i].terms.len() implies subst_term(pre[i].terms[k], e1) == subst_term(body[i].terms[k], e) by {
                        if let TermV::Variable(w) = pre[i].terms[k] {
                            assert(terms_vars(pre[i].terms).contains(w));
                            assert(body_vars(pre).contains(w));
                        }
                    }
                }
            }
            lemma_solutions_characterized(facts, pre, env, e1);
            assert(prev.contains(e1));
            let f = subst_pred(p, e);
            assert(facts.contains(subst_pred(body[body.len() - 1], e)));
            assert forall|v: u32| terms_vars(p.terms).contains(v) implies e.dom().contains(v) by {
                assert(body_vars(body).contains(v));
            }
            lemma_unify_terms_complete(p.terms, f.terms, e1, e);
            lemma_unify_terms_sound(p.terms, f.terms, e1);
            let e3 = unify_terms(p.terms, f.terms, e1)->0;
            assert(e3.dom() =~= e.dom());
            assert(e3 =~= e);
            assert(unify(p, f, e1) == Some(e));
            assert(solutions(facts, body, env).contains(e));
        }
    }
}

/// Two bodies that hold the same predicates, in any order, have the same
/// solutions.
pub proof fn lemma_solutions_body_order(facts: Set<PredV>, b1: Seq<PredV>, b2: Seq<PredV>, env: Map<u32, TermV>)
    requires
        b1.to_set() == b2.to_set(),
    ensures
        solutions(facts, b1, env) == solutions(facts, b2, env),
{
    assert(body_vars(b1) =~= body_vars(b2)) by {
        assert forall|v: u32| body_vars(b1).contains(v) implies body_vars(b2).contains(v) by {
            let i = choose|i: int| 0 <= i < b1.len() && #[trigger] terms_vars(b1[i].terms).contains(v);
            assert(b1.to_set().contains(b1[i]));
            let j = choose|j: int| 0 <= j < b2.len() && b2[j] == b1[i];
            assert(terms_vars(b2[j].terms).contains(v));
        }
        assert forall|v: u32| body_vars(b2).contains(v) implies body_vars(b1).contains(v) by {
            let i = choose|i: int| 0 <= i < b2.len() && #[trigger] terms_vars(b2[i].terms).contains(v);
            assert(b2.to_set().contains(b2[i]));
            let j = choose|j: int| 0 <= j < b1.len() && b1[j] == b2[i];
            assert(terms_vars(b1[j].terms).contains(v));
        }
    }
    assert forall|e: Map<u32, TermV>| solutions(facts, b1, env).contains(e) == solutions(facts, b2, env).contains(e) by {
        lemma_solutions_characterized(facts, b1, env, e);
        lemma_solutions_characterized(facts, b2, env, e);
        if forall|i: int| 0 <= i < b1.len() ==> facts.contains(#[trigger] subst_pred(b1[i], e)) {
            assert forall|i: int| 0 <= i < b2.len() implies facts.contains(#[trigger] subst_pred(b2[i], e)) by {
                assert(b2.to_set().contains(b2[i]));
                let j = choose|j: int| 0 <= j < b1.len() && b1[j] == b2[i];
                assert(facts.contains(subst_pred(b1[j], e)));
            }
        }
        if forall|i: int| 0 <= i < b2.len() ==> facts.contains(#[trigger] subst_pred(b2[i], e)) {
            assert forall|i: int| 0 <= i < b1.len() implies facts.contains(#[trigger] subst_pred(b1[i], e)) by {
                assert(b1.to_set().contains(b1[i]));
                let j = choose|j: int| 0 <= j < b2.len() && b2[j] == b1[i];
                assert(facts.contains(subst_pred(b2[j], e)));
            }
        }
    }
    assert(solutions(facts, b1, env) =~= solutions(facts, b2, env));
}

/// Reordering the predicates inside the bodies of rules leaves the outcome
/// of the solver unchanged.
pub proof fn lemma_run_body_order(
    facts: Set<PredV>,
    r1: Seq<RuleV>,
    r2: Seq<RuleV>,
    iterations: nat,
    max_facts: nat,
)
    requires
        r1.len() == r2.len(),
        forall|i: int| 0 <= i < r1.len() ==> (#[trigger] r1[i]).head == r2[i].head && r1[i].expressions == r2[i].expressions && r1[i].body.to_set() == r2[i].body.to_set(),
    ensures
        run(facts, r1, iterations, max_facts) == run(facts, r2, iterations, max_facts),
    decreases iterations,
{
    assert forall|f: Set<PredV>| derived_all(f, r1) == derived_all(f, r2) by {
        assert forall|i: int| 0 <= i < r1.len() implies #[trigger] derived(f, r1[i]) == derived(f, r2[i]) by {
            lemma_solutions_body_order(f, r1[i].body, r2[i].body, Map::empty());
            assert(derived(f, r1[i]) =~= derived(f, r2[i]));
        }
        assert(derived_all(f, r1) =~= derived_all(f, r2)) by {
            assert forall|h: PredV| derived_all(f, r1).contains(h) implies derived_all(f, r2).contains(h) by {
                let i = choose|i: int| 0 <= i < r1.len() && #[trigger] derived(f, r1[i]).contains(h);
                assert(derived(f, r1[i]) == derived(f, r2[i]));
            }
            assert forall|h: PredV| derived_all(f, r2).contains(h) implies derived_all(f, r1).contains(h) by {
                let i = choose|i: int| 0 <= i < r2.len() && #[trigger] derived(f, r2[i]).contains(h);
                assert(derived(f, r1[i]) == derived(f, r2[i]));
            }
        }
    }
    assert(derived_all(facts, r1) == derived_all(facts, r2));
    if step(facts, r1) != facts && iterations > 0 {
        lemma_run_body_order(step(facts, r1), r1, r2, (iterations - 1) as nat, max_facts);
    }
}

} // verus!
