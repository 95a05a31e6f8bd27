//! Caveat and policy evaluation, and the orchestration of a verification:
//! merge the blocks, solve, check every caveat, then take the first
//! matching policy.
//!
//! Scoping: the facts and rules of every block, with the verifier's own,
//! form one world; every caveat, of any block, is checked against the
//! fixpoint of that whole world.
use vstd::prelude::*;
use crate::datalog::{
    Caveat, Predicate, PredV, Rule, RuleV, TermV, copy_preds, copy_rules, fact_set, preds_view,
    rules_view,
};
use crate::error::{Error, FailedCaveat};
use crate::solver::{
    RunLimits, all_hold, envs_set, expression_holds_all, join, lemma_solutions_characterized, run,
    solutions, solve, subst_pred,
};
use crate::token::{Block, block_facts, block_rules};

verus! {

/// A query succeeds when some binding of its body satisfies its expressions.
pub open spec fn query_holds(facts: Set<PredV>, q: RuleV) -> bool {
    exists|e: Map<u32, TermV>|
        #[trigger] solutions(facts, q.body, Map::empty()).contains(e) && all_hold(q.expressions, e)
}

/// A caveat holds when one of its queries succeeds.
pub open spec fn caveat_holds(facts: Set<PredV>, queries: Seq<RuleV>) -> bool {
    exists|i: int| 0 <= i < queries.len() && #[trigger] query_holds(facts, queries[i])
}

/// The queries of a caveat.
pub open spec fn caveat_view(c: Caveat) -> Seq<RuleV> {
    rules_view(c.queries@)
}

/// Decides [`query_holds`].
pub fn query(facts: &Vec<Predicate>, q: &Rule) -> (r: bool)
    ensures
        r == query_holds(fact_set(facts@), q@),
{
    let envs = join(facts, &q.body);
    let ghost sols = solutions(fact_set(facts@), q@.body, Map::empty());
    let ghost evs = envs@.map_values(|e: Vec<(u32, crate::datalog::Term)>| crate::datalog::env_view(e@));
    let mut k: usize = 0;
    while k < envs.len()
        invariant
            k <= envs.len(),
            sols == solutions(fact_set(facts@), q@.body, Map::empty()),
            envs_set(envs@) == sols,
            evs == envs@.map_values(|e: Vec<(u32, crate::datalog::Term)>| crate::datalog::env_view(e@)),
            forall|k2: int| 0 <= k2 < k ==> !all_hold(q@.expressions, #[trigger] evs[k2]),
        decreases envs.len() - k,
    {
        if expression_holds_all(&q.expressions, &envs[k]) {
            assert(evs.contains(evs[k as int]));
            assert(sols.contains(evs[k as int]));
            assert(all_hold(q@.expressions, evs[k as int]));
            return true;
        }
        k = k + 1;
    }
    assert(!query_holds(fact_set(facts@), q@)) by {
        if query_holds(fact_set(facts@), q@) {
            let e = choose|e: Map<u32, TermV>| #[trigger] sols.contains(e) && all_hold(q@.expressions, e);
            assert(envs_set(envs@).contains(e));
            let k2 = choose|k2: int| 0 <= k2 < evs.len() && evs[k2] == e;
        }
    }
    false
}

/// Decides [`caveat_holds`]: OR over the queries.
pub fn check_caveat(facts: &Vec<Predicate>, c: &Caveat) -> (r: bool)
    ensures
        r == caveat_holds(fact_set(facts@), caveat_view(*c)),
{
    let mut i: usize = 0;
    while i < c.queries.len()
        invariant
            i <= c.queries.len(),
            forall|k: int| 0 <= k < i ==> !#[trigger] query_holds(fact_set(facts@), caveat_view(*c)[k]),
        decreases c.queries.len() - i,
    {
        if query(facts, &c.queries[i]) {
            assert(query_holds(fact_set(facts@), caveat_view(*c)[i as int]));
            return true;
        }
        i = i + 1;
    }
    false
}

/// A caveat holds as soon as one of its queries succeeds, whatever the
/// others give.
pub proof fn lemma_caveat_or(facts: Set<PredV>, queries: Seq<RuleV>, i: int)
    requires
        0 <= i < queries.len(),
        query_holds(facts, queries[i]),
    ensures
        caveat_holds(facts, queries),
{
}

/// Whether a policy allows or denies when its query matches.
#[derive(Clone, Copy, Debug, PartialEq, Eq, Hash)]
pub enum PolicyKind {
    Allow,
    Deny,
}

/// Queries combined by OR, with the decision they make when one succeeds.
#[derive(Debug)]
pub struct Policy {
    pub queries: Vec<Rule>,
    pub kind: PolicyKind,
}

/// Whether the policy's query succeeds.
pub open spec fn policy_matches(facts: Set<PredV>, p: Policy) -> bool {
    caveat_holds(facts, rules_view(p.queries@))
}

/// Policy `i` is the first one that matches.
pub open spec fn decided_by(facts: Set<PredV>, ps: Seq<Policy>, i: int) -> bool {
    &&& 0 <= i < ps.len()
    &&& policy_matches(facts, ps[i])
    &&& forall|j: int| 0 <= j < i ==> !#[trigger] policy_matches(facts, ps[j])
}

/// The position of the first matching policy.
pub fn first_policy(facts: &Vec<Predicate>, ps: &Vec<Policy>) -> (r: Option<usize>)
    ensures
        match r {
            Some(i) => decided_by(fact_set(facts@), ps@, i as int),
            None => forall|j: int| 0 <= j < ps@.len() ==> !#[trigger] policy_matches(fact_set(facts@), ps@[j]),
        },
{
    let mut i: usize = 0;
    while i < ps.len()
        invariant
            i <= ps.len(),
            forall|j: int| 0 <= j < i ==> !#[trigger] policy_matches(fact_set(facts@), ps@[j]),
        decreases ps.len() - i,
    {
        let mut k: usize = 0;
        while k < ps[i].queries.len()
            invariant
                i < ps.len(),
                k <= ps@[i as int].queries.len(),
                forall|j: int| 0 <= j < i ==> !#[trigger] policy_matches(fact_set(facts@), ps@[j]),
                forall|k2: int| 0 <= k2 < k ==> !#[trigger] query_holds(fact_set(facts@), rules_view(ps@[i as int].queries@)[k2]),
            decreases ps@[i as int].queries.len() - k,
        {
            if query(facts, &ps[i].queries[k]) {
                assert(query_holds(fact_set(facts@), rules_view(ps@[i as int].queries@)[k as int]));
                return Some(i);
            }
            k = k + 1;
        }
        i = i + 1;
    }
    None
}

/// The spec-level outcome of a verification.
pub enum Decision {
    LimitExceeded,
    Failed(Seq<FailedCaveat>),
    Allowed(usize),
    Denied(usize),
    NoMatch,
}

/// The outcome a result reports.
pub open spec fn decision_of(r: Result<usize, Error>) -> Decision {
    match r {
        Ok(i) => Decision::Allowed(i),
        Err(Error::DeniedByPolicy(i)) => Decision::Denied(i),
        Err(Error::FailedCaveats(l)) => Decision::Failed(l@),
        Err(Error::NoMatchingPolicy) => Decision::NoMatch,
        _ => Decision::LimitExceeded,
    }
}

/// The caveats of the list that fail, in order, tagged with `block`.
pub open spec fn failed_in(facts: Set<PredV>, cs: Seq<Caveat>, block: Option<usize>) -> Seq<
    FailedCaveat,
>
    decreases cs.len(),
{
    if cs.len() == 0 {
        Seq::empty()
    } else {
        failed_in(facts, cs.drop_last(), block) + if !caveat_holds(facts, caveat_view(cs.last())) {
            seq![FailedCaveat { block, index: (cs.len() - 1) as usize }]
        } else {
            Seq::empty()
        }
    }
}

/// The failing caveats of all blocks, block after block.
pub open spec fn failed_blocks(facts: Set<PredV>, blocks: Seq<Block>) -> Seq<FailedCaveat>
    decreases blocks.len(),
{
    if blocks.len() == 0 {
        Seq::empty()
    } else {
        failed_blocks(facts, blocks.drop_last()) + failed_in(
            facts,
            blocks.last().caveats@,
            Some((blocks.len() - 1) as usize),
        )
    }
}

/// The verifier's side of a verification: its own facts, rules, caveats
/// and ordered policies.
#[derive(Debug)]
pub struct Authorizer {
    pub facts: Vec<Predicate>,
    pub rules: Vec<Rule>,
    pub caveats: Vec<Caveat>,
    pub policies: Vec<Policy>,
}

impl Authorizer {
    /// An authorizer with nothing of its own.
    pub fn new() -> (r: Authorizer)
        ensures
            r.facts@.len() == 0,
            r.rules@.len() == 0,
            r.caveats@.len() == 0,
            r.policies@.len() == 0,
    {
        Authorizer { facts: Vec::new(), rules: Vec::new(), caveats: Vec::new(), policies: Vec::new() }
    }

    /// Adds an ambient fact.
    pub fn add_fact(&mut self, f: Predicate)
        ensures
            final(self).facts@ == old(self).facts@.push(f),
            final(self).rules == old(self).rules,
            final(self).caveats == old(self).caveats,
            final(self).policies == old(self).policies,
    {
        self.facts.push(f);
    }

    /// Adds a rule run together with the blocks' rules.
    pub fn add_rule(&mut self, r: Rule)
        ensures
            final(self).rules@ == old(self).rules@.push(r),
            final(self).facts == old(self).facts,
            final(self).caveats == old(self).caveats,
            final(self).policies == old(self).policies,
    {
        self.rules.push(r);
    }

    /// Adds a caveat that must hold besides the blocks' caveats.
    pub fn add_caveat(&mut self, c: Caveat)
        ensures
            final(self).caveats@ == old(self).caveats@.push(c),
            final(self).facts == old(self).facts,
            final(self).rules == old(self).rules,
            final(self).policies == old(self).policies,
    {
        self.caveats.push(c);
    }

    /// Adds a policy after the existing ones.
    pub fn add_policy(&mut self, p: Policy)
        ensures
            final(self).policies@ == old(self).policies@.push(p),
            final(self).facts == old(self).facts,
            final(self).rules == old(self).rules,
            final(self).caveats == old(self).caveats,
    {
        self.policies.push(p);
    }

    /// The ambient facts together with every block's facts.
    pub open spec fn all_facts(&self, blocks: Seq<Block>) -> Set<PredV> {
        (preds_view(self.facts@) + block_facts(blocks)).to_set()
    }

    /// The verifier's rules followed by every block's rules.
    pub open spec fn all_rules(&self, blocks: Seq<Block>) -> Seq<RuleV> {
        rules_view(self.rules@) + block_rules(blocks)
    }

    /// What the solver reaches from the merged facts and rules.
    pub open spec fn fixpoint(&self, blocks: Seq<Block>, limits: RunLimits) -> Option<Set<PredV>> {
        run(
            self.all_facts(blocks),
            self.all_rules(blocks),
            limits.max_iterations as nat,
            limits.max_facts as nat,
        )
    }

    /// The outcome of a verification: the limit error, else every failing
    /// caveat (the verifier's first, then block after block), else the kind
    /// of the first matching policy, else no match.
    pub open spec fn decision(&self, blocks: Seq<Block>, limits: RunLimits) -> Decision {
        match self.fixpoint(blocks, limits) {
            None => Decision::LimitExceeded,
            Some(g) => {
                let failed = failed_in(g, self.caveats@, None) + failed_blocks(g, blocks);
                if failed.len() > 0 {
                    Decision::Failed(failed)
                } else if exists|i: int| decided_by(g, self.policies@, i) {
                    let i = choose|i: int| decided_by(g, self.policies@, i);
                    match self.policies@[i].kind {
                        PolicyKind::Allow => Decision::Allowed(i as usize),
                        PolicyKind::Deny => Decision::Denied(i as usize),
                    }
                } else {
                    Decision::NoMatch
                }
            },
        }
    }
}

/// Appends to `out` the caveats of `cs` that fail, tagged with `block`.
pub fn check_caveats(
    facts: &Vec<Predicate>,
    cs: &Vec<Caveat>,
    block: Option<usize>,
    out: &mut Vec<FailedCaveat>,
)
    ensures
        final(out)@ == old(out)@ + failed_in(fact_set(facts@), cs@, block),
{
    let ghost g = fact_set(facts@);
    let mut i: usize = 0;
    assert(cs@.subrange(0, 0).len() == 0);
    assert(old(out)@ + failed_in(g, cs@.subrange(0, 0), block) =~= old(out)@);
    while i < cs.len()
        invariant
            i <= cs.len(),
            g == fact_set(facts@),
            out@ == old(out)@ + failed_in(g, cs@.subrange(0, i as int), block),
        decreases cs.len() - i,
    {
        let ghost sub = cs@.subrange(0, i + 1);
        assert(sub.drop_last() =~= cs@.subrange(0, i as int));
        assert(sub.last() == cs@[i as int]);
        if !check_caveat(facts, &cs[i]) {
            out.push(FailedCaveat { block, index: i });
            assert(out@ =~= old(out)@ + failed_in(g, sub, block));
        } else {
            assert(out@ =~= old(out)@ + failed_in(g, sub, block));
        }
        i = i + 1;
    }
    assert(cs@.subrange(0, i as int) =~= cs@);
}

impl Authorizer {
    /// Verifies the blocks' logic: merges their facts and rules with the
    /// verifier's own, solves to a fixpoint, checks every caveat, then
    /// applies the first matching policy. `Ok` holds the position of the
    /// allowing policy.
    pub fn authorize(&self, blocks: &Vec<Block>, limits: RunLimits) -> (r: Result<usize, Error>)
        ensures
            decision_of(r) == self.decision(blocks@, limits),
    {
        let mut facts = copy_preds(&self.facts);
        let mut rules = copy_rules(&self.rules);
        let mut b: usize = 0;
        assert(blocks@.subrange(0, 0).len() == 0);
        assert(preds_view(facts@) =~= preds_view(self.facts@) + block_facts(blocks@.subrange(0, 0)));
        assert(rules_view(rules@) =~= rules_view(self.rules@) + block_rules(blocks@.subrange(0, 0)));
        while b < blocks.len()
            invariant
                b <= blocks.len(),
                preds_view(facts@) == preds_view(self.facts@) + block_facts(blocks@.subrange(0, b as int)),
                rules_view(rules@) == rules_view(self.rules@) + block_rules(blocks@.subrange(0, b as int)),
            decreases blocks.len() - b,
        {
            let ghost sub = blocks@.subrange(0, b + 1);
            assert(sub.drop_last() =~= blocks@.subrange(0, b as int));
            assert(sub.last() == blocks@[b as int]);
            let ghost f0 = facts@;
            let ghost r0 = rules@;
            let mut more_facts = copy_preds(&blocks[b].facts);
            let ghost mf = more_facts@;
            facts.append(&mut more_facts);
            assert(preds_view(facts@) =~= preds_view(f0) + preds_view(mf));
            let mut more_rules = copy_rules(&blocks[b].rules);
            let ghost mr = more_rules@;
            rules.append(&mut more_rules);
            assert(rules_view(rules@) =~= rules_view(r0) + rules_view(mr));
            assert(preds_view(facts@) =~= preds_view(self.facts@) + block_facts(sub));
            assert(rules_view(rules@) =~= rules_view(self.rules@) + block_rules(sub));
            b = b + 1;
        }
        assert(blocks@.subrange(0, b as int) =~= blocks@);
        let g = match solve(&facts, &rules, limits) {
            Ok(g) => g,
            Err(e) => {
                return Err(e);
            },
        };
        let ghost gs = fact_set(g@);
        let mut failures: Vec<FailedCaveat> = Vec::new();
        check_caveats(&g, &self.caveats, None, &mut failures);
        let mut b: usize = 0;
        assert(failures@ =~= failed_in(gs, self.caveats@, None) + failed_blocks(gs, blocks@.subrange(0, 0)));
        while b < blocks.len()
            invariant
                b <= blocks.len(),
                gs == fact_set(g@),
                failures@ == failed_in(gs, self.caveats@, None) + failed_blocks(gs, blocks@.subrange(0, b as int)),
            decreases blocks.len() - b,
        {
            let ghost sub = blocks@.subrange(0, b + 1);
            assert(sub.drop_last() =~= blocks@.subrange(0, b as int));
            assert(sub.last() == blocks@[b as int]);
            check_caveats(&g, &blocks[b].caveats, Some(b), &mut failures);
            assert(failures@ =~= failed_in(gs, self.caveats@, None) + failed_blocks(gs, sub));
            b = b + 1;
        }
        assert(blocks@.subrange(0, b as int) =~= blocks@);
        if failures.len() > 0 {
            return Err(Error::FailedCaveats(failures));
        }
        match first_policy(&g, &self.policies) {
            Some(i) => {
                proof {
                    let i2 = choose|i2: int| decided_by(gs, self.policies@, i2);
                    lemma_decided_unique(gs, self.policies@, i as int, i2);
                }
                match self.policies[i].kind {
                    PolicyKind::Allow => Ok(i),
                    PolicyKind::Deny => Err(Error::DeniedByPolicy(i)),
                }
            },
            None => {
                assert(!exists|i: int| decided_by(gs, self.policies@, i));
                Err(Error::NoMatchingPolicy)
            },
        }
    }
}

/// At most one policy is the first to match.
pub proof fn lemma_decided_unique(facts: Set<PredV>, ps: Seq<Policy>, i: int, j: int)
    requires
        decided_by(facts, ps, i),
        decided_by(facts, ps, j),
    ensures
        i == j,
{
    if i < j {
        assert(!policy_matches(facts, ps[i]));
    }
    if j < i {
        assert(!policy_matches(facts, ps[j]));
    }
}

/// The first policy that matches decides, whatever the policies after it
/// say: a denying policy that matches before an allowing one that matches
/// too gives a denial.
pub proof fn lemma_first_match_wins(a: Authorizer, blocks: Seq<Block>, limits: RunLimits)
    requires
        a.fixpoint(blocks, limits) is Some,
        (failed_in(a.fixpoint(blocks, limits)->0, a.caveats@, None) + failed_blocks(
            a.fixpoint(blocks, limits)->0,
            blocks,
        )).len() == 0,
        a.policies@.len() > 0,
        policy_matches(a.fixpoint(blocks, limits)->0, a.policies@[0]),
    ensures
        a.decision(blocks, limits) == match a.policies@[0].kind {
            PolicyKind::Allow => Decision::Allowed(0),
            PolicyKind::Deny => Decision::Denied(0),
        },
{
    let g = a.fixpoint(blocks, limits)->0;
    assert(decided_by(g, a.policies@, 0));
    let i = choose|i: int| decided_by(g, a.policies@, i);
    lemma_decided_unique(g, a.policies@, 0, i);
}

/// A query whose body names a predicate that no fact carries cannot
/// succeed.
pub proof fn lemma_query_needs_name(facts: Set<PredV>, q: RuleV, i: int)
    requires
        0 <= i < q.body.len(),
        forall|f: PredV| #[trigger] facts.contains(f) ==> f.name != q.body[i].name,
    ensures
        !query_holds(facts, q),
{
    if query_holds(facts, q) {
        let e = choose|e: Map<u32, TermV>| #[trigger] solutions(facts, q.body, Map::empty()).contains(e) && all_hold(q.expressions, e);
        lemma_solutions_characterized(facts, q.body, Map::empty(), e);
        assert(facts.contains(subst_pred(q.body[i], e)));
    }
}

/// A caveat each of whose queries names a predicate that no fact carries
/// fails.
pub proof fn lemma_caveat_needs_names(facts: Set<PredV>, queries: Seq<RuleV>, missing: Seq<int>)
    requires
        missing.len() == queries.len(),
        forall|k: int| 0 <= k < queries.len() ==> 0 <= #[trigger] missing[k] < queries[k].body.len(),
        forall|k: int, f: PredV| 0 <= k < queries.len() && #[trigger] facts.contains(f) ==> f.name != #[trigger] queries[k].body[missing[k]].name,
    ensures
        !caveat_holds(facts, queries),
{
    assert forall|k: int| 0 <= k < queries.len() implies !#[trigger] query_holds(facts, queries[k]) by {
        assert(0 <= missing[k] < queries[k].body.len());
        lemma_query_needs_name(facts, queries[k], missing[k]);
    }
}

} // verus!
