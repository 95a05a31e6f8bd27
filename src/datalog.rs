//! The interned logic model: terms, predicates, rules and their
//! mathematical views, with substitution and unification.
use vstd::prelude::*;

verus! {

/// A value in a fact or rule, with names interned as ids.
#[derive(Debug, PartialEq, Eq, Hash)]
pub enum Term {
    Symbol(u64),
    Variable(u32),
    Integer(i64),
    Str(String),
    Date(u64),
    Bytes(Vec<u8>),
    Bool(bool),
    TermSet(Vec<Term>),
}

/// The mathematical value of a [`Term`].
pub enum TermV {
    Symbol(u64),
    Variable(u32),
    Integer(i64),
    Str(Seq<char>),
    Date(u64),
    Bytes(Seq<u8>),
    Bool(bool),
    TermSet(Seq<TermV>),
}

/// The value of a term read as a set member: members never are sets.
pub open spec fn leaf_view(t: Term) -> TermV {
    match t {
        Term::Symbol(s) => TermV::Symbol(s),
        Term::Variable(v) => TermV::Variable(v),
        Term::Integer(i) => TermV::Integer(i),
        Term::Str(s) => TermV::Str(s@),
        Term::Date(d) => TermV::Date(d),
        Term::Bytes(b) => TermV::Bytes(b@),
        Term::Bool(b) => TermV::Bool(b),
        Term::TermSet(_) => TermV::TermSet(Seq::empty()),
    }
}

impl View for Term {
    type V = TermV;

    open spec fn view(&self) -> TermV {
        match self {
            Term::TermSet(members) => TermV::TermSet(members@.map_values(|m: Term| leaf_view(m))),
            _ => leaf_view(*self),
        }
    }
}

impl TermV {
    /// A number for each variant, used to demand homogeneous sets.
    pub open spec fn tag(self) -> u8 {
        match self {
            TermV::Symbol(_) => 0,
            TermV::Variable(_) => 1,
            TermV::Integer(_) => 2,
            TermV::Str(_) => 3,
            TermV::Date(_) => 4,
            TermV::Bytes(_) => 5,
            TermV::Bool(_) => 6,
            TermV::TermSet(_) => 7,
        }
    }

    /// Members of a set hold no variable and no set, and share one variant.
    pub open spec fn valid_members(members: Seq<TermV>) -> bool {
        &&& forall|i: int| 0 <= i < members.len() ==> !(#[trigger] members[i] is Variable) && !(
        members[i] is TermSet)
        &&& forall|i: int, j: int|
            0 <= i < members.len() && 0 <= j < members.len() ==> #[trigger] members[i].tag()
                == #[trigger] members[j].tag()
    }

    /// A term is well formed unless it is an invalid set.
    pub open spec fn wf(self) -> bool {
        match self {
            TermV::TermSet(members) => TermV::valid_members(members),
            _ => true,
        }
    }
}

/// The variant number of a term.
pub fn term_tag(t: &Term) -> (r: u8)
    ensures
        r == t@.tag(),
{
    match t {
        Term::Symbol(_) => 0,
        Term::Variable(_) => 1,
        Term::Integer(_) => 2,
        Term::Str(_) => 3,
        Term::Date(_) => 4,
        Term::Bytes(_) => 5,
        Term::Bool(_) => 6,
        Term::TermSet(_) => 7,
    }
}

/// Equality of byte strings.
pub fn bytes_eq(a: &Vec<u8>, b: &Vec<u8>) -> (r: bool)
    ensures
        r == (a@ == b@),
{
    if a.len() != b.len() {
        return false;
    }
    let mut i: usize = 0;
    while i < a.len()
        invariant
            i <= a.len(),
            a.len() == b.len(),
            forall|k: int| 0 <= k < i ==> a@[k] == b@[k],
        decreases a.len() - i,
    {
        if a[i] != b[i] {
            return false;
        }
        i = i + 1;
    }
    assert(a@ =~= b@);
    true
}

/// Equality of two terms read as set members.
pub fn leaf_eq(a: &Term, b: &Term) -> (r: bool)
    ensures
        r == (leaf_view(*a) == leaf_view(*b)),
{
    match (a, b) {
        (Term::Symbol(x), Term::Symbol(y)) => *x == *y,
        (Term::Variable(x), Term::Variable(y)) => *x == *y,
        (Term::Integer(x), Term::Integer(y)) => *x == *y,
        (Term::Str(x), Term::Str(y)) => *x == *y,
        (Term::Date(x), Term::Date(y)) => *x == *y,
        (Term::Bytes(x), Term::Bytes(y)) => bytes_eq(x, y),
        (Term::Bool(x), Term::Bool(y)) => *x == *y,
        (Term::TermSet(_), Term::TermSet(_)) => true,
        _ => false,
    }
}

/// Equality of the values of two terms.
pub fn term_eq(a: &Term, b: &Term) -> (r: bool)
    ensures
        r == (a@ == b@),
{
    match a {
        Term::TermSet(x) => {
            let y = match b {
                Term::TermSet(y) => y,
                _ => {
                    return false;
                },
            };
            let ghost xs = x@.map_values(|m: Term| leaf_view(m));
            let ghost ys = y@.map_values(|m: Term| leaf_view(m));
            assert(a@ == TermV::TermSet(xs) && b@ == TermV::TermSet(ys));
            if x.len() != y.len() {
                assert(xs.len() != ys.len());
                return false;
            }
            let mut i: usize = 0;
            while i < x.len()
                invariant
                    i <= x.len(),
                    x.len() == y.len(),
                    xs == x@.map_values(|m: Term| leaf_view(m)),
                    ys == y@.map_values(|m: Term| leaf_view(m)),
                    a@ == TermV::TermSet(xs),
                    b@ == TermV::TermSet(ys),
                    forall|k: int| 0 <= k < i ==> xs[k] == ys[k],
                decreases x.len() - i,
            {
                if !leaf_eq(&x[i], &y[i]) {
                    assert(xs[i as int] != ys[i as int]);
                    return false;
                }
                i = i + 1;
            }
            assert(xs =~= ys);
            true
        },
        _ => match b {
            Term::TermSet(_) => false,
            _ => leaf_eq(a, b),
        },
    }
}

/// Copies a term.
pub fn copy_term(t: &Term) -> (r: Term)
    ensures
        r@ == t@,
{
    match t {
        Term::Symbol(s) => Term::Symbol(*s),
        Term::Variable(v) => Term::Variable(*v),
        Term::Integer(i) => Term::Integer(*i),
        Term::Str(s) => Term::Str(s.clone()),
        Term::Date(d) => Term::Date(*d),
        Term::Bytes(b) => Term::Bytes(b.clone()),
        Term::Bool(b) => Term::Bool(*b),
        Term::TermSet(members) => {
            let mut out: Vec<Term> = Vec::new();
            let mut i: usize = 0;
            while i < members.len()
                invariant
                    i <= members.len(),
                    out@.map_values(|m: Term| leaf_view(m)) =~= members@.subrange(
                        0,
                        i as int,
                    ).map_values(|m: Term| leaf_view(m)),
                decreases members.len() - i,
            {
                let m = copy_leaf(&members[i]);
                let ghost before = out@;
                out.push(m);
                assert(out@.map_values(|m: Term| leaf_view(m)) =~= before.map_values(
                    |m: Term| leaf_view(m),
                ).push(leaf_view(m)));
                assert(members@.subrange(0, i + 1) =~= members@.subrange(0, i as int).push(
                    members@[i as int],
                ));
                i = i + 1;
            }
            assert(members@.subrange(0, members@.len() as int) =~= members@);
            Term::TermSet(out)
        },
    }
}

/// Copies a term read as a set member.
pub fn copy_leaf(t: &Term) -> (r: Term)
    ensures
        leaf_view(r) == leaf_view(*t),
{
    match t {
        Term::Symbol(s) => Term::Symbol(*s),
        Term::Variable(v) => Term::Variable(*v),
        Term::Integer(i) => Term::Integer(*i),
        Term::Str(s) => Term::Str(s.clone()),
        Term::Date(d) => Term::Date(*d),
        Term::Bytes(b) => Term::Bytes(b.clone()),
        Term::Bool(b) => Term::Bool(*b),
        Term::TermSet(_) => Term::TermSet(Vec::new()),
    }
}

impl Clone for Term {
    fn clone(&self) -> (r: Term)
        ensures
            r@ == self@,
    {
        copy_term(self)
    }
}

/// A name applied to a list of terms.
#[derive(Clone, Debug, PartialEq, Eq, Hash)]
pub struct Predicate {
    pub name: u64,
    pub terms: Vec<Term>,
}

/// The mathematical value of a [`Predicate`].
pub struct PredV {
    pub name: u64,
    pub terms: Seq<TermV>,
}

impl View for Predicate {
    type V = PredV;

    open spec fn view(&self) -> PredV {
        PredV { name: self.name, terms: self.terms@.map_values(|t: Term| t@) }
    }
}

impl PredV {
    /// No term of the predicate is a variable.
    pub open spec fn is_ground(self) -> bool {
        forall|i: int| 0 <= i < self.terms.len() ==> !(#[trigger] self.terms[i] is Variable)
    }
}

/// A ground predicate.
#[derive(Clone, Debug, PartialEq, Eq, Hash)]
pub struct Fact {
    pub predicate: Predicate,
}

/// Binary operators of expressions.
#[derive(Clone, Copy, Debug, PartialEq, Eq, Hash)]
pub enum Binary {
    LessThan,
    GreaterThan,
    LessOrEqual,
    GreaterOrEqual,
    Equal,
    In,
    NotIn,
    Prefix,
    Suffix,
    Regex,
    Add,
    And,
}

/// Unary operators of expressions.
#[derive(Clone, Copy, Debug, PartialEq, Eq, Hash)]
pub enum Unary {
    Negate,
}

/// One instruction of a postfix expression.
#[derive(Clone, Debug, PartialEq, Eq, Hash)]
pub enum Op {
    Value(Term),
    Unary(Unary),
    Binary(Binary),
}

/// The mathematical value of an [`Op`].
pub enum OpV {
    Value(TermV),
    Unary(Unary),
    Binary(Binary),
}

impl View for Op {
    type V = OpV;

    open spec fn view(&self) -> OpV {
        match self {
            Op::Value(t) => OpV::Value(t@),
            Op::Unary(u) => OpV::Unary(*u),
            Op::Binary(b) => OpV::Binary(*b),
        }
    }
}

/// A postfix expression, evaluated on a stack.
#[derive(Clone, Debug, PartialEq, Eq, Hash)]
pub struct Expression {
    pub ops: Vec<Op>,
}

impl View for Expression {
    type V = Seq<OpV>;

    open spec fn view(&self) -> Seq<OpV> {
        self.ops@.map_values(|o: Op| o@)
    }
}

/// A head derived from the joins of a body, filtered by expressions.
#[derive(Clone, Debug, PartialEq, Eq, Hash)]
pub struct Rule {
    pub head: Predicate,
    pub body: Vec<Predicate>,
    pub expressions: Vec<Expression>,
}

/// The mathematical value of a [`Rule`].
pub struct RuleV {
    pub head: PredV,
    pub body: Seq<PredV>,
    pub expressions: Seq<Seq<OpV>>,
}

impl View for Rule {
    type V = RuleV;

    open spec fn view(&self) -> RuleV {
        RuleV {
            head: self.head@,
            body: self.body@.map_values(|p: Predicate| p@),
            expressions: self.expressions@.map_values(|e: Expression| e@),
        }
    }
}

/// Queries combined by OR: satisfied when one of them has a match.
#[derive(Clone, Debug, PartialEq, Eq, Hash)]
pub struct Caveat {
    pub queries: Vec<Rule>,
}

/// The values of a list of predicates.
pub open spec fn preds_view(ps: Seq<Predicate>) -> Seq<PredV> {
    ps.map_values(|p: Predicate| p@)
}

/// The values of a list of rules.
pub open spec fn rules_view(rs: Seq<Rule>) -> Seq<RuleV> {
    rs.map_values(|r: Rule| r@)
}

/// The set of values of a list of predicates.
pub open spec fn fact_set(ps: Seq<Predicate>) -> Set<PredV> {
    preds_view(ps).to_set()
}

/// Equality of the values of two predicates.
pub fn pred_eq(a: &Predicate, b: &Predicate) -> (r: bool)
    ensures
        r == (a@ == b@),
{
    if a.name != b.name || a.terms.len() != b.terms.len() {
        assert(a@.terms.len() == a.terms.len() && b@.terms.len() == b.terms.len());
        return false;
    }
    let mut i: usize = 0;
    while i < a.terms.len()
        invariant
            i <= a.terms.len(),
            a.terms.len() == b.terms.len(),
            forall|k: int| 0 <= k < i ==> a@.terms[k] == b@.terms[k],
        decreases a.terms.len() - i,
    {
        if !term_eq(&a.terms[i], &b.terms[i]) {
            assert(a@.terms[i as int] != b@.terms[i as int]);
            return false;
        }
        i = i + 1;
    }
    assert(a@.terms =~= b@.terms);
    true
}

/// Copies a predicate.
pub fn copy_pred(p: &Predicate) -> (r: Predicate)
    ensures
        r@ == p@,
{
    let mut terms: Vec<Term> = Vec::new();
    let mut i: usize = 0;
    while i < p.terms.len()
        invariant
            i <= p.terms.len(),
            terms@.map_values(|t: Term| t@) =~= p.terms@.subrange(0, i as int).map_values(
                |t: Term| t@,
            ),
        decreases p.terms.len() - i,
    {
        let t = copy_term(&p.terms[i]);
        let ghost before = terms@;
        terms.push(t);
        assert(terms@.map_values(|t: Term| t@) =~= before.map_values(|t: Term| t@).push(t@));
        assert(p.terms@.subrange(0, i + 1) =~= p.terms@.subrange(0, i as int).push(
            p.terms@[i as int],
        ));
        i = i + 1;
    }
    assert(p.terms@.subrange(0, p.terms@.len() as int) =~= p.terms@);
    Predicate { name: p.name, terms }
}

/// Whether a list of predicates holds one of the value of `p`.
pub fn contains_pred(ps: &Vec<Predicate>, p: &Predicate) -> (r: bool)
    ensures
        r == fact_set(ps@).contains(p@),
        r == preds_view(ps@).contains(p@),
{
    let mut i: usize = 0;
    while i < ps.len()
        invariant
            i <= ps.len(),
            forall|k: int| 0 <= k < i ==> ps@[k]@ != p@,
        decreases ps.len() - i,
    {
        if pred_eq(&ps[i], p) {
            assert(preds_view(ps@)[i as int] == p@);
            return true;
        }
        i = i + 1;
    }
    assert(!preds_view(ps@).contains(p@)) by {
        if preds_view(ps@).contains(p@) {
            let k = choose|k: int| 0 <= k < preds_view(ps@).len() && preds_view(ps@)[k] == p@;
            assert(ps@[k]@ == p@);
        }
    }
    false
}

/// Variable bindings, most recent last; the view keeps the latest binding
/// of each variable.
pub open spec fn env_view(s: Seq<(u32, Term)>) -> Map<u32, TermV>
    decreases s.len(),
{
    if s.len() == 0 {
        Map::empty()
    } else {
        env_view(s.drop_last()).insert(s.last().0, s.last().1@)
    }
}

/// The term bound to `v`, if any.
pub fn lookup_var(env: &Vec<(u32, Term)>, v: u32) -> (r: Option<Term>)
    ensures
        match r {
            Some(t) => env_view(env@).contains_key(v) && env_view(env@)[v] == t@,
            None => !env_view(env@).contains_key(v),
        },
{
    let mut j: usize = env.len();
    assert(env@.subrange(0, j as int) =~= env@);
    while j > 0
        invariant
            j <= env.len(),
            env_view(env@.subrange(0, j as int)).contains_key(v) == env_view(env@).contains_key(
                v,
            ),
            env_view(env@).contains_key(v) ==> env_view(env@.subrange(0, j as int))[v]
                == env_view(env@)[v],
        decreases j,
    {
        let ghost pre = env@.subrange(0, j as int);
        assert(pre.drop_last() =~= env@.subrange(0, j - 1));
        if env[j - 1].0 == v {
            return Some(copy_term(&env[j - 1].1));
        }
        j = j - 1;
    }
    assert(env@.subrange(0, 0) =~= Seq::<(u32, Term)>::empty());
    None
}

/// Copies a list of bindings.
pub fn copy_env(env: &Vec<(u32, Term)>) -> (r: Vec<(u32, Term)>)
    ensures
        env_view(r@) == env_view(env@),
{
    let mut out: Vec<(u32, Term)> = Vec::new();
    let mut i: usize = 0;
    while i < env.len()
        invariant
            i <= env.len(),
            env_view(out@) == env_view(env@.subrange(0, i as int)),
        decreases env.len() - i,
    {
        let t = copy_term(&env[i].1);
        let ghost before = out@;
        out.push((env[i].0, t));
        assert(out@.drop_last() =~= before);
        assert(env@.subrange(0, i + 1).drop_last() =~= env@.subrange(0, i as int));
        i = i + 1;
    }
    assert(env@.subrange(0, env@.len() as int) =~= env@);
    out
}

/// Copies an instruction.
pub fn copy_op(o: &Op) -> (r: Op)
    ensures
        r@ == o@,
{
    match o {
        Op::Value(t) => Op::Value(copy_term(t)),
        Op::Unary(u) => Op::Unary(*u),
        Op::Binary(b) => Op::Binary(*b),
    }
}

/// Copies an expression.
pub fn copy_expression(e: &Expression) -> (r: Expression)
    ensures
        r@ == e@,
{
    let mut ops: Vec<Op> = Vec::new();
    let mut i: usize = 0;
    while i < e.ops.len()
        invariant
            i <= e.ops.len(),
            ops@.map_values(|o: Op| o@) =~= e.ops@.subrange(0, i as int).map_values(|o: Op| o@),
        decreases e.ops.len() - i,
    {
        let o = copy_op(&e.ops[i]);
        let ghost before = ops@;
        ops.push(o);
        assert(ops@.map_values(|o: Op| o@) =~= before.map_values(|o: Op| o@).push(o@));
        assert(e.ops@.subrange(0, i + 1) =~= e.ops@.subrange(0, i as int).push(e.ops@[i as int]));
        i = i + 1;
    }
    assert(e.ops@.subrange(0, e.ops@.len() as int) =~= e.ops@);
    Expression { ops }
}

/// Copies a list of predicates.
pub fn copy_preds(ps: &Vec<Predicate>) -> (r: Vec<Predicate>)
    ensures
        preds_view(r@) == preds_view(ps@),
{
    let mut out: Vec<Predicate> = Vec::new();
    let mut i: usize = 0;
    while i < ps.len()
        invariant
            i <= ps.len(),
            preds_view(out@) =~= preds_view(ps@.subrange(0, i as int)),
        decreases ps.len() - i,
    {
        let p = copy_pred(&ps[i]);
        let ghost before = out@;
        out.push(p);
        assert(preds_view(out@) =~= preds_view(before).push(p@));
        assert(ps@.subrange(0, i + 1) =~= ps@.subrange(0, i as int).push(ps@[i as int]));
        i = i + 1;
    }
    assert(ps@.subrange(0, ps@.len() as int) =~= ps@);
    out
}

/// Copies a rule.
pub fn copy_rule(r: &Rule) -> (out: Rule)
    ensures
        out@ == r@,
{
    let head = copy_pred(&r.head);
    let body = copy_preds(&r.body);
    let mut expressions: Vec<Expression> = Vec::new();
    let mut i: usize = 0;
    while i < r.expressions.len()
        invariant
            i <= r.expressions.len(),
            expressions@.map_values(|e: Expression| e@) =~= r.expressions@.subrange(
                0,
                i as int,
            ).map_values(|e: Expression| e@),
        decreases r.expressions.len() - i,
    {
        let e = copy_expression(&r.expressions[i]);
        let ghost before = expressions@;
        expressions.push(e);
        assert(expressions@.map_values(|e: Expression| e@) =~= before.map_values(
            |e: Expression| e@,
        ).push(e@));
        assert(r.expressions@.subrange(0, i + 1) =~= r.expressions@.subrange(0, i as int).push(
            r.expressions@[i as int],
        ));
        i = i + 1;
    }
    assert(r.expressions@.subrange(0, r.expressions@.len() as int) =~= r.expressions@);
    Rule { head, body, expressions }
}

/// Copies a list of rules.
pub fn copy_rules(rs: &Vec<Rule>) -> (r: Vec<Rule>)
    ensures
        rules_view(r@) == rules_view(rs@),
{
    let mut out: Vec<Rule> = Vec::new();
    let mut i: usize = 0;
    while i < rs.len()
        invariant
            i <= rs.len(),
            rules_view(out@) =~= rules_view(rs@.subrange(0, i as int)),
        decreases rs.len() - i,
    {
        let r = copy_rule(&rs[i]);
        let ghost before = out@;
        out.push(r);
        assert(rules_view(out@) =~= rules_view(before).push(r@));
        assert(rs@.subrange(0, i + 1) =~= rs@.subrange(0, i as int).push(rs@[i as int]));
        i = i + 1;
    }
    assert(rs@.subrange(0, rs@.len() as int) =~= rs@);
    out
}

} // verus!
