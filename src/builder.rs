//! Values named by strings, as a caller writes them, and their conversion
//! to and from the interned model through a symbol table.
use vstd::prelude::*;
use crate::datalog;
use crate::datalog::{Binary, OpV, PredV, RuleV, TermV, Unary};
use crate::error::Error;
use crate::symbols::SymbolTable;
use crate::authorizer::PolicyKind;
use crate::token::{Biscuit, Block, MAX_SCHEMA_VERSION, Proof, public_key_of, signature_by};
use crate::codec::block_enc;
use crate::solver::{lemma_run_body_order, lemma_run_rule_order, run};

verus! {

/// A value in a fact or rule, with names as strings.
#[derive(Debug, PartialEq, Eq, Hash)]
pub enum Term {
    Symbol(String),
    Variable(String),
    Integer(i64),
    Str(String),
    Date(u64),
    Bytes(Vec<u8>),
    Bool(bool),
    TermSet(Vec<Term>),
}

/// The mathematical value of a builder [`Term`].
pub enum NamedV {
    Symbol(Seq<char>),
    Variable(Seq<char>),
    Integer(i64),
    Str(Seq<char>),
    Date(u64),
    Bytes(Seq<u8>),
    Bool(bool),
    TermSet(Seq<NamedV>),
}

/// The value of a term read as a set member: members never are sets.
pub open spec fn leaf_view(t: Term) -> NamedV {
    match t {
        Term::Symbol(s) => NamedV::Symbol(s@),
        Term::Variable(s) => NamedV::Variable(s@),
        Term::Integer(i) => NamedV::Integer(i),
        Term::Str(s) => NamedV::Str(s@),
        Term::Date(d) => NamedV::Date(d),
        Term::Bytes(b) => NamedV::Bytes(b@),
        Term::Bool(b) => NamedV::Bool(b),
        Term::TermSet(_) => NamedV::TermSet(Seq::empty()),
    }
}

impl View for Term {
    type V = NamedV;

    open spec fn view(&self) -> NamedV {
        match self {
            Term::TermSet(ms) => NamedV::TermSet(ms@.map_values(|m: Term| leaf_view(m))),
            _ => leaf_view(*self),
        }
    }
}

impl NamedV {
    /// The variant number, as for interned terms.
    pub open spec fn tag(self) -> u8 {
        match self {
            NamedV::Symbol(_) => 0,
            NamedV::Variable(_) => 1,
            NamedV::Integer(_) => 2,
            NamedV::Str(_) => 3,
            NamedV::Date(_) => 4,
            NamedV::Bytes(_) => 5,
            NamedV::Bool(_) => 6,
            NamedV::TermSet(_) => 7,
        }
    }
}

/// `id` names `name` in `table`.
pub open spec fn names(table: Seq<Seq<char>>, id: int, name: Seq<char>) -> bool {
    0 <= id < table.len() && table[id] == name
}

/// The interned value `d` stands for `n`, read as a set member, under `table`.
pub open spec fn leaf_converted(n: NamedV, d: TermV, table: Seq<Seq<char>>) -> bool {
    match n {
        NamedV::Symbol(s) => d is Symbol && names(table, d->Symbol_0 as int, s),
        NamedV::Variable(s) => d is Variable && names(table, d->Variable_0 as int, s),
        NamedV::Integer(i) => d == TermV::Integer(i),
        NamedV::Str(s) => d == TermV::Str(s),
        NamedV::Date(x) => d == TermV::Date(x),
        NamedV::Bytes(b) => d == TermV::Bytes(b),
        NamedV::Bool(b) => d == TermV::Bool(b),
        NamedV::TermSet(_) => d == TermV::TermSet(Seq::empty()),
    }
}

/// The interned value `d` stands for `n` under `table`.
pub open spec fn converted(n: NamedV, d: TermV, table: Seq<Seq<char>>) -> bool {
    match n {
        NamedV::TermSet(ms) => d is TermSet && d->TermSet_0.len() == ms.len() && forall|i: int|
            0 <= i < ms.len() ==> leaf_converted(#[trigger] ms[i], d->TermSet_0[i], table),
        _ => leaf_converted(n, d, table),
    }
}

/// `t1` is `t0` with names appended.
pub open spec fn extends(t0: Seq<Seq<char>>, t1: Seq<Seq<char>>) -> bool {
    t0.len() <= t1.len() && t1.subrange(0, t0.len() as int) == t0
}

/// A name of the smaller table keeps its id in the larger one.
pub proof fn lemma_names_extend(t0: Seq<Seq<char>>, t1: Seq<Seq<char>>)
    requires
        extends(t0, t1),
    ensures
        forall|id: int, s: Seq<char>| names(t0, id, s) ==> #[trigger] names(t1, id, s),
{
    assert forall|id: int, s: Seq<char>| names(t0, id, s) implies #[trigger] names(t1, id, s) by {
        assert(t1.subrange(0, t0.len() as int)[id] == t1[id]);
    }
}

/// Extension of tables is transitive.
pub proof fn lemma_extends_trans(t0: Seq<Seq<char>>, t1: Seq<Seq<char>>, t2: Seq<Seq<char>>)
    requires
        extends(t0, t1),
        extends(t1, t2),
    ensures
        extends(t0, t2),
{
    assert(t2.subrange(0, t0.len() as int) =~= t1.subrange(0, t0.len() as int));
}

/// Conversions keep holding as the table grows.
pub proof fn lemma_converted_extends(n: NamedV, d: TermV, t0: Seq<Seq<char>>, t1: Seq<Seq<char>>)
    requires
        converted(n, d, t0),
        extends(t0, t1),
    ensures
        converted(n, d, t1),
{
    lemma_names_extend(t0, t1);
    match n {
        NamedV::TermSet(ms) => {
            assert forall|i: int| 0 <= i < ms.len() implies leaf_converted(
                #[trigger] ms[i],
                d->TermSet_0[i],
                t1,
            ) by {
                assert(leaf_converted(ms[i], d->TermSet_0[i], t0));
            }
        },
        _ => {},
    }
}

/// The table after interning `n`: unchanged when `n` is there, else with
/// `n` appended.
pub open spec fn intern_name(t: Seq<Seq<char>>, n: Seq<char>) -> Seq<Seq<char>> {
    if t.contains(n) {
        t
    } else {
        t.push(n)
    }
}

/// The table after interning the names in order.
pub open spec fn intern_all(t: Seq<Seq<char>>, ns: Seq<Seq<char>>) -> Seq<Seq<char>>
    decreases ns.len(),
{
    if ns.len() == 0 {
        t
    } else {
        intern_name(intern_all(t, ns.drop_last()), ns.last())
    }
}

/// The sequences joined in order.
pub open spec fn concat<A>(s: Seq<Seq<A>>) -> Seq<A>
    decreases s.len(),
{
    if s.len() == 0 {
        Seq::empty()
    } else {
        concat(s.drop_last()) + s.last()
    }
}

/// Interning two lists is interning one after the other.
pub proof fn lemma_intern_append(t: Seq<Seq<char>>, a: Seq<Seq<char>>, b: Seq<Seq<char>>)
    ensures
        intern_all(t, a + b) == intern_all(intern_all(t, a), b),
    decreases b.len(),
{
    if b.len() == 0 {
        assert(a + b =~= a);
    } else {
        assert((a + b).drop_last() =~= a + b.drop_last());
        lemma_intern_append(t, a, b.drop_last());
    }
}

/// Interning only appends names, at most one per name interned.
pub proof fn lemma_intern_grows(t: Seq<Seq<char>>, ns: Seq<Seq<char>>)
    ensures
        extends(t, intern_all(t, ns)),
        intern_all(t, ns).len() <= t.len() + ns.len(),
    decreases ns.len(),
{
    if ns.len() > 0 {
        lemma_intern_grows(t, ns.drop_last());
        let m = intern_all(t, ns.drop_last());
        if !m.contains(ns.last()) {
            assert(m.push(ns.last()).subrange(0, t.len() as int) =~= m.subrange(0, t.len() as int));
        }
    } else {
        assert(t.subrange(0, t.len() as int) =~= t);
    }
}

/// Interning into a table without repeated names keeps it so.
pub proof fn lemma_intern_distinct(t: Seq<Seq<char>>, ns: Seq<Seq<char>>)
    requires
        t.no_duplicates(),
    ensures
        intern_all(t, ns).no_duplicates(),
    decreases ns.len(),
{
    if ns.len() > 0 {
        lemma_intern_distinct(t, ns.drop_last());
    }
}

/// Joining two lists of sequences.
pub proof fn lemma_concat_append<A>(a: Seq<Seq<A>>, b: Seq<Seq<A>>)
    ensures
        concat(a + b) == concat(a) + concat(b),
    decreases b.len(),
{
    if b.len() == 0 {
        assert(a + b =~= a);
        assert(concat(a) + concat(b) =~= concat(a));
    } else {
        assert((a + b).drop_last() =~= a + b.drop_last());
        lemma_concat_append(a, b.drop_last());
        assert(concat(a) + concat(b.drop_last()) + b.last() =~= concat(a) + (concat(b.drop_last()) + b.last()));
    }
}

/// Once interning a prefix of the names overflows, interning them all does.
pub proof fn lemma_intern_overflow(t: Seq<Seq<char>>, pre: Seq<Seq<char>>, post: Seq<Seq<char>>, m: int)
    requires
        intern_all(t, pre).len() >= m,
    ensures
        intern_all(t, pre + post).len() >= m,
{
    lemma_intern_append(t, pre, post);
    lemma_intern_grows(intern_all(t, pre), post);
}

/// A step of a loop that interns the names of items in order.
pub proof fn lemma_intern_step(t: Seq<Seq<char>>, head: Seq<Seq<char>>, parts: Seq<Seq<Seq<char>>>, i: int)
    requires
        0 <= i < parts.len(),
    ensures
        intern_all(intern_all(t, head + concat(parts.subrange(0, i))), parts[i]) == intern_all(
            t,
            head + concat(parts.subrange(0, i + 1)),
        ),
{
    assert(parts.subrange(0, i + 1).drop_last() =~= parts.subrange(0, i));
    assert(head + concat(parts.subrange(0, i + 1)) =~= (head + concat(parts.subrange(0, i))) + parts[i]);
    lemma_intern_append(t, head + concat(parts.subrange(0, i)), parts[i]);
}

/// A failing step of such a loop makes interning all the names overflow.
pub proof fn lemma_intern_step_fails(
    t: Seq<Seq<char>>,
    head: Seq<Seq<char>>,
    parts: Seq<Seq<Seq<char>>>,
    tail: Seq<Seq<char>>,
    i: int,
)
    requires
        0 <= i < parts.len(),
        intern_all(intern_all(t, head + concat(parts.subrange(0, i))), parts[i]).len() >= u32::MAX,
    ensures
        intern_all(t, head + concat(parts) + tail).len() >= u32::MAX,
{
    lemma_intern_step(t, head, parts, i);
    let pre = head + concat(parts.subrange(0, i + 1));
    assert(parts =~= parts.subrange(0, i + 1) + parts.subrange(i + 1, parts.len() as int));
    lemma_concat_append(parts.subrange(0, i + 1), parts.subrange(i + 1, parts.len() as int));
    assert(head + concat(parts) + tail =~= pre + (concat(parts.subrange(i + 1, parts.len() as int)) + tail));
    lemma_intern_overflow(t, pre, concat(parts.subrange(i + 1, parts.len() as int)) + tail, u32::MAX as int);
}

/// Decides whether the members of a set are valid.
fn members_valid(ms: &Vec<Term>) -> (r: bool)
    ensures
        r == valid_members(ms@.map_values(|m: Term| leaf_view(m))),
{
    let ghost mv = ms@.map_values(|m: Term| leaf_view(m));
    let mut i: usize = 0;
    while i < ms.len()
        invariant
            i <= ms.len(),
            mv == ms@.map_values(|m: Term| leaf_view(m)),
            forall|k: int| 0 <= k < i ==> !(#[trigger] mv[k] is Variable) && !(mv[k] is TermSet) && mv[k].tag() == mv[0].tag(),
        decreases ms.len() - i,
    {
        assert(mv[i as int] == leaf_view(ms@[i as int]) && mv[0] == leaf_view(ms@[0]));
        assert(mv[i as int].tag() == ms@[i as int]@.tag() && mv[0].tag() == ms@[0]@.tag());
        let bad = match &ms[i] {
            Term::Variable(_) => true,
            Term::TermSet(_) => true,
            _ => tag(&ms[i]) != tag(&ms[0]),
        };
        if bad {
            assert(mv[i as int] is Variable || mv[i as int] is TermSet || mv[i as int].tag() != mv[0].tag());
            return false;
        }
        i = i + 1;
    }
    true
}

/// Interns `name`: its id, with the table unchanged when the name is there
/// and the name appended otherwise; fails when the table would reach the
/// range of variable ids.
fn intern(symbols: &mut SymbolTable, name: &String) -> (r: Result<u32, Error>)
    requires
        old(symbols).wf(),
    ensures
        final(symbols).wf(),
        extends(old(symbols)@, final(symbols)@),
        match r {
            Ok(id) => names(final(symbols)@, id as int, name@) && final(symbols)@ == intern_name(old(symbols)@, name@)
                && final(symbols)@.len() < u32::MAX,
            Err(e) => e == Error::TooManySymbols && final(symbols)@ == old(symbols)@
                && intern_name(old(symbols)@, name@).len() >= u32::MAX,
        },
{
    assert(symbols@.subrange(0, symbols@.len() as int) =~= symbols@);
    let present = symbols.get(name.as_str());
    let grows: usize = if present.is_some() { 0 } else { 1 };
    if symbols.len() >= u32::MAX as usize || symbols.len() + grows >= u32::MAX as usize {
        return Err(Error::TooManySymbols);
    }
    let id = symbols.insert(name.as_str());
    assert(final(symbols)@.subrange(0, old(symbols)@.len() as int) =~= old(symbols)@);
    Ok(id as u32)
}

/// Interning one name.
pub proof fn lemma_intern_one(t: Seq<Seq<char>>, x: Seq<char>)
    ensures
        intern_all(t, seq![x]) == intern_name(t, x),
{
    assert(seq![x].drop_last() =~= Seq::<Seq<char>>::empty());
    assert(intern_all(t, Seq::<Seq<char>>::empty()) == t);
    assert(seq![x].last() == x);
    assert(intern_all(t, seq![x]) == intern_name(intern_all(t, seq![x].drop_last()), seq![x].last()));
}

/// The names a predicate uses: its name, then its terms' names.
pub open spec fn pred_names(p: NamedPredV) -> Seq<Seq<char>> {
    seq![p.name] + concat(p.terms.map_values(|t: NamedV| term_names(t)))
}

/// The names an instruction uses.
pub open spec fn op_names(o: NamedOpV) -> Seq<Seq<char>> {
    match o {
        NamedOpV::Value(t) => term_names(t),
        _ => Seq::empty(),
    }
}

/// The names an expression uses, instruction after instruction.
pub open spec fn ops_names(ops: Seq<NamedOpV>) -> Seq<Seq<char>> {
    concat(ops.map_values(|o: NamedOpV| op_names(o)))
}

/// The names a rule uses: head, body, then expressions.
pub open spec fn rule_names(r: NamedRuleV) -> Seq<Seq<char>> {
    pred_names(r.head) + concat(r.body.map_values(|p: NamedPredV| pred_names(p))) + concat(
        r.expressions.map_values(|e: Seq<NamedOpV>| ops_names(e)),
    )
}

/// The names a list of rules uses.
pub open spec fn rules_names(rs: Seq<NamedRuleV>) -> Seq<Seq<char>> {
    concat(rs.map_values(|r: NamedRuleV| rule_names(r)))
}

/// The names a list of facts uses.
pub open spec fn facts_names(fs: Seq<Fact>) -> Seq<Seq<char>> {
    concat(fs.map_values(|f: Fact| pred_names(f.0@)))
}

/// The names a list of caveats uses.
pub open spec fn caveats_names(cs: Seq<Caveat>) -> Seq<Seq<char>> {
    concat(cs.map_values(|c: Caveat| rules_names(c.queries_view())))
}

/// The names a block builder uses: facts, rules, then caveats.
pub open spec fn block_names(b: BlockBuilder) -> Seq<Seq<char>> {
    facts_names(b.facts@) + rules_names(b.rules@.map_values(|x: Rule| x@)) + caveats_names(b.caveats@)
}

/// A term is well formed: a set holds valid members.
pub open spec fn term_ok(n: NamedV) -> bool {
    match n {
        NamedV::TermSet(ms) => valid_members(ms),
        _ => true,
    }
}

/// Every term of a predicate is well formed.
pub open spec fn pred_ok(p: NamedPredV) -> bool {
    forall|i: int| 0 <= i < p.terms.len() ==> term_ok(#[trigger] p.terms[i])
}

/// Every value of an instruction is well formed.
pub open spec fn op_ok(o: NamedOpV) -> bool {
    match o {
        NamedOpV::Value(t) => term_ok(t),
        _ => true,
    }
}

/// Every instruction of an expression is well formed.
pub open spec fn ops_ok(ops: Seq<NamedOpV>) -> bool {
    forall|i: int| 0 <= i < ops.len() ==> op_ok(#[trigger] ops[i])
}

/// Every predicate and expression of a rule is well formed.
pub open spec fn rule_ok(r: NamedRuleV) -> bool {
    &&& pred_ok(r.head)
    &&& forall|i: int| 0 <= i < r.body.len() ==> pred_ok(#[trigger] r.body[i])
    &&& forall|i: int| 0 <= i < r.expressions.len() ==> ops_ok(#[trigger] r.expressions[i])
}

/// Every rule of a list is well formed.
pub open spec fn rules_ok(rs: Seq<NamedRuleV>) -> bool {
    forall|i: int| 0 <= i < rs.len() ==> rule_ok(#[trigger] rs[i])
}

/// Every fact of a list is well formed.
pub open spec fn facts_ok(fs: Seq<Fact>) -> bool {
    forall|i: int| 0 <= i < fs.len() ==> pred_ok((#[trigger] fs[i]).0@)
}

/// Every caveat of a list is well formed.
pub open spec fn caveats_ok(cs: Seq<Caveat>) -> bool {
    forall|i: int| 0 <= i < cs.len() ==> rules_ok((#[trigger] cs[i]).queries_view())
}

/// Every fact, rule and caveat of a block builder is well formed.
pub open spec fn block_ok(b: BlockBuilder) -> bool {
    facts_ok(b.facts@) && rules_ok(b.rules@.map_values(|x: Rule| x@)) && caveats_ok(b.caveats@)
}

/// The names a set member uses.
pub open spec fn leaf_names(n: NamedV) -> Seq<Seq<char>> {
    match n {
        NamedV::Symbol(x) => seq![x],
        NamedV::Variable(x) => seq![x],
        _ => Seq::empty(),
    }
}

/// The names a term uses, in order.
pub open spec fn term_names(n: NamedV) -> Seq<Seq<char>> {
    match n {
        NamedV::TermSet(ms) => concat(ms.map_values(|m: NamedV| leaf_names(m))),
        _ => leaf_names(n),
    }
}

/// Copies a term read as a set member.
fn copy_leaf(t: &Term) -> (r: Term)
    ensures
        leaf_view(r) == leaf_view(*t),
{
    match t {
        Term::Symbol(s) => Term::Symbol(s.clone()),
        Term::Variable(s) => Term::Variable(s.clone()),
        Term::Integer(i) => Term::Integer(*i),
        Term::Str(s) => Term::Str(s.clone()),
        Term::Date(d) => Term::Date(*d),
        Term::Bytes(b) => Term::Bytes(b.clone()),
        Term::Bool(b) => Term::Bool(*b),
        Term::TermSet(_) => Term::TermSet(Vec::new()),
    }
}

/// Copies a term.
pub fn copy_named(t: &Term) -> (r: Term)
    ensures
        r@ == t@,
{
    match t {
        Term::TermSet(ms) => {
            let mut out: Vec<Term> = Vec::new();
            let mut i: usize = 0;
            while i < ms.len()
                invariant
                    i <= ms.len(),
                    out@.map_values(|m: Term| leaf_view(m)) =~= ms@.subrange(0, i as int).map_values(
                        |m: Term| leaf_view(m),
                    ),
                decreases ms.len() - i,
            {
                let m = copy_leaf(&ms[i]);
                let ghost before = out@;
                out.push(m);
                assert(out@.map_values(|m: Term| leaf_view(m)) =~= before.map_values(
                    |m: Term| leaf_view(m),
                ).push(leaf_view(m)));
                assert(ms@.subrange(0, i + 1) =~= ms@.subrange(0, i as int).push(ms@[i as int]));
                i = i + 1;
            }
            assert(ms@.subrange(0, ms@.len() as int) =~= ms@);
            Term::TermSet(out)
        },
        _ => copy_leaf(t),
    }
}

impl Clone for Term {
    fn clone(&self) -> (r: Term)
        ensures
            r@ == self@,
    {
        copy_named(self)
    }
}

/// Every id in a term read as a set member is below `n`.
pub open spec fn leaf_known(d: TermV, n: nat) -> bool {
    match d {
        TermV::Symbol(id) => id < n,
        TermV::Variable(v) => v < n,
        _ => true,
    }
}

/// Every id in a term is below `n`.
pub open spec fn known(d: TermV, n: nat) -> bool {
    match d {
        TermV::TermSet(ms) => forall|i: int| 0 <= i < ms.len() ==> leaf_known(#[trigger] ms[i], n),
        _ => leaf_known(d, n),
    }
}

/// Converts a set member.
fn convert_leaf(t: &Term, symbols: &mut SymbolTable) -> (r: Result<datalog::Term, Error>)
    requires
        old(symbols).wf(),
    ensures
        final(symbols).wf(),
        extends(old(symbols)@, final(symbols)@),
        match r {
            Ok(d) => leaf_converted(leaf_view(*t), datalog::leaf_view(d), final(symbols)@),
            Err(e) => e == Error::TooManySymbols && final(symbols)@.len() + 1 >= u32::MAX,
        },
        r is Ok ==> final(symbols)@ == intern_all(old(symbols)@, leaf_names(leaf_view(*t))),
        r is Err ==> intern_all(old(symbols)@, leaf_names(leaf_view(*t))).len() >= u32::MAX,
{
    proof {
        match t {
            Term::Symbol(x) => lemma_intern_one(symbols@, x@),
            Term::Variable(x) => lemma_intern_one(symbols@, x@),
            _ => {},
        }
    }
    match t {
        Term::Symbol(s) => {
            let id = intern(symbols, s)?;
            Ok(datalog::Term::Symbol(id as u64))
        },
        Term::Variable(s) => {
            let id = intern(symbols, s)?;
            Ok(datalog::Term::Variable(id))
        },
        Term::Integer(i) => {
            assert(symbols@.subrange(0, symbols@.len() as int) =~= symbols@);
            Ok(datalog::Term::Integer(*i))
        },
        Term::Str(s) => {
            assert(symbols@.subrange(0, symbols@.len() as int) =~= symbols@);
            Ok(datalog::Term::Str(s.clone()))
        },
        Term::Date(d) => {
            assert(symbols@.subrange(0, symbols@.len() as int) =~= symbols@);
            Ok(datalog::Term::Date(*d))
        },
        Term::Bytes(b) => {
            assert(symbols@.subrange(0, symbols@.len() as int) =~= symbols@);
            Ok(datalog::Term::Bytes(b.clone()))
        },
        Term::Bool(b) => {
            assert(symbols@.subrange(0, symbols@.len() as int) =~= symbols@);
            Ok(datalog::Term::Bool(*b))
        },
        Term::TermSet(_) => {
            assert(symbols@.subrange(0, symbols@.len() as int) =~= symbols@);
            Ok(datalog::Term::TermSet(Vec::new()))
        },
    }
}

/// Reads back a set member.
fn convert_leaf_from(d: &datalog::Term, symbols: &SymbolTable) -> (r: Result<Term, Error>)
    ensures
        match r {
            Ok(t) => leaf_converted(leaf_view(t), datalog::leaf_view(*d), symbols@),
            Err(e) => e is UnknownSymbol && !leaf_known(datalog::leaf_view(*d), symbols@.len()),
        },
{
    match d {
        datalog::Term::Symbol(id) => match symbols.resolve(*id) {
            Ok(s) => Ok(Term::Symbol(s)),
            Err(_) => Err(Error::UnknownSymbol(*id)),
        },
        datalog::Term::Variable(v) => match symbols.resolve(*v as u64) {
            Ok(s) => Ok(Term::Variable(s)),
            Err(_) => Err(Error::UnknownSymbol(*v as u64)),
        },
        datalog::Term::Integer(i) => Ok(Term::Integer(*i)),
        datalog::Term::Str(s) => Ok(Term::Str(s.clone())),
        datalog::Term::Date(x) => Ok(Term::Date(*x)),
        datalog::Term::Bytes(b) => Ok(Term::Bytes(b.clone())),
        datalog::Term::Bool(b) => Ok(Term::Bool(*b)),
        datalog::Term::TermSet(_) => Ok(Term::TermSet(Vec::new())),
    }
}

impl Term {
    /// Interns the names of the term into `symbols` and gives its interned
    /// form; fails only when the table reaches the range of ids.
    pub fn convert(&self, symbols: &mut SymbolTable) -> (r: Result<datalog::Term, Error>)
        requires
            old(symbols).wf(),
        ensures
            final(symbols).wf(),
            extends(old(symbols)@, final(symbols)@),
            match r {
                Ok(d) => converted(self@, d@, final(symbols)@),
                Err(e) => (e == Error::TooManySymbols && intern_all(old(symbols)@, term_names(self@)).len() >= u32::MAX)
                    || (e == Error::InvalidSet && !term_ok(self@)),
            },
            r is Ok ==> final(symbols)@ == intern_all(old(symbols)@, term_names(self@)),
            !term_ok(self@) ==> r == Err::<datalog::Term, Error>(Error::InvalidSet) && final(symbols)@ == old(symbols)@,
    {
        match self {
            Term::TermSet(ms) => {
                if !members_valid(ms) {
                    assert(symbols@.subrange(0, symbols@.len() as int) =~= symbols@);
                    return Err(Error::InvalidSet);
                }
                let ghost t0 = symbols@;
                let ghost hd = Seq::<Seq<char>>::empty();
                let ghost parts = ms@.map_values(|m: Term| leaf_view(m)).map_values(|m: NamedV| leaf_names(m));
                assert(hd + concat(parts.subrange(0, 0)) =~= Seq::<Seq<char>>::empty());
                assert(hd + concat(parts) =~= term_names(self@));
                let mut out: Vec<datalog::Term> = Vec::new();
                let mut i: usize = 0;
                assert(symbols@.subrange(0, symbols@.len() as int) =~= symbols@);
                while i < ms.len()
                    invariant
                        i <= ms.len(),
                        symbols.wf(),
                        t0 == old(symbols)@,
                        extends(t0, symbols@),
                        out@.len() == i,
                        forall|k: int| 0 <= k < i ==> leaf_converted(leaf_view(#[trigger] ms@[k]), datalog::leaf_view(out@[k]), symbols@),
                        parts == ms@.map_values(|m: Term| leaf_view(m)).map_values(|m: NamedV| leaf_names(m)),
                        term_ok(self@),
                        hd + concat(parts) == term_names(self@),
                        symbols@ == intern_all(t0, hd + concat(parts.subrange(0, i as int))),
                    decreases ms.len() - i,
                {
                    let ghost t1 = symbols@;
                    assert(parts[i as int] == leaf_names(leaf_view(ms@[i as int])));
                    let d = match convert_leaf(&ms[i], symbols) {
                        Ok(d) => d,
                        Err(e) => {
                            proof {
                                lemma_extends_trans(t0, t1, symbols@);
                                if e == Error::TooManySymbols {
                                    lemma_intern_step_fails(t0, hd, parts, Seq::empty(), i as int);
                                }
                                assert(hd + concat(parts) + Seq::<Seq<char>>::empty() =~= hd + concat(parts));
                            }
                            return Err(e);
                        },
                    };
                    proof {
                        lemma_intern_step(t0, hd, parts, i as int);
                        lemma_names_extend(t1, symbols@);
                        lemma_extends_trans(t0, t1, symbols@);
                        assert forall|k: int| 0 <= k < i implies leaf_converted(leaf_view(#[trigger] ms@[k]), datalog::leaf_view(out@[k]), symbols@) by {
                            assert(leaf_converted(leaf_view(ms@[k]), datalog::leaf_view(out@[k]), t1));
                        }
                    }
                    out.push(d);
                    i = i + 1;
                }
                assert(parts.subrange(0, i as int) =~= parts);
                let r = datalog::Term::TermSet(out);
                assert(converted(self@, r@, symbols@)) by {
                    let ns = ms@.map_values(|m: Term| leaf_view(m));
                    let ds = out@.map_values(|m: datalog::Term| datalog::leaf_view(m));
                    assert forall|k: int| 0 <= k < ns.len() implies leaf_converted(#[trigger] ns[k], ds[k], symbols@) by {
                        assert(leaf_converted(leaf_view(ms@[k]), datalog::leaf_view(out@[k]), symbols@));
                    }
                }
                Ok(r)
            },
            _ => convert_leaf(self, symbols),
        }
    }

    /// The term an interned term stands for under `symbols`; fails with the
    /// first id that has no name.
    pub fn convert_from(f: &datalog::Term, symbols: &SymbolTable) -> (r: Result<Term, Error>)
        ensures
            match r {
                Ok(t) => converted(t@, f@, symbols@),
                Err(e) => e is UnknownSymbol && !known(f@, symbols@.len()),
            },
            known(f@, symbols@.len()) ==> r is Ok,
    {
        match f {
            datalog::Term::TermSet(ms) => {
                let ghost ds = ms@.map_values(|m: datalog::Term| datalog::leaf_view(m));
                let mut out: Vec<Term> = Vec::new();
                let mut i: usize = 0;
                while i < ms.len()
                    invariant
                        i <= ms.len(),
                        ds == ms@.map_values(|m: datalog::Term| datalog::leaf_view(m)),
                        f@ == TermV::TermSet(ds),
                        out@.len() == i,
                        forall|k: int| 0 <= k < i ==> leaf_converted(leaf_view(#[trigger] out@[k]), ds[k], symbols@),
                    decreases ms.len() - i,
                {
                    let t = match convert_leaf_from(&ms[i], symbols) {
                        Ok(t) => t,
                        Err(e) => {
                            assert(ds[i as int] == datalog::leaf_view(ms@[i as int]));
                            assert(!leaf_known(ds[i as int], symbols@.len()));
                            assert(!known(f@, symbols@.len())) by {
                                if known(f@, symbols@.len()) {
                                    assert(f@->TermSet_0 == ds);
                                    assert(0 <= i < ds.len());
                                    assert(leaf_known(ds[i as int], symbols@.len()));
                                }
                            }
                            return Err(e);
                        },
                    };
                    out.push(t);
                    i = i + 1;
                }
                let r = Term::TermSet(out);
                assert(converted(r@, f@, symbols@)) by {
                    let ns = out@.map_values(|m: Term| leaf_view(m));
                    assert forall|k: int| 0 <= k < ns.len() implies leaf_converted(#[trigger] ns[k], ds[k], symbols@) by {
                        assert(leaf_converted(leaf_view(out@[k]), ds[k], symbols@));
                    }
                }
                Ok(r)
            },
            _ => convert_leaf_from(f, symbols),
        }
    }
}

/// A name applied to a list of terms.
#[derive(Debug, PartialEq, Eq, Hash)]
pub struct Predicate {
    pub name: String,
    pub ids: Vec<Term>,
}

/// The mathematical value of a builder [`Predicate`].
pub struct NamedPredV {
    pub name: Seq<char>,
    pub terms: Seq<NamedV>,
}

impl View for Predicate {
    type V = NamedPredV;

    open spec fn view(&self) -> NamedPredV {
        NamedPredV { name: self.name@, terms: self.ids@.map_values(|t: Term| t@) }
    }
}

/// The interned predicate `d` stands for `p` under `table`.
pub open spec fn pred_converted(p: NamedPredV, d: PredV, table: Seq<Seq<char>>) -> bool {
    &&& names(table, d.name as int, p.name)
    &&& p.terms.len() == d.terms.len()
    &&& forall|i: int| 0 <= i < p.terms.len() ==> converted(#[trigger] p.terms[i], d.terms[i], table)
}

/// Every id of an interned predicate is below `n`.
pub open spec fn pred_known(d: PredV, n: nat) -> bool {
    d.name < n && forall|i: int| 0 <= i < d.terms.len() ==> known(#[trigger] d.terms[i], n)
}

/// Every id of an interned instruction is below `n`.
pub open spec fn op_known(o: OpV, n: nat) -> bool {
    match o {
        OpV::Value(t) => known(t, n),
        _ => true,
    }
}

/// Every id of an interned expression is below `n`.
pub open spec fn ops_known(ops: Seq<OpV>, n: nat) -> bool {
    forall|i: int| 0 <= i < ops.len() ==> op_known(#[trigger] ops[i], n)
}

/// Every id of an interned rule is below `n`.
pub open spec fn rule_known(r: RuleV, n: nat) -> bool {
    &&& pred_known(r.head, n)
    &&& forall|i: int| 0 <= i < r.body.len() ==> pred_known(#[trigger] r.body[i], n)
    &&& forall|i: int| 0 <= i < r.expressions.len() ==> ops_known(#[trigger] r.expressions[i], n)
}

/// Every id of a list of interned rules is below `n`.
pub open spec fn rules_known(rs: Seq<RuleV>, n: nat) -> bool {
    forall|i: int| 0 <= i < rs.len() ==> rule_known(#[trigger] rs[i], n)
}

/// Predicate conversions keep holding as the table grows.
pub proof fn lemma_pred_converted_extends(p: NamedPredV, d: PredV, t0: Seq<Seq<char>>, t1: Seq<Seq<char>>)
    requires
        pred_converted(p, d, t0),
        extends(t0, t1),
    ensures
        pred_converted(p, d, t1),
{
    lemma_names_extend(t0, t1);
    assert forall|i: int| 0 <= i < p.terms.len() implies converted(#[trigger] p.terms[i], d.terms[i], t1) by {
        lemma_converted_extends(p.terms[i], d.terms[i], t0, t1);
    }
}

impl Clone for Predicate {
    fn clone(&self) -> (r: Predicate)
        ensures
            r@ == self@,
    {
        let mut ids: Vec<Term> = Vec::new();
        let mut i: usize = 0;
        while i < self.ids.len()
            invariant
                i <= self.ids.len(),
                ids@.map_values(|t: Term| t@) =~= self.ids@.subrange(0, i as int).map_values(|t: Term| t@),
            decreases self.ids.len() - i,
        {
            let t = copy_named(&self.ids[i]);
            let ghost before = ids@;
            ids.push(t);
            assert(ids@.map_values(|t: Term| t@) =~= before.map_values(|t: Term| t@).push(t@));
            assert(self.ids@.subrange(0, i + 1) =~= self.ids@.subrange(0, i as int).push(self.ids@[i as int]));
            i = i + 1;
        }
        assert(self.ids@.subrange(0, self.ids@.len() as int) =~= self.ids@);
        Predicate { name: self.name.clone(), ids }
    }
}

impl Predicate {
    /// Interns the predicate's names and gives its interned form.
    pub fn convert(&self, symbols: &mut SymbolTable) -> (r: Result<datalog::Predicate, Error>)
        requires
            old(symbols).wf(),
        ensures
            final(symbols).wf(),
            extends(old(symbols)@, final(symbols)@),
            match r {
                Ok(d) => pred_converted(self@, d@, final(symbols)@),
                Err(e) => (e == Error::TooManySymbols && intern_all(old(symbols)@, pred_names(self@)).len() >= u32::MAX)
                    || (e == Error::InvalidSet && !pred_ok(self@)),
            },
            r is Ok ==> final(symbols)@ == intern_all(old(symbols)@, pred_names(self@)),
    {
        let ghost t0 = symbols@;
        let ghost hd = seq![self.name@];
        let ghost parts = self@.terms.map_values(|t: NamedV| term_names(t));
        assert(hd + concat(parts) == pred_names(self@));
        assert(hd + concat(parts.subrange(0, 0)) =~= hd);
        proof {
            lemma_intern_one(t0, self.name@);
        }
        let name = match intern(symbols, &self.name) {
            Ok(n) => n,
            Err(e) => {
                proof {
                    if e == Error::TooManySymbols {
                        lemma_intern_overflow(t0, hd, concat(parts), u32::MAX as int);
                    }
                }
                return Err(e);
            },
        };
        let mut terms: Vec<datalog::Term> = Vec::new();
        let mut i: usize = 0;
        while i < self.ids.len()
            invariant
                i <= self.ids.len(),
                symbols.wf(),
                t0 == old(symbols)@,
                extends(t0, symbols@),
                names(symbols@, name as int, self.name@),
                terms@.len() == i,
                forall|k: int| 0 <= k < i ==> converted(#[trigger] self@.terms[k], terms@[k]@, symbols@),
                parts == self@.terms.map_values(|t: NamedV| term_names(t)),
                hd + concat(parts) == pred_names(self@),
                symbols@ == intern_all(t0, hd + concat(parts.subrange(0, i as int))),
            decreases self.ids.len() - i,
        {
            let ghost t1 = symbols@;
            assert(parts[i as int] == term_names(self.ids@[i as int]@));
            let d = match self.ids[i].convert(symbols) {
                Ok(d) => d,
                Err(e) => {
                    proof {
                        lemma_extends_trans(t0, t1, symbols@);
                        if e == Error::TooManySymbols {
                            lemma_intern_step_fails(t0, hd, parts, Seq::empty(), i as int);
                        }
                        assert(hd + concat(parts) + Seq::<Seq<char>>::empty() =~= hd + concat(parts));
                    }
                    return Err(e);
                },
            };
            proof {
                lemma_intern_step(t0, hd, parts, i as int);
                lemma_names_extend(t1, symbols@);
                lemma_extends_trans(t0, t1, symbols@);
                assert forall|k: int| 0 <= k < i implies converted(#[trigger] self@.terms[k], terms@[k]@, symbols@) by {
                    lemma_converted_extends(self@.terms[k], terms@[k]@, t1, symbols@);
                }
            }
            terms.push(d);
            i = i + 1;
        }
        assert(parts.subrange(0, i as int) =~= parts);
        let r = datalog::Predicate { name: name as u64, terms };
        assert(pred_converted(self@, r@, symbols@)) by {
            assert forall|k: int| 0 <= k < self@.terms.len() implies converted(#[trigger] self@.terms[k], r@.terms[k], symbols@) by {
                assert(r@.terms[k] == terms@[k]@);
            }
        }
        Ok(r)
    }

    /// The predicate an interned predicate stands for under `symbols`.
    pub fn convert_from(p: &datalog::Predicate, symbols: &SymbolTable) -> (r: Result<Predicate, Error>)
        ensures
            match r {
                Ok(q) => pred_converted(q@, p@, symbols@),
                Err(e) => e is UnknownSymbol && !pred_known(p@, symbols@.len()),
            },
            pred_known(p@, symbols@.len()) ==> r is Ok,
    {
        let name = match symbols.resolve(p.name) {
            Ok(s) => s,
            Err(_) => {
                return Err(Error::UnknownSymbol(p.name));
            },
        };
        let mut ids: Vec<Term> = Vec::new();
        let mut i: usize = 0;
        while i < p.terms.len()
            invariant
                i <= p.terms.len(),
                names(symbols@, p.name as int, name@),
                ids@.len() == i,
                forall|k: int| 0 <= k < i ==> converted(#[trigger] ids@[k]@, p@.terms[k], symbols@),
            decreases p.terms.len() - i,
        {
            let t = match Term::convert_from(&p.terms[i], symbols) {
                Ok(t) => t,
                Err(e) => {
                    assert(!known(p@.terms[i as int], symbols@.len()));
                    return Err(e);
                },
            };
            ids.push(t);
            i = i + 1;
        }
        let r = Predicate { name, ids };
        assert(pred_converted(r@, p@, symbols@)) by {
            assert forall|k: int| 0 <= k < r@.terms.len() implies converted(#[trigger] r@.terms[k], p@.terms[k], symbols@) by {
                assert(r@.terms[k] == ids@[k]@);
            }
        }
        Ok(r)
    }

    /// A predicate of the given name and terms.
    pub fn new(name: String, ids: &[Term]) -> (r: Predicate)
        ensures
            r.name == name,
            r@.terms == ids@.map_values(|t: Term| t@),
    {
        Predicate { name, ids: copy_terms(ids) }
    }
}

/// Copies a slice of terms.
pub fn copy_terms(ids: &[Term]) -> (r: Vec<Term>)
    ensures
        r@.map_values(|t: Term| t@) == ids@.map_values(|t: Term| t@),
{
    let mut out: Vec<Term> = Vec::new();
    let mut i: usize = 0;
    while i < ids.len()
        invariant
            i <= ids.len(),
            out@.map_values(|t: Term| t@) =~= ids@.subrange(0, i as int).map_values(|t: Term| t@),
        decreases ids.len() - i,
    {
        let t = copy_named(&ids[i]);
        let ghost before = out@;
        out.push(t);
        assert(out@.map_values(|t: Term| t@) =~= before.map_values(|t: Term| t@).push(t@));
        assert(ids@.subrange(0, i + 1) =~= ids@.subrange(0, i as int).push(ids@[i as int]));
        i = i + 1;
    }
    assert(ids@.subrange(0, ids@.len() as int) =~= ids@);
    out
}

/// A ground predicate.
#[derive(Debug, PartialEq, Eq, Hash, Clone)]
pub struct Fact(pub Predicate);

impl Fact {
    /// A fact of the given name and terms.
    pub fn new(name: String, ids: &[Term]) -> (r: Fact)
        ensures
            r.0.name == name,
            r.0@.terms == ids@.map_values(|t: Term| t@),
    {
        Fact(Predicate::new(name, ids))
    }

    /// Interns the fact's names and gives its interned predicate.
    pub fn convert(&self, symbols: &mut SymbolTable) -> (r: Result<datalog::Predicate, Error>)
        requires
            old(symbols).wf(),
        ensures
            final(symbols).wf(),
            extends(old(symbols)@, final(symbols)@),
            match r {
                Ok(d) => pred_converted(self.0@, d@, final(symbols)@),
                Err(e) => (e == Error::TooManySymbols && intern_all(old(symbols)@, pred_names(self.0@)).len() >= u32::MAX)
                    || (e == Error::InvalidSet && !pred_ok(self.0@)),
            },
            r is Ok ==> final(symbols)@ == intern_all(old(symbols)@, pred_names(self.0@)),
    {
        self.0.convert(symbols)
    }

    /// The fact an interned predicate stands for under `symbols`.
    pub fn convert_from(f: &datalog::Predicate, symbols: &SymbolTable) -> (r: Result<Fact, Error>)
        ensures
            match r {
                Ok(q) => pred_converted(q.0@, f@, symbols@),
                Err(e) => e is UnknownSymbol && !pred_known(f@, symbols@.len()),
            },
            pred_known(f@, symbols@.len()) ==> r is Ok,
    {
        match Predicate::convert_from(f, symbols) {
            Ok(p) => Ok(Fact(p)),
            Err(e) => Err(e),
        }
    }
}

/// One instruction of a postfix expression over builder terms.
#[derive(Debug, PartialEq, Eq, Hash)]
pub enum Op {
    Value(Term),
    Unary(Unary),
    Binary(Binary),
}

/// The mathematical value of a builder [`Op`].
pub enum NamedOpV {
    Value(NamedV),
    Unary(Unary),
    Binary(Binary),
}

impl View for Op {
    type V = NamedOpV;

    open spec fn view(&self) -> NamedOpV {
        match self {
            Op::Value(t) => NamedOpV::Value(t@),
            Op::Unary(u) => NamedOpV::Unary(*u),
            Op::Binary(b) => NamedOpV::Binary(*b),
        }
    }
}

/// The interned instruction `d` stands for `o` under `table`.
pub open spec fn op_converted(o: NamedOpV, d: OpV, table: Seq<Seq<char>>) -> bool {
    match o {
        NamedOpV::Value(n) => d is Value && converted(n, d->Value_0, table),
        NamedOpV::Unary(u) => d == OpV::Unary(u),
        NamedOpV::Binary(b) => d == OpV::Binary(b),
    }
}

/// Instruction lists correspond one for one.
pub open spec fn ops_converted(o: Seq<NamedOpV>, d: Seq<OpV>, table: Seq<Seq<char>>) -> bool {
    o.len() == d.len() && forall|i: int| 0 <= i < o.len() ==> op_converted(#[trigger] o[i], d[i], table)
}

/// A postfix expression over builder terms.
#[derive(Debug, PartialEq, Eq, Hash)]
pub struct Expression {
    pub ops: Vec<Op>,
}

impl View for Expression {
    type V = Seq<NamedOpV>;

    open spec fn view(&self) -> Seq<NamedOpV> {
        self.ops@.map_values(|o: Op| o@)
    }
}

/// Expression conversions keep holding as the table grows.
pub proof fn lemma_ops_converted_extends(o: Seq<NamedOpV>, d: Seq<OpV>, t0: Seq<Seq<char>>, t1: Seq<Seq<char>>)
    requires
        ops_converted(o, d, t0),
        extends(t0, t1),
    ensures
        ops_converted(o, d, t1),
{
    assert forall|i: int| 0 <= i < o.len() implies op_converted(#[trigger] o[i], d[i], t1) by {
        if o[i] is Value {
            lemma_converted_extends(o[i]->Value_0, d[i]->Value_0, t0, t1);
        }
    }
}

impl Op {
    /// Interns the instruction's names and gives its interned form.
    pub fn convert(&self, symbols: &mut SymbolTable) -> (r: Result<datalog::Op, Error>)
        requires
            old(symbols).wf(),
        ensures
            final(symbols).wf(),
            extends(old(symbols)@, final(symbols)@),
            match r {
                Ok(d) => op_converted(self@, d@, final(symbols)@),
                Err(e) => (e == Error::TooManySymbols && intern_all(old(symbols)@, op_names(self@)).len() >= u32::MAX)
                    || (e == Error::InvalidSet && !op_ok(self@)),
            },
            r is Ok ==> final(symbols)@ == intern_all(old(symbols)@, op_names(self@)),
    {
        assert(intern_all(symbols@, Seq::<Seq<char>>::empty()) == symbols@);
        match self {
            Op::Value(t) => {
                let d = t.convert(symbols)?;
                Ok(datalog::Op::Value(d))
            },
            Op::Unary(u) => {
                assert(symbols@.subrange(0, symbols@.len() as int) =~= symbols@);
                Ok(datalog::Op::Unary(*u))
            },
            Op::Binary(b) => {
                assert(symbols@.subrange(0, symbols@.len() as int) =~= symbols@);
                Ok(datalog::Op::Binary(*b))
            },
        }
    }

    /// The instruction an interned one stands for under `symbols`.
    pub fn convert_from(o: &datalog::Op, symbols: &SymbolTable) -> (r: Result<Op, Error>)
        ensures
            match r {
                Ok(q) => op_converted(q@, o@, symbols@),
                Err(e) => e is UnknownSymbol && !op_known(o@, symbols@.len()),
            },
            op_known(o@, symbols@.len()) ==> r is Ok,
    {
        match o {
            datalog::Op::Value(t) => Ok(Op::Value(Term::convert_from(t, symbols)?)),
            datalog::Op::Unary(u) => Ok(Op::Unary(*u)),
            datalog::Op::Binary(b) => Ok(Op::Binary(*b)),
        }
    }
}

impl Expression {
    /// Interns the expression's names and gives its interned form.
    pub fn convert(&self, symbols: &mut SymbolTable) -> (r: Result<datalog::Expression, Error>)
        requires
            old(symbols).wf(),
        ensures
            final(symbols).wf(),
            extends(old(symbols)@, final(symbols)@),
            match r {
                Ok(d) => ops_converted(self@, d@, final(symbols)@),
                Err(e) => (e == Error::TooManySymbols && intern_all(old(symbols)@, ops_names(self@)).len() >= u32::MAX)
                    || (e == Error::InvalidSet && !ops_ok(self@)),
            },
            r is Ok ==> final(symbols)@ == intern_all(old(symbols)@, ops_names(self@)),
    {
        let ghost t0 = symbols@;
        let ghost hd = Seq::<Seq<char>>::empty();
        let ghost tl = Seq::<Seq<char>>::empty();
        let ghost parts = self@.map_values(|o: NamedOpV| op_names(o));
        assert(hd + concat(parts) + tl =~= ops_names(self@));
        assert(hd + concat(parts.subrange(0, 0)) =~= Seq::<Seq<char>>::empty());
        let mut ops: Vec<datalog::Op> = Vec::new();
        let mut i: usize = 0;
        assert(symbols@.subrange(0, symbols@.len() as int) =~= symbols@);
        while i < self.ops.len()
            invariant
                i <= self.ops.len(),
                symbols.wf(),
                t0 == old(symbols)@,
                extends(t0, symbols@),
                ops@.len() == i,
                forall|k: int| 0 <= k < i ==> op_converted(#[trigger] self@[k], ops@[k]@, symbols@),
                parts == self@.map_values(|o: NamedOpV| op_names(o)),
                hd + concat(parts) + tl == ops_names(self@),
                symbols@ == intern_all(t0, hd + concat(parts.subrange(0, i as int))),
            decreases self.ops.len() - i,
        {
            let ghost t1 = symbols@;
            assert(parts[i as int] == op_names(self.ops@[i as int]@));
            let d = match self.ops[i].convert(symbols) {
                Ok(d) => d,
                Err(e) => {
                    proof {
                        lemma_extends_trans(t0, t1, symbols@);
                        if e == Error::TooManySymbols {
                            lemma_intern_step_fails(t0, hd, parts, tl, i as int);
                        }
                    }
                    return Err(e);
                },
            };
            proof {
                lemma_intern_step(t0, hd, parts, i as int);
                lemma_extends_trans(t0, t1, symbols@);
                let prev = Seq::new(i as nat, |k: int| self@[k]);
                let prevd = Seq::new(i as nat, |k: int| ops@[k]@);
                assert(ops_converted(prev, prevd, t1));
                lemma_ops_converted_extends(prev, prevd, t1, symbols@);
                assert forall|k: int| 0 <= k < i implies op_converted(#[trigger] self@[k], ops@[k]@, symbols@) by {
                    assert(op_converted(prev[k], prevd[k], symbols@));
                }
            }
            ops.push(d);
            i = i + 1;
        }
        assert(parts.subrange(0, i as int) =~= parts);
        assert(hd + concat(parts) =~= ops_names(self@));
        let r = datalog::Expression { ops };
        assert(ops_converted(self@, r@, symbols@)) by {
            assert forall|k: int| 0 <= k < self@.len() implies op_converted(#[trigger] self@[k], r@[k], symbols@) by {
                assert(r@[k] == ops@[k]@);
            }
        }
        Ok(r)
    }

    /// The expression an interned one stands for under `symbols`.
    pub fn convert_from(e: &datalog::Expression, symbols: &SymbolTable) -> (r: Result<Expression, Error>)
        ensures
            match r {
                Ok(q) => ops_converted(q@, e@, symbols@),
                Err(err) => err is UnknownSymbol && !ops_known(e@, symbols@.len()),
            },
            ops_known(e@, symbols@.len()) ==> r is Ok,
    {
        let mut ops: Vec<Op> = Vec::new();
        let mut i: usize = 0;
        while i < e.ops.len()
            invariant
                i <= e.ops.len(),
                ops@.len() == i,
                forall|k: int| 0 <= k < i ==> op_converted(#[trigger] ops@[k]@, e@[k], symbols@),
            decreases e.ops.len() - i,
        {
            assert(e@[i as int] == e.ops@[i as int]@);
            let o = match Op::convert_from(&e.ops[i], symbols) {
                Ok(o) => o,
                Err(err) => {
                    return Err(err);
                },
            };
            ops.push(o);
            i = i + 1;
        }
        let r = Expression { ops };
        assert(ops_converted(r@, e@, symbols@)) by {
            assert forall|k: int| 0 <= k < r@.len() implies op_converted(#[trigger] r@[k], e@[k], symbols@) by {
                assert(r@[k] == ops@[k]@);
            }
        }
        Ok(r)
    }
}

impl Clone for Op {
    fn clone(&self) -> (r: Op)
        ensures
            r@ == self@,
    {
        match self {
            Op::Value(t) => Op::Value(copy_named(t)),
            Op::Unary(u) => Op::Unary(*u),
            Op::Binary(b) => Op::Binary(*b),
        }
    }
}

impl Clone for Expression {
    fn clone(&self) -> (r: Expression)
        ensures
            r@ == self@,
    {
        let mut ops: Vec<Op> = Vec::new();
        let mut i: usize = 0;
        while i < self.ops.len()
            invariant
                i <= self.ops.len(),
                ops@.map_values(|o: Op| o@) =~= self.ops@.subrange(0, i as int).map_values(|o: Op| o@),
            decreases self.ops.len() - i,
        {
            let o = self.ops[i].clone();
            let ghost before = ops@;
            ops.push(o);
            assert(ops@.map_values(|o: Op| o@) =~= before.map_values(|o: Op| o@).push(o@));
            assert(self.ops@.subrange(0, i + 1) =~= self.ops@.subrange(0, i as int).push(self.ops@[i as int]));
            i = i + 1;
        }
        assert(self.ops@.subrange(0, self.ops@.len() as int) =~= self.ops@);
        Expression { ops }
    }
}

/// A head derived from a body of predicates, filtered by expressions.
#[derive(Debug, PartialEq, Eq, Hash)]
pub struct Rule(pub Predicate, pub Vec<Predicate>, pub Vec<Expression>);

/// The mathematical value of a builder [`Rule`].
pub struct NamedRuleV {
    pub head: NamedPredV,
    pub body: Seq<NamedPredV>,
    pub expressions: Seq<Seq<NamedOpV>>,
}

impl View for Rule {
    type V = NamedRuleV;

    open spec fn view(&self) -> NamedRuleV {
        NamedRuleV {
            head: self.0@,
            body: self.1@.map_values(|p: Predicate| p@),
            expressions: self.2@.map_values(|e: Expression| e@),
        }
    }
}

/// The interned rule `d` stands for `r` under `table`.
pub open spec fn rule_converted(r: NamedRuleV, d: RuleV, table: Seq<Seq<char>>) -> bool {
    &&& pred_converted(r.head, d.head, table)
    &&& r.body.len() == d.body.len()
    &&& forall|i: int| 0 <= i < r.body.len() ==> pred_converted(#[trigger] r.body[i], d.body[i], table)
    &&& r.expressions.len() == d.expressions.len()
    &&& forall|i: int| 0 <= i < r.expressions.len() ==> ops_converted(#[trigger] r.expressions[i], d.expressions[i], table)
}

/// Rule conversions keep holding as the table grows.
pub proof fn lemma_rule_converted_extends(r: NamedRuleV, d: RuleV, t0: Seq<Seq<char>>, t1: Seq<Seq<char>>)
    requires
        rule_converted(r, d, t0),
        extends(t0, t1),
    ensures
        rule_converted(r, d, t1),
{
    lemma_pred_converted_extends(r.head, d.head, t0, t1);
    assert forall|i: int| 0 <= i < r.body.len() implies pred_converted(#[trigger] r.body[i], d.body[i], t1) by {
        lemma_pred_converted_extends(r.body[i], d.body[i], t0, t1);
    }
    assert forall|i: int| 0 <= i < r.expressions.len() implies ops_converted(#[trigger] r.expressions[i], d.expressions[i], t1) by {
        lemma_ops_converted_extends(r.expressions[i], d.expressions[i], t0, t1);
    }
}

/// Copies a slice of predicates.
pub fn copy_preds(ps: &[Predicate]) -> (r: Vec<Predicate>)
    ensures
        r@.map_values(|p: Predicate| p@) == ps@.map_values(|p: Predicate| p@),
{
    let mut out: Vec<Predicate> = Vec::new();
    let mut i: usize = 0;
    while i < ps.len()
        invariant
            i <= ps.len(),
            out@.map_values(|p: Predicate| p@) =~= ps@.subrange(0, i as int).map_values(|p: Predicate| p@),
        decreases ps.len() - i,
    {
        let p = ps[i].clone();
        let ghost before = out@;
        out.push(p);
        assert(out@.map_values(|p: Predicate| p@) =~= before.map_values(|p: Predicate| p@).push(p@));
        assert(ps@.subrange(0, i + 1) =~= ps@.subrange(0, i as int).push(ps@[i as int]));
        i = i + 1;
    }
    assert(ps@.subrange(0, ps@.len() as int) =~= ps@);
    out
}

/// Copies a slice of expressions.
pub fn copy_expressions(es: &[Expression]) -> (r: Vec<Expression>)
    ensures
        r@.map_values(|e: Expression| e@) == es@.map_values(|e: Expression| e@),
{
    let mut out: Vec<Expression> = Vec::new();
    let mut i: usize = 0;
    while i < es.len()
        invariant
            i <= es.len(),
            out@.map_values(|e: Expression| e@) =~= es@.subrange(0, i as int).map_values(|e: Expression| e@),
        decreases es.len() - i,
    {
        let e = es[i].clone();
        let ghost before = out@;
        out.push(e);
        assert(out@.map_values(|e: Expression| e@) =~= before.map_values(|e: Expression| e@).push(e@));
        assert(es@.subrange(0, i + 1) =~= es@.subrange(0, i as int).push(es@[i as int]));
        i = i + 1;
    }
    assert(es@.subrange(0, es@.len() as int) =~= es@);
    out
}

impl Clone for Rule {
    fn clone(&self) -> (r: Rule)
        ensures
            r@ == self@,
    {
        Rule(self.0.clone(), copy_preds(self.1.as_slice()), copy_expressions(self.2.as_slice()))
    }
}

impl Rule {
    /// Interns the rule's names and gives its interned form.
    pub fn convert(&self, symbols: &mut SymbolTable) -> (r: Result<datalog::Rule, Error>)
        requires
            old(symbols).wf(),
        ensures
            final(symbols).wf(),
            extends(old(symbols)@, final(symbols)@),
            match r {
                Ok(d) => rule_converted(self@, d@, final(symbols)@),
                Err(e) => (e == Error::TooManySymbols && intern_all(old(symbols)@, rule_names(self@)).len() >= u32::MAX)
                    || (e == Error::InvalidSet && !rule_ok(self@)),
            },
            r is Ok ==> final(symbols)@ == intern_all(old(symbols)@, rule_names(self@)),
    {
        let ghost t0 = symbols@;
        let ghost hd = pred_names(self@.head);
        let ghost parts = self@.body.map_values(|p: NamedPredV| pred_names(p));
        let ghost tl = concat(self@.expressions.map_values(|e: Seq<NamedOpV>| ops_names(e)));
        let ghost hd2 = hd + concat(parts);
        let ghost parts2 = self@.expressions.map_values(|e: Seq<NamedOpV>| ops_names(e));
        let ghost tl2 = Seq::<Seq<char>>::empty();
        assert(hd + concat(parts) + tl == rule_names(self@));
        assert(hd2 + concat(parts2) + tl2 =~= rule_names(self@));
        assert(hd + concat(parts.subrange(0, 0)) =~= hd);
        assert(hd2 + concat(parts2.subrange(0, 0)) =~= hd2);
        let head = match self.0.convert(symbols) {
            Ok(h) => h,
            Err(e) => {
                proof {
                    if e == Error::TooManySymbols {
                        lemma_intern_overflow(t0, hd, concat(parts) + tl, u32::MAX as int);
                    }
                    assert(hd + (concat(parts) + tl) =~= rule_names(self@));
                }
                return Err(e);
            },
        };
        let mut body: Vec<datalog::Predicate> = Vec::new();
        let mut i: usize = 0;
        while i < self.1.len()
            invariant
                i <= self.1.len(),
                symbols.wf(),
                t0 == old(symbols)@,
                extends(t0, symbols@),
                pred_converted(self@.head, head@, symbols@),
                body@.len() == i,
                forall|k: int| 0 <= k < i ==> pred_converted(#[trigger] self@.body[k], body@[k]@, symbols@),
                parts == self@.body.map_values(|p: NamedPredV| pred_names(p)),
                hd + concat(parts) + tl == rule_names(self@),
                symbols@ == intern_all(t0, hd + concat(parts.subrange(0, i as int))),
            decreases self.1.len() - i,
        {
            let ghost t1 = symbols@;
            assert(parts[i as int] == pred_names(self.1@[i as int]@));
            let d = match self.1[i].convert(symbols) {
                Ok(d) => d,
                Err(e) => {
                    proof {
                        lemma_extends_trans(t0, t1, symbols@);
                        if e == Error::TooManySymbols {
                            lemma_intern_step_fails(t0, hd, parts, tl, i as int);
                        }
                    }
                    return Err(e);
                },
            };
            proof {
                lemma_intern_step(t0, hd, parts, i as int);
                lemma_extends_trans(t0, t1, symbols@);
                lemma_pred_converted_extends(self@.head, head@, t1, symbols@);
                assert forall|k: int| 0 <= k < i implies pred_converted(#[trigger] self@.body[k], body@[k]@, symbols@) by {
                    lemma_pred_converted_extends(self@.body[k], body@[k]@, t1, symbols@);
                }
            }
            body.push(d);
            i = i + 1;
        }
        assert(parts.subrange(0, i as int) =~= parts);
        let mut expressions: Vec<datalog::Expression> = Vec::new();
        let mut j: usize = 0;
        while j < self.2.len()
            invariant
                j <= self.2.len(),
                symbols.wf(),
                t0 == old(symbols)@,
                extends(t0, symbols@),
                pred_converted(self@.head, head@, symbols@),
                body@.len() == self.1.len(),
                forall|k: int| 0 <= k < self.1.len() ==> pred_converted(#[trigger] self@.body[k], body@[k]@, symbols@),
                expressions@.len() == j,
                forall|k: int| 0 <= k < j ==> ops_converted(#[trigger] self@.expressions[k], expressions@[k]@, symbols@),
                parts2 == self@.expressions.map_values(|e: Seq<NamedOpV>| ops_names(e)),
                hd2 + concat(parts2) + tl2 == rule_names(self@),
                symbols@ == intern_all(t0, hd2 + concat(parts2.subrange(0, j as int))),
            decreases self.2.len() - j,
        {
            let ghost t1 = symbols@;
            assert(parts2[j as int] == ops_names(self.2@[j as int]@));
            let d = match self.2[j].convert(symbols) {
                Ok(d) => d,
                Err(e) => {
                    proof {
                        lemma_extends_trans(t0, t1, symbols@);
                        if e == Error::TooManySymbols {
                            lemma_intern_step_fails(t0, hd2, parts2, tl2, j as int);
                        }
                    }
                    return Err(e);
                },
            };
            proof {
                lemma_intern_step(t0, hd2, parts2, j as int);
                lemma_extends_trans(t0, t1, symbols@);
                lemma_pred_converted_extends(self@.head, head@, t1, symbols@);
                assert forall|k: int| 0 <= k < self.1.len() implies pred_converted(#[trigger] self@.body[k], body@[k]@, symbols@) by {
                    lemma_pred_converted_extends(self@.body[k], body@[k]@, t1, symbols@);
                }
                assert forall|k: int| 0 <= k < j implies ops_converted(#[trigger] self@.expressions[k], expressions@[k]@, symbols@) by {
                    lemma_ops_converted_extends(self@.expressions[k], expressions@[k]@, t1, symbols@);
                }
            }
            expressions.push(d);
            j = j + 1;
        }
        assert(parts2.subrange(0, j as int) =~= parts2);
        assert(hd2 + concat(parts2) =~= rule_names(self@));
        let r = datalog::Rule { head, body, expressions };
        assert(rule_converted(self@, r@, symbols@)) by {
            assert forall|k: int| 0 <= k < self@.body.len() implies pred_converted(#[trigger] self@.body[k], r@.body[k], symbols@) by {
                assert(r@.body[k] == body@[k]@);
            }
            assert forall|k: int| 0 <= k < self@.expressions.len() implies ops_converted(#[trigger] self@.expressions[k], r@.expressions[k], symbols@) by {
                assert(r@.expressions[k] == expressions@[k]@);
            }
        }
        Ok(r)
    }

    /// The rule an interned one stands for under `symbols`.
    pub fn convert_from(r: &datalog::Rule, symbols: &SymbolTable) -> (out: Result<Rule, Error>)
        ensures
            match out {
                Ok(q) => rule_converted(q@, r@, symbols@),
                Err(e) => e is UnknownSymbol && !rule_known(r@, symbols@.len()),
            },
            rule_known(r@, symbols@.len()) ==> out is Ok,
    {
        let head = Predicate::convert_from(&r.head, symbols)?;
        let mut body: Vec<Predicate> = Vec::new();
        let mut i: usize = 0;
        while i < r.body.len()
            invariant
                i <= r.body.len(),
                pred_converted(head@, r@.head, symbols@),
                body@.len() == i,
                forall|k: int| 0 <= k < i ==> pred_converted(#[trigger] body@[k]@, r@.body[k], symbols@),
            decreases r.body.len() - i,
        {
            assert(r@.body[i as int] == r.body@[i as int]@);
            let p = match Predicate::convert_from(&r.body[i], symbols) {
                Ok(p) => p,
                Err(e) => {
                    return Err(e);
                },
            };
            body.push(p);
            i = i + 1;
        }
        let mut expressions: Vec<Expression> = Vec::new();
        let mut j: usize = 0;
        while j < r.expressions.len()
            invariant
                j <= r.expressions.len(),
                pred_converted(head@, r@.head, symbols@),
                body@.len() == r.body.len(),
                forall|k: int| 0 <= k < r.body.len() ==> pred_converted(#[trigger] body@[k]@, r@.body[k], symbols@),
                expressions@.len() == j,
                forall|k: int| 0 <= k < j ==> ops_converted(#[trigger] expressions@[k]@, r@.expressions[k], symbols@),
            decreases r.expressions.len() - j,
        {
            assert(r@.expressions[j as int] == r.expressions@[j as int]@);
            let e = match Expression::convert_from(&r.expressions[j], symbols) {
                Ok(e) => e,
                Err(err) => {
                    return Err(err);
                },
            };
            expressions.push(e);
            j = j + 1;
        }
        let out = Rule(head, body, expressions);
        assert(rule_converted(out@, r@, symbols@)) by {
            assert forall|k: int| 0 <= k < out@.body.len() implies pred_converted(#[trigger] out@.body[k], r@.body[k], symbols@) by {
                assert(out@.body[k] == body@[k]@);
            }
            assert forall|k: int| 0 <= k < out@.expressions.len() implies ops_converted(#[trigger] out@.expressions[k], r@.expressions[k], symbols@) by {
                assert(out@.expressions[k] == expressions@[k]@);
            }
        }
        Ok(out)
    }
}

/// Rule lists correspond one for one.
pub open spec fn rules_converted(r: Seq<NamedRuleV>, d: Seq<RuleV>, table: Seq<Seq<char>>) -> bool {
    r.len() == d.len() && forall|i: int| 0 <= i < r.len() ==> rule_converted(#[trigger] r[i], d[i], table)
}

/// Interns the names of a list of rules.
pub fn convert_rules(rs: &Vec<Rule>, symbols: &mut SymbolTable) -> (r: Result<Vec<datalog::Rule>, Error>)
    requires
        old(symbols).wf(),
    ensures
        final(symbols).wf(),
        extends(old(symbols)@, final(symbols)@),
        match r {
            Ok(d) => rules_converted(rs@.map_values(|x: Rule| x@), datalog::rules_view(d@), final(symbols)@),
            Err(e) => (e == Error::TooManySymbols && intern_all(old(symbols)@, rules_names(rs@.map_values(|x: Rule| x@))).len() >= u32::MAX)
                || (e == Error::InvalidSet && !rules_ok(rs@.map_values(|x: Rule| x@))),
        },
        r is Ok ==> final(symbols)@ == intern_all(old(symbols)@, rules_names(rs@.map_values(|x: Rule| x@))),
{
    let ghost t0 = symbols@;
    let ghost hd = Seq::<Seq<char>>::empty();
    let ghost tl = Seq::<Seq<char>>::empty();
    let ghost parts = rs@.map_values(|x: Rule| x@).map_values(|r: NamedRuleV| rule_names(r));
    assert(hd + concat(parts) + tl =~= rules_names(rs@.map_values(|x: Rule| x@)));
    assert(hd + concat(parts.subrange(0, 0)) =~= Seq::<Seq<char>>::empty());
    let ghost rv = rs@.map_values(|x: Rule| x@);
    let mut out: Vec<datalog::Rule> = Vec::new();
    let mut i: usize = 0;
    assert(symbols@.subrange(0, symbols@.len() as int) =~= symbols@);
    while i < rs.len()
        invariant
            i <= rs.len(),
            symbols.wf(),
            t0 == old(symbols)@,
            rv == rs@.map_values(|x: Rule| x@),
            extends(t0, symbols@),
            out@.len() == i,
            forall|k: int| 0 <= k < i ==> rule_converted(#[trigger] rv[k], out@[k]@, symbols@),
            parts == rs@.map_values(|x: Rule| x@).map_values(|r: NamedRuleV| rule_names(r)),
            hd + concat(parts) + tl == rules_names(rs@.map_values(|x: Rule| x@)),
            symbols@ == intern_all(t0, hd + concat(parts.subrange(0, i as int))),
        decreases rs.len() - i,
    {
        let ghost t1 = symbols@;
        assert(parts[i as int] == rule_names(rs@[i as int]@));
        let d = match rs[i].convert(symbols) {
            Ok(d) => d,
            Err(e) => {
                proof {
                    lemma_extends_trans(t0, t1, symbols@);
                    if e == Error::TooManySymbols {
                        lemma_intern_step_fails(t0, hd, parts, tl, i as int);
                    }
                }
                return Err(e);
            },
        };
        proof {
            lemma_intern_step(t0, hd, parts, i as int);
            lemma_extends_trans(t0, t1, symbols@);
            assert forall|k: int| 0 <= k < i implies rule_converted(#[trigger] rv[k], out@[k]@, symbols@) by {
                lemma_rule_converted_extends(rv[k], out@[k]@, t1, symbols@);
            }
        }
        out.push(d);
        i = i + 1;
    }
    assert(parts.subrange(0, i as int) =~= parts);
    assert(hd + concat(parts) =~= rules_names(rs@.map_values(|x: Rule| x@)));
    assert(rules_converted(rv, datalog::rules_view(out@), symbols@)) by {
        assert forall|k: int| 0 <= k < rv.len() implies rule_converted(#[trigger] rv[k], datalog::rules_view(out@)[k], symbols@) by {
            assert(datalog::rules_view(out@)[k] == out@[k]@);
        }
    }
    Ok(out)
}

/// The rules a list of interned rules stands for under `symbols`.
pub fn convert_rules_from(rs: &Vec<datalog::Rule>, symbols: &SymbolTable) -> (r: Result<Vec<Rule>, Error>)
    ensures
        match r {
            Ok(q) => rules_converted(q@.map_values(|x: Rule| x@), datalog::rules_view(rs@), symbols@),
            Err(e) => e is UnknownSymbol && !rules_known(datalog::rules_view(rs@), symbols@.len()),
        },
        rules_known(datalog::rules_view(rs@), symbols@.len()) ==> r is Ok,
{
    let mut out: Vec<Rule> = Vec::new();
    let mut i: usize = 0;
    while i < rs.len()
        invariant
            i <= rs.len(),
            out@.len() == i,
            forall|k: int| 0 <= k < i ==> rule_converted(#[trigger] out@[k]@, rs@[k]@, symbols@),
        decreases rs.len() - i,
    {
        assert(datalog::rules_view(rs@)[i as int] == rs@[i as int]@);
        let q = match Rule::convert_from(&rs[i], symbols) {
            Ok(q) => q,
            Err(e) => {
                return Err(e);
            },
        };
        out.push(q);
        i = i + 1;
    }
    let ghost ov = out@.map_values(|x: Rule| x@);
    assert(rules_converted(ov, datalog::rules_view(rs@), symbols@)) by {
        assert forall|k: int| 0 <= k < out@.len() implies rule_converted(#[trigger] ov[k], datalog::rules_view(rs@)[k], symbols@) by {
            assert(ov[k] == out@[k]@);
        }
    }
    Ok(out)
}

/// Queries combined by OR.
#[derive(Debug, PartialEq, Eq, Hash, Clone)]
pub struct Caveat {
    pub queries: Vec<Rule>,
}

impl Caveat {
    /// The queries of the caveat.
    pub open spec fn queries_view(&self) -> Seq<NamedRuleV> {
        self.queries@.map_values(|x: Rule| x@)
    }

    /// Interns the caveat's names and gives its interned form.
    pub fn convert(&self, symbols: &mut SymbolTable) -> (r: Result<datalog::Caveat, Error>)
        requires
            old(symbols).wf(),
        ensures
            final(symbols).wf(),
            extends(old(symbols)@, final(symbols)@),
            match r {
                Ok(d) => rules_converted(self.queries_view(), datalog::rules_view(d.queries@), final(symbols)@),
                Err(e) => (e == Error::TooManySymbols && intern_all(old(symbols)@, rules_names(self.queries_view())).len() >= u32::MAX)
                    || (e == Error::InvalidSet && !rules_ok(self.queries_view())),
            },
            r is Ok ==> final(symbols)@ == intern_all(old(symbols)@, rules_names(self.queries_view())),
    {
        let queries = convert_rules(&self.queries, symbols)?;
        Ok(datalog::Caveat { queries })
    }

    /// The caveat an interned one stands for under `symbols`.
    pub fn convert_from(c: &datalog::Caveat, symbols: &SymbolTable) -> (r: Result<Caveat, Error>)
        ensures
            match r {
                Ok(q) => rules_converted(q.queries_view(), datalog::rules_view(c.queries@), symbols@),
                Err(e) => e is UnknownSymbol && !rules_known(datalog::rules_view(c.queries@), symbols@.len()),
            },
            rules_known(datalog::rules_view(c.queries@), symbols@.len()) ==> r is Ok,
    {
        let queries = convert_rules_from(&c.queries, symbols)?;
        Ok(Caveat { queries })
    }
}

/// Queries combined by OR, with the decision they make when one succeeds.
#[derive(Debug, PartialEq, Eq, Hash, Clone)]
pub struct Policy {
    pub queries: Vec<Rule>,
    pub kind: PolicyKind,
}

impl Policy {
    /// The queries of the policy.
    pub open spec fn queries_view(&self) -> Seq<NamedRuleV> {
        self.queries@.map_values(|x: Rule| x@)
    }

    /// Interns the policy's names and gives its interned form.
    pub fn convert(&self, symbols: &mut SymbolTable) -> (r: Result<crate::authorizer::Policy, Error>)
        requires
            old(symbols).wf(),
        ensures
            final(symbols).wf(),
            extends(old(symbols)@, final(symbols)@),
            match r {
                Ok(d) => d.kind == self.kind && rules_converted(self.queries_view(), datalog::rules_view(d.queries@), final(symbols)@),
                Err(e) => (e == Error::TooManySymbols && intern_all(old(symbols)@, rules_names(self.queries_view())).len() >= u32::MAX)
                    || (e == Error::InvalidSet && !rules_ok(self.queries_view())),
            },
            r is Ok ==> final(symbols)@ == intern_all(old(symbols)@, rules_names(self.queries_view())),
    {
        let queries = convert_rules(&self.queries, symbols)?;
        Ok(crate::authorizer::Policy { queries, kind: self.kind })
    }
}

/// Creates a fact.
pub fn fact(name: &str, ids: &[Term]) -> (r: Fact)
    ensures
        r.0@ == (NamedPredV { name: name@, terms: ids@.map_values(|t: Term| t@) }),
{
    Fact(pred(name, ids))
}

/// Creates a predicate.
pub fn pred(name: &str, ids: &[Term]) -> (r: Predicate)
    ensures
        r@ == (NamedPredV { name: name@, terms: ids@.map_values(|t: Term| t@) }),
{
    Predicate { name: name.to_owned(), ids: copy_terms(ids) }
}

/// Creates a rule without expressions.
pub fn rule(head_name: &str, head_ids: &[Term], predicates: &[Predicate]) -> (r: Rule)
    ensures
        r@.head == (NamedPredV { name: head_name@, terms: head_ids@.map_values(|t: Term| t@) }),
        r@.body == predicates@.map_values(|p: Predicate| p@),
        r@.expressions.len() == 0,
{
    Rule(pred(head_name, head_ids), copy_preds(predicates), Vec::new())
}

/// Creates a rule filtered by expressions.
pub fn constrained_rule(
    head_name: &str,
    head_ids: &[Term],
    predicates: &[Predicate],
    expressions: &[Expression],
) -> (r: Rule)
    ensures
        r@.head == (NamedPredV { name: head_name@, terms: head_ids@.map_values(|t: Term| t@) }),
        r@.body == predicates@.map_values(|p: Predicate| p@),
        r@.expressions == expressions@.map_values(|e: Expression| e@),
{
    Rule(pred(head_name, head_ids), copy_preds(predicates), copy_expressions(expressions))
}

/// Creates an integer value.
pub fn integer(i: i64) -> (r: Term)
    ensures
        r@ == NamedV::Integer(i),
{
    Term::Integer(i)
}

/// Creates a string.
pub fn string(name: &str) -> (r: Term)
    ensures
        r@ == NamedV::Str(name@),
{
    Term::Str(name.to_owned())
}

/// Creates a symbol, interned when the block is built.
pub fn s(name: &str) -> (r: Term)
    ensures
        r@ == NamedV::Symbol(name@),
{
    Term::Symbol(name.to_owned())
}

/// Creates a symbol, interned when the block is built.
pub fn symbol(name: &str) -> (r: Term)
    ensures
        r@ == NamedV::Symbol(name@),
{
    Term::Symbol(name.to_owned())
}

/// Creates a date, in seconds since the Unix epoch.
pub fn date(seconds: u64) -> (r: Term)
    ensures
        r@ == NamedV::Date(seconds),
{
    Term::Date(seconds)
}

/// Creates a variable for a rule.
pub fn var(name: &str) -> (r: Term)
    ensures
        r@ == NamedV::Variable(name@),
{
    Term::Variable(name.to_owned())
}

/// Creates a variable for a rule.
pub fn variable(name: &str) -> (r: Term)
    ensures
        r@ == NamedV::Variable(name@),
{
    Term::Variable(name.to_owned())
}

/// Creates a byte array.
pub fn bytes(s: &[u8]) -> (r: Term)
    ensures
        r@ == NamedV::Bytes(s@),
{
    let mut v: Vec<u8> = Vec::new();
    let mut i: usize = 0;
    while i < s.len()
        invariant
            i <= s.len(),
            v@ == s@.subrange(0, i as int),
        decreases s.len() - i,
    {
        v.push(s[i]);
        assert(s@.subrange(0, i + 1) =~= s@.subrange(0, i as int).push(s@[i as int]));
        i = i + 1;
    }
    assert(s@.subrange(0, s@.len() as int) =~= s@);
    Term::Bytes(v)
}

/// Creates a boolean.
pub fn boolean(b: bool) -> (r: Term)
    ensures
        r@ == NamedV::Bool(b),
{
    Term::Bool(b)
}

/// Members of a set hold no variable and no set, and share one variant.
pub open spec fn valid_members(ms: Seq<NamedV>) -> bool {
    &&& forall|i: int| 0 <= i < ms.len() ==> !(#[trigger] ms[i] is Variable) && !(ms[i] is TermSet)
    &&& forall|i: int| 0 <= i < ms.len() ==> (#[trigger] ms[i]).tag() == ms[0].tag()
}

/// Lexicographic order on sequences of integers.
pub open spec fn lex_lt(a: Seq<int>, b: Seq<int>) -> bool
    decreases a.len(),
{
    if a.len() == 0 {
        b.len() > 0
    } else if b.len() == 0 {
        false
    } else if a[0] < b[0] {
        true
    } else if a[0] > b[0] {
        false
    } else {
        lex_lt(a.drop_first(), b.drop_first())
    }
}

/// The code points of a text.
pub open spec fn chars_key(s: Seq<char>) -> Seq<int> {
    s.map_values(|ch: char| ch as int)
}

/// The values of a byte string.
pub open spec fn bytes_key(b: Seq<u8>) -> Seq<int> {
    b.map_values(|x: u8| x as int)
}

/// The order of set members: by variant, then by value (texts and byte
/// strings lexicographically, `false` before `true`).
pub open spec fn named_lt(a: NamedV, b: NamedV) -> bool {
    if a.tag() != b.tag() {
        a.tag() < b.tag()
    } else {
        match (a, b) {
            (NamedV::Symbol(x), NamedV::Symbol(y)) => lex_lt(chars_key(x), chars_key(y)),
            (NamedV::Variable(x), NamedV::Variable(y)) => lex_lt(chars_key(x), chars_key(y)),
            (NamedV::Integer(x), NamedV::Integer(y)) => x < y,
            (NamedV::Str(x), NamedV::Str(y)) => lex_lt(chars_key(x), chars_key(y)),
            (NamedV::Date(x), NamedV::Date(y)) => x < y,
            (NamedV::Bytes(x), NamedV::Bytes(y)) => lex_lt(bytes_key(x), bytes_key(y)),
            (NamedV::Bool(x), NamedV::Bool(y)) => !x && y,
            _ => false,
        }
    }
}

/// Members in strictly increasing order: sorted, each once.
pub open spec fn strictly_sorted(ms: Seq<NamedV>) -> bool {
    forall|i: int, j: int| 0 <= i < j < ms.len() ==> named_lt(#[trigger] ms[i], #[trigger] ms[j])
}

/// The members of a set as it is kept: valid, sorted and each once.
pub open spec fn canonical_members(ms: Seq<NamedV>) -> bool {
    valid_members(ms) && strictly_sorted(ms)
}

/// The sorted members, each once, of a list.
pub open spec fn sorted_members(ms: Seq<NamedV>) -> Seq<NamedV> {
    choose|out: Seq<NamedV>| strictly_sorted(out) && out.to_set() == ms.to_set()
}

proof fn lemma_lex_irrefl(a: Seq<int>)
    ensures
        !lex_lt(a, a),
    decreases a.len(),
{
    if a.len() > 0 {
        lemma_lex_irrefl(a.drop_first());
    }
}

proof fn lemma_lex_trans(a: Seq<int>, b: Seq<int>, c: Seq<int>)
    requires
        lex_lt(a, b),
        lex_lt(b, c),
    ensures
        lex_lt(a, c),
    decreases a.len(),
{
    if a.len() > 0 && b.len() > 0 && c.len() > 0 && a[0] == b[0] && b[0] == c[0] {
        lemma_lex_trans(a.drop_first(), b.drop_first(), c.drop_first());
    }
}

proof fn lemma_lex_total(a: Seq<int>, b: Seq<int>)
    requires
        a != b,
    ensures
        lex_lt(a, b) || lex_lt(b, a),
    decreases a.len(),
{
    if a.len() > 0 && b.len() > 0 && a[0] == b[0] {
        if a.drop_first() == b.drop_first() {
            assert(a =~= seq![a[0]] + a.drop_first());
            assert(b =~= seq![b[0]] + b.drop_first());
        }
        lemma_lex_total(a.drop_first(), b.drop_first());
    }
    if a.len() == 0 && b.len() == 0 {
        assert(a =~= b);
    }
}

proof fn lemma_chars_key_injective(x: Seq<char>, y: Seq<char>)
    requires
        chars_key(x) == chars_key(y),
    ensures
        x == y,
{
    assert(x.len() == chars_key(x).len());
    assert(y.len() == chars_key(y).len());
    assert forall|i: int| 0 <= i < x.len() implies x[i] == y[i] by {
        assert(chars_key(x)[i] == x[i] as int);
        assert(chars_key(y)[i] == y[i] as int);
        assert(chars_key(x)[i] == chars_key(y)[i]);
    }
    assert(x =~= y);
}

proof fn lemma_bytes_key_injective(x: Seq<u8>, y: Seq<u8>)
    requires
        bytes_key(x) == bytes_key(y),
    ensures
        x == y,
{
    assert(x.len() == bytes_key(x).len());
    assert(y.len() == bytes_key(y).len());
    assert forall|i: int| 0 <= i < x.len() implies x[i] == y[i] by {
        assert(bytes_key(x)[i] == x[i] as int);
        assert(bytes_key(y)[i] == y[i] as int);
        assert(bytes_key(x)[i] == bytes_key(y)[i]);
    }
    assert(x =~= y);
}

/// The member order is irreflexive.
pub proof fn lemma_named_irrefl(a: NamedV)
    ensures
        !named_lt(a, a),
{
    match a {
        NamedV::Symbol(x) => lemma_lex_irrefl(chars_key(x)),
        NamedV::Variable(x) => lemma_lex_irrefl(chars_key(x)),
        NamedV::Str(x) => lemma_lex_irrefl(chars_key(x)),
        NamedV::Bytes(x) => lemma_lex_irrefl(bytes_key(x)),
        _ => {},
    }
}

/// The member order is transitive.
pub proof fn lemma_named_trans(a: NamedV, b: NamedV, c: NamedV)
    requires
        named_lt(a, b),
        named_lt(b, c),
    ensures
        named_lt(a, c),
{
    if a.tag() == b.tag() && b.tag() == c.tag() {
        match (a, b, c) {
            (NamedV::Symbol(x), NamedV::Symbol(y), NamedV::Symbol(z)) => lemma_lex_trans(chars_key(x), chars_key(y), chars_key(z)),
            (NamedV::Variable(x), NamedV::Variable(y), NamedV::Variable(z)) => lemma_lex_trans(chars_key(x), chars_key(y), chars_key(z)),
            (NamedV::Str(x), NamedV::Str(y), NamedV::Str(z)) => lemma_lex_trans(chars_key(x), chars_key(y), chars_key(z)),
            (NamedV::Bytes(x), NamedV::Bytes(y), NamedV::Bytes(z)) => lemma_lex_trans(bytes_key(x), bytes_key(y), bytes_key(z)),
            _ => {},
        }
    }
}

/// Two distinct members that are not sets are ordered one way or the other.
pub proof fn lemma_named_total(a: NamedV, b: NamedV)
    requires
        a != b,
        !(a is TermSet),
        !(b is TermSet),
    ensures
        named_lt(a, b) || named_lt(b, a),
{
    if a.tag() == b.tag() {
        match (a, b) {
            (NamedV::Symbol(x), NamedV::Symbol(y)) => {
                if chars_key(x) == chars_key(y) { lemma_chars_key_injective(x, y); } else { lemma_lex_total(chars_key(x), chars_key(y)); }
            },
            (NamedV::Variable(x), NamedV::Variable(y)) => {
                if chars_key(x) == chars_key(y) { lemma_chars_key_injective(x, y); } else { lemma_lex_total(chars_key(x), chars_key(y)); }
            },
            (NamedV::Str(x), NamedV::Str(y)) => {
                if chars_key(x) == chars_key(y) { lemma_chars_key_injective(x, y); } else { lemma_lex_total(chars_key(x), chars_key(y)); }
            },
            (NamedV::Bytes(x), NamedV::Bytes(y)) => {
                if bytes_key(x) == bytes_key(y) { lemma_bytes_key_injective(x, y); } else { lemma_lex_total(bytes_key(x), bytes_key(y)); }
            },
            _ => {},
        }
    }
}

/// Two strictly sorted lists with the same members are equal.
proof fn lemma_sorted_unique(a: Seq<NamedV>, b: Seq<NamedV>)
    requires
        strictly_sorted(a),
        strictly_sorted(b),
        a.to_set() == b.to_set(),
    ensures
        a == b,
    decreases a.len(),
{
    if a.len() == 0 {
        if b.len() > 0 {
            assert(b.to_set().contains(b[0]));
        }
        assert(a =~= b);
    } else {
        if b.len() == 0 {
            assert(a.to_set().contains(a[0]));
        }
        assert(b.to_set().contains(a[0]));
        let k = choose|k: int| 0 <= k < b.len() && b[k] == a[0];
        assert(a.to_set().contains(b[0]));
        let j = choose|j: int| 0 <= j < a.len() && a[j] == b[0];
        if k > 0 && j > 0 {
            assert(named_lt(b[0], b[k]));
            assert(named_lt(a[0], a[j]));
            lemma_named_trans(a[0], b[0], a[0]);
            lemma_named_irrefl(a[0]);
        } else if k > 0 {
            assert(j == 0);
            assert(named_lt(b[0], b[k]));
            lemma_named_irrefl(a[0]);
        } else if j > 0 {
            assert(named_lt(a[0], a[j]));
            lemma_named_irrefl(a[0]);
        }
        assert(a[0] == b[0]);
        let ra = a.drop_first();
        let rb = b.drop_first();
        assert(strictly_sorted(ra)) by {
            assert forall|i: int, l: int| 0 <= i < l < ra.len() implies named_lt(#[trigger] ra[i], #[trigger] ra[l]) by {
                assert(named_lt(a[i + 1], a[l + 1]));
            }
        }
        assert(strictly_sorted(rb)) by {
            assert forall|i: int, l: int| 0 <= i < l < rb.len() implies named_lt(#[trigger] rb[i], #[trigger] rb[l]) by {
                assert(named_lt(b[i + 1], b[l + 1]));
            }
        }
        assert(ra.to_set() =~= rb.to_set()) by {
            assert forall|x: NamedV| ra.to_set().contains(x) implies rb.to_set().contains(x) by {
                let i = choose|i: int| 0 <= i < ra.len() && ra[i] == x;
                assert(named_lt(a[0], a[i + 1]));
                lemma_named_irrefl(x);
                assert(a.to_set().contains(x));
                let l = choose|l: int| 0 <= l < b.len() && b[l] == x;
                assert(l != 0);
                assert(rb[l - 1] == x);
            }
            assert forall|x: NamedV| rb.to_set().contains(x) implies ra.to_set().contains(x) by {
                let i = choose|i: int| 0 <= i < rb.len() && rb[i] == x;
                assert(named_lt(b[0], b[i + 1]));
                lemma_named_irrefl(x);
                assert(b.to_set().contains(x));
                let l = choose|l: int| 0 <= l < a.len() && a[l] == x;
                assert(l != 0);
                assert(ra[l - 1] == x);
            }
        }
        lemma_sorted_unique(ra, rb);
        assert(a =~= seq![a[0]] + ra);
        assert(b =~= seq![b[0]] + rb);
    }
}

/// Inserting between smaller and larger members keeps a list sorted.
proof fn lemma_insert_sorted(ms: Seq<NamedV>, k: int, x: NamedV)
    requires
        strictly_sorted(ms),
        0 <= k <= ms.len(),
        forall|j: int| 0 <= j < k ==> named_lt(#[trigger] ms[j], x),
        k < ms.len() ==> named_lt(x, ms[k]),
    ensures
        strictly_sorted(ms.insert(k, x)),
{
    let n = ms.insert(k, x);
    assert forall|i: int, j: int| 0 <= i < j < n.len() implies named_lt(#[trigger] n[i], #[trigger] n[j]) by {
        if j < k {
            assert(n[i] == ms[i] && n[j] == ms[j]);
        } else if j == k {
            assert(n[i] == ms[i]);
        } else if i > k {
            assert(n[i] == ms[i - 1] && n[j] == ms[j - 1]);
        } else if i == k {
            assert(n[j] == ms[j - 1]);
            if j - 1 > k {
                assert(named_lt(ms[k], ms[j - 1]));
                lemma_named_trans(x, ms[k], ms[j - 1]);
            }
        } else {
            assert(n[i] == ms[i] && n[j] == ms[j - 1]);
        }
    }
}

/// Compares two texts lexicographically by code point.
fn text_lt(a: &String, b: &String) -> (r: bool)
    ensures
        r == lex_lt(chars_key(a@), chars_key(b@)),
{
    let x = crate::text::chars_of(a.as_str());
    let y = crate::text::chars_of(b.as_str());
    let ghost ka = chars_key(a@);
    let ghost kb = chars_key(b@);
    let mut i: usize = 0;
    assert(ka.skip(0) =~= ka && kb.skip(0) =~= kb);
    while i < x.len() && i < y.len()
        invariant
            x@ == a@,
            y@ == b@,
            ka == chars_key(a@),
            kb == chars_key(b@),
            i <= x.len() && i <= y.len(),
            lex_lt(ka, kb) == lex_lt(ka.skip(i as int), kb.skip(i as int)),
        decreases x.len() - i,
    {
        assert(ka.skip(i as int)[0] == x@[i as int] as int);
        assert(kb.skip(i as int)[0] == y@[i as int] as int);
        if x[i] < y[i] {
            return true;
        }
        if x[i] > y[i] {
            return false;
        }
        assert(ka.skip(i as int).drop_first() =~= ka.skip(i + 1));
        assert(kb.skip(i as int).drop_first() =~= kb.skip(i + 1));
        i = i + 1;
    }
    i < y.len()
}

/// Compares two byte strings lexicographically.
fn bytes_lt(a: &Vec<u8>, b: &Vec<u8>) -> (r: bool)
    ensures
        r == lex_lt(bytes_key(a@), bytes_key(b@)),
{
    let ghost ka = bytes_key(a@);
    let ghost kb = bytes_key(b@);
    let mut i: usize = 0;
    assert(ka.skip(0) =~= ka && kb.skip(0) =~= kb);
    while i < a.len() && i < b.len()
        invariant
            ka == bytes_key(a@),
            kb == bytes_key(b@),
            i <= a.len() && i <= b.len(),
            lex_lt(ka, kb) == lex_lt(ka.skip(i as int), kb.skip(i as int)),
        decreases a.len() - i,
    {
        assert(ka.skip(i as int)[0] == a@[i as int] as int);
        assert(kb.skip(i as int)[0] == b@[i as int] as int);
        if a[i] < b[i] {
            return true;
        }
        if a[i] > b[i] {
            return false;
        }
        assert(ka.skip(i as int).drop_first() =~= ka.skip(i + 1));
        assert(kb.skip(i as int).drop_first() =~= kb.skip(i + 1));
        i = i + 1;
    }
    i < b.len()
}

/// Decides [`named_lt`] for two terms read as set members.
pub fn member_lt(a: &Term, b: &Term) -> (r: bool)
    ensures
        r == named_lt(leaf_view(*a), leaf_view(*b)),
{
    let ta = tag(a);
    let tb = tag(b);
    proof {
        assert(a@.tag() == leaf_view(*a).tag());
        assert(b@.tag() == leaf_view(*b).tag());
    }
    if ta != tb {
        return ta < tb;
    }
    match (a, b) {
        (Term::Symbol(x), Term::Symbol(y)) => text_lt(x, y),
        (Term::Variable(x), Term::Variable(y)) => text_lt(x, y),
        (Term::Integer(x), Term::Integer(y)) => *x < *y,
        (Term::Str(x), Term::Str(y)) => text_lt(x, y),
        (Term::Date(x), Term::Date(y)) => *x < *y,
        (Term::Bytes(x), Term::Bytes(y)) => bytes_lt(x, y),
        (Term::Bool(x), Term::Bool(y)) => !*x && *y,
        _ => false,
    }
}

/// Creates a set: its members sorted, each once; a set that mixes variants,
/// or holds a variable or a set, is refused.
pub fn set(members: Vec<Term>) -> (r: Result<Term, Error>)
    ensures
        valid_members(members@.map_values(|t: Term| t@)) ==> (r matches Ok(t) && t@ == NamedV::TermSet(
            sorted_members(members@.map_values(|t: Term| t@)),
        )),
        r matches Ok(t) ==> t@ is TermSet && canonical_members(t@->TermSet_0)
            && t@->TermSet_0.to_set() == members@.map_values(|t: Term| t@).to_set(),
        !valid_members(members@.map_values(|t: Term| t@)) ==> r == Err::<Term, Error>(Error::InvalidSet),
{
    let ghost mv = members@.map_values(|t: Term| t@);
    let mut i: usize = 0;
    while i < members.len()
        invariant
            i <= members.len(),
            mv == members@.map_values(|t: Term| t@),
            forall|k: int| 0 <= k < i ==> !(#[trigger] mv[k] is Variable) && !(mv[k] is TermSet) && mv[k].tag() == mv[0].tag(),
        decreases members.len() - i,
    {
        let bad = match &members[i] {
            Term::Variable(_) => true,
            Term::TermSet(_) => true,
            _ => tag(&members[i]) != tag(&members[0]),
        };
        if bad {
            assert(!valid_members(mv)) by {
                assert(mv[i as int] is Variable || mv[i as int] is TermSet || mv[i as int].tag() != mv[0].tag());
            }
            return Err(Error::InvalidSet);
        }
        i = i + 1;
    }
    assert(valid_members(mv));
    let mut out: Vec<Term> = Vec::new();
    let mut i: usize = 0;
    assert(mv.subrange(0, 0).to_set() =~= Set::<NamedV>::empty());
    assert(out@.map_values(|t: Term| leaf_view(t)).to_set() =~= Set::<NamedV>::empty());
    while i < members.len()
        invariant
            i <= members.len(),
            mv == members@.map_values(|t: Term| t@),
            valid_members(mv),
            strictly_sorted(out@.map_values(|t: Term| leaf_view(t))),
            out@.map_values(|t: Term| leaf_view(t)).to_set() == mv.subrange(0, i as int).to_set(),
        decreases members.len() - i,
    {
        let ghost ov = out@.map_values(|t: Term| leaf_view(t));
        let m = &members[i];
        let ghost x = mv[i as int];
        assert(x == leaf_view(*m)) by {
            assert(!(mv[i as int] is TermSet));
        }
        assert(mv.subrange(0, i + 1) =~= mv.subrange(0, i as int) + seq![x]);
        proof {
            Seq::<NamedV>::lemma_to_set_insert_commutes(mv.subrange(0, i as int), x);
        }
        let mut k: usize = 0;
        while k < out.len() && member_lt(&out[k], m)
            invariant
                k <= out.len(),
                ov == out@.map_values(|t: Term| leaf_view(t)),
                x == leaf_view(*m),
                forall|j: int| 0 <= j < k ==> named_lt(#[trigger] ov[j], x),
            decreases out.len() - k,
        {
            k = k + 1;
        }
        if k < out.len() && !member_lt(m, &out[k]) {
            proof {
                assert(!named_lt(ov[k as int], x));
                assert(ov[k as int] == leaf_view(out@[k as int]));
                assert(!(ov[k as int] is TermSet)) by {
                    assert(ov.to_set().contains(ov[k as int]));
                    assert(mv.subrange(0, i as int).to_set().contains(ov[k as int]));
                    let j = choose|j: int| 0 <= j < i && mv.subrange(0, i as int)[j] == ov[k as int];
                    assert(mv[j] == ov[k as int]);
                }
                if ov[k as int] != x {
                    lemma_named_total(ov[k as int], x);
                }
                assert(ov[k as int] == x);
                assert(ov.to_set().contains(x));
                assert(mv.subrange(0, i + 1).to_set() =~= mv.subrange(0, i as int).to_set().insert(x));
                assert(mv.subrange(0, i as int).to_set().insert(x) =~= mv.subrange(0, i as int).to_set());
            }
        } else {
            let c = copy_leaf(m);
            out.insert(k, c);
            proof {
                assert(out@.map_values(|t: Term| leaf_view(t)) =~= ov.insert(k as int, x));
                if k < ov.len() {
                    assert(named_lt(x, ov[k as int]));
                }
                lemma_insert_sorted(ov, k as int, x);
                assert(ov.insert(k as int, x).to_set() =~= ov.to_set().insert(x)) by {
                    assert forall|y: NamedV| ov.insert(k as int, x).to_set().contains(y) <==> ov.to_set().insert(x).contains(y) by {
                        if ov.insert(k as int, x).to_set().contains(y) {
                            let j = choose|j: int| 0 <= j < ov.len() + 1 && ov.insert(k as int, x)[j] == y;
                            if j < k { assert(ov[j] == y); } else if j > k { assert(ov[j - 1] == y); }
                        }
                        if ov.to_set().contains(y) {
                            let j = choose|j: int| 0 <= j < ov.len() && ov[j] == y;
                            if j < k { assert(ov.insert(k as int, x)[j] == y); } else { assert(ov.insert(k as int, x)[j + 1] == y); }
                        }
                        if y == x {
                            assert(ov.insert(k as int, x)[k as int] == x);
                        }
                    }
                }
                assert(mv.subrange(0, i + 1).to_set() =~= mv.subrange(0, i as int).to_set().insert(x));
            }
        }
        i = i + 1;
    }
    let ghost ov = out@.map_values(|t: Term| leaf_view(t));
    assert(mv.subrange(0, i as int) =~= mv);
    proof {
        let chosen = sorted_members(mv);
        assert(strictly_sorted(chosen) && chosen.to_set() == mv.to_set());
        lemma_sorted_unique(ov, chosen);
        assert(valid_members(ov)) by {
            assert forall|j: int| 0 <= j < ov.len() implies !(#[trigger] ov[j] is Variable) && !(ov[j] is TermSet) && ov[j].tag() == ov[0].tag() by {
                assert(ov.to_set().contains(ov[j]));
                let a = choose|a: int| 0 <= a < mv.len() && mv[a] == ov[j];
                assert(ov.to_set().contains(ov[0]));
                let b = choose|b: int| 0 <= b < mv.len() && mv[b] == ov[0];
            }
        }
    }
    Ok(Term::TermSet(out))
}

/// The variant number of a term.
fn tag(t: &Term) -> (r: u8)
    ensures
        r == t@.tag(),
{
    match t {
        Term::Symbol(_) => 0,
        Term::Variable(_) => 1,
        Term::Integer(_) => 2,
        Term::Str(_) => 3,
        Term::Date(_) => 4,
        Term::Bytes(_) => 5,
        Term::Bool(_) => 6,
        Term::TermSet(_) => 7,
    }
}

/// Rule list conversions keep holding as the table grows.
pub proof fn lemma_rules_converted_extends(r: Seq<NamedRuleV>, d: Seq<RuleV>, t0: Seq<Seq<char>>, t1: Seq<Seq<char>>)
    requires
        rules_converted(r, d, t0),
        extends(t0, t1),
    ensures
        rules_converted(r, d, t1),
{
    assert forall|i: int| 0 <= i < r.len() implies rule_converted(#[trigger] r[i], d[i], t1) by {
        lemma_rule_converted_extends(r[i], d[i], t0, t1);
    }
}

/// Facts correspond one for one with interned predicates.
pub open spec fn facts_converted(fs: Seq<Fact>, ds: Seq<datalog::Predicate>, table: Seq<Seq<char>>) -> bool {
    fs.len() == ds.len() && forall|i: int| 0 <= i < fs.len() ==> pred_converted((#[trigger] fs[i]).0@, ds[i]@, table)
}

/// Caveats correspond one for one with interned caveats.
pub open spec fn caveats_converted(cs: Seq<Caveat>, ds: Seq<datalog::Caveat>, table: Seq<Seq<char>>) -> bool {
    cs.len() == ds.len() && forall|i: int| 0 <= i < cs.len() ==> rules_converted(
        (#[trigger] cs[i]).queries_view(),
        datalog::rules_view(ds[i].queries@),
        table,
    )
}

/// Interns the names of a list of facts.
pub fn convert_facts(fs: &Vec<Fact>, symbols: &mut SymbolTable) -> (r: Result<Vec<datalog::Predicate>, Error>)
    requires
        old(symbols).wf(),
    ensures
        final(symbols).wf(),
        extends(old(symbols)@, final(symbols)@),
        match r {
            Ok(d) => facts_converted(fs@, d@, final(symbols)@),
            Err(e) => (e == Error::TooManySymbols && intern_all(old(symbols)@, facts_names(fs@)).len() >= u32::MAX)
                || (e == Error::InvalidSet && !facts_ok(fs@)),
        },
        r is Ok ==> final(symbols)@ == intern_all(old(symbols)@, facts_names(fs@)),
{
    let ghost t0 = symbols@;
    let ghost hd = Seq::<Seq<char>>::empty();
    let ghost tl = Seq::<Seq<char>>::empty();
    let ghost parts = fs@.map_values(|f: Fact| pred_names(f.0@));
    assert(hd + concat(parts) + tl =~= facts_names(fs@));
    assert(hd + concat(parts.subrange(0, 0)) =~= Seq::<Seq<char>>::empty());
    let mut out: Vec<datalog::Predicate> = Vec::new();
    let mut i: usize = 0;
    assert(symbols@.subrange(0, symbols@.len() as int) =~= symbols@);
    while i < fs.len()
        invariant
            i <= fs.len(),
            symbols.wf(),
            t0 == old(symbols)@,
            extends(t0, symbols@),
            out@.len() == i,
            forall|k: int| 0 <= k < i ==> pred_converted((#[trigger] fs@[k]).0@, out@[k]@, symbols@),
            parts == fs@.map_values(|f: Fact| pred_names(f.0@)),
            hd + concat(parts) + tl == facts_names(fs@),
            symbols@ == intern_all(t0, hd + concat(parts.subrange(0, i as int))),
        decreases fs.len() - i,
    {
        let ghost t1 = symbols@;
        assert(parts[i as int] == pred_names(fs@[i as int].0@));
        let d = match fs[i].convert(symbols) {
            Ok(d) => d,
            Err(e) => {
                proof {
                    lemma_extends_trans(t0, t1, symbols@);
                    if e == Error::TooManySymbols {
                        lemma_intern_step_fails(t0, hd, parts, tl, i as int);
                    }
                }
                return Err(e);
            },
        };
        proof {
            lemma_intern_step(t0, hd, parts, i as int);
            lemma_extends_trans(t0, t1, symbols@);
            assert forall|k: int| 0 <= k < i implies pred_converted((#[trigger] fs@[k]).0@, out@[k]@, symbols@) by {
                lemma_pred_converted_extends(fs@[k].0@, out@[k]@, t1, symbols@);
            }
        }
        out.push(d);
        i = i + 1;
    }
    assert(parts.subrange(0, i as int) =~= parts);
    assert(hd + concat(parts) =~= facts_names(fs@));
    Ok(out)
}

/// Interns the names of a list of caveats.
pub fn convert_caveats(cs: &Vec<Caveat>, symbols: &mut SymbolTable) -> (r: Result<Vec<datalog::Caveat>, Error>)
    requires
        old(symbols).wf(),
    ensures
        final(symbols).wf(),
        extends(old(symbols)@, final(symbols)@),
        match r {
            Ok(d) => caveats_converted(cs@, d@, final(symbols)@),
            Err(e) => (e == Error::TooManySymbols && intern_all(old(symbols)@, caveats_names(cs@)).len() >= u32::MAX)
                || (e == Error::InvalidSet && !caveats_ok(cs@)),
        },
        r is Ok ==> final(symbols)@ == intern_all(old(symbols)@, caveats_names(cs@)),
{
    let ghost t0 = symbols@;
    let ghost hd = Seq::<Seq<char>>::empty();
    let ghost tl = Seq::<Seq<char>>::empty();
    let ghost parts = cs@.map_values(|c: Caveat| rules_names(c.queries_view()));
    assert(hd + concat(parts) + tl =~= caveats_names(cs@));
    assert(hd + concat(parts.subrange(0, 0)) =~= Seq::<Seq<char>>::empty());
    let mut out: Vec<datalog::Caveat> = Vec::new();
    let mut i: usize = 0;
    assert(symbols@.subrange(0, symbols@.len() as int) =~= symbols@);
    while i < cs.len()
        invariant
            i <= cs.len(),
            symbols.wf(),
            t0 == old(symbols)@,
            extends(t0, symbols@),
            out@.len() == i,
            forall|k: int| 0 <= k < i ==> rules_converted((#[trigger] cs@[k]).queries_view(), datalog::rules_view(out@[k].queries@), symbols@),
            parts == cs@.map_values(|c: Caveat| rules_names(c.queries_view())),
            hd + concat(parts) + tl == caveats_names(cs@),
            symbols@ == intern_all(t0, hd + concat(parts.subrange(0, i as int))),
        decreases cs.len() - i,
    {
        let ghost t1 = symbols@;
        assert(parts[i as int] == rules_names(cs@[i as int].queries_view()));
        let d = match cs[i].convert(symbols) {
            Ok(d) => d,
            Err(e) => {
                proof {
                    lemma_extends_trans(t0, t1, symbols@);
                    if e == Error::TooManySymbols {
                        lemma_intern_step_fails(t0, hd, parts, tl, i as int);
                    }
                }
                return Err(e);
            },
        };
        proof {
            lemma_intern_step(t0, hd, parts, i as int);
            lemma_extends_trans(t0, t1, symbols@);
            assert forall|k: int| 0 <= k < i implies rules_converted((#[trigger] cs@[k]).queries_view(), datalog::rules_view(out@[k].queries@), symbols@) by {
                lemma_rules_converted_extends(cs@[k].queries_view(), datalog::rules_view(out@[k].queries@), t1, symbols@);
            }
        }
        out.push(d);
        i = i + 1;
    }
    assert(parts.subrange(0, i as int) =~= parts);
    assert(hd + concat(parts) =~= caveats_names(cs@));
    Ok(out)
}

/// The parts of a block before its names are interned.
#[derive(Clone, Debug)]
pub struct BlockBuilder {
    pub index: u32,
    pub facts: Vec<Fact>,
    pub rules: Vec<Rule>,
    pub caveats: Vec<Caveat>,
    pub context: Option<String>,
}

/// `check if resource(#ambient, $resource_name), operation(#ambient, #right),
/// right(#authority, $resource_name, #right)`.
pub open spec fn right_query(right: Seq<char>) -> NamedRuleV {
    NamedRuleV {
        head: NamedPredV { name: "check_right"@, terms: seq![NamedV::Symbol(right)] },
        body: seq![
            NamedPredV { name: "resource"@, terms: seq![NamedV::Symbol("ambient"@), NamedV::Variable("resource_name"@)] },
            NamedPredV { name: "operation"@, terms: seq![NamedV::Symbol("ambient"@), NamedV::Symbol(right)] },
            NamedPredV { name: "right"@, terms: seq![NamedV::Symbol("authority"@), NamedV::Variable("resource_name"@), NamedV::Symbol(right)] },
        ],
        expressions: seq![],
    }
}

/// `check if resource(#ambient, "resource")`.
pub open spec fn resource_query(resource: Seq<char>) -> NamedRuleV {
    NamedRuleV {
        head: NamedPredV { name: "resource_check"@, terms: seq![NamedV::Symbol("resource_check"@)] },
        body: seq![NamedPredV { name: "resource"@, terms: seq![NamedV::Symbol("ambient"@), NamedV::Str(resource)] }],
        expressions: seq![],
    }
}

/// `check if operation(#ambient, #operation)`.
pub open spec fn operation_query(operation: Seq<char>) -> NamedRuleV {
    NamedRuleV {
        head: NamedPredV { name: "operation_check"@, terms: seq![NamedV::Symbol("operation_check"@)] },
        body: seq![NamedPredV { name: "operation"@, terms: seq![NamedV::Symbol("ambient"@), NamedV::Symbol(operation)] }],
        expressions: seq![],
    }
}

/// `check if resource(#ambient, $resource), $resource <op> "affix"`.
pub open spec fn affix_query(head: Seq<char>, affix: Seq<char>, op: Binary) -> NamedRuleV {
    NamedRuleV {
        head: NamedPredV { name: head, terms: seq![NamedV::Variable("resource"@)] },
        body: seq![NamedPredV { name: "resource"@, terms: seq![NamedV::Symbol("ambient"@), NamedV::Variable("resource"@)] }],
        expressions: seq![seq![NamedOpV::Value(NamedV::Variable("resource"@)), NamedOpV::Value(NamedV::Str(affix)), NamedOpV::Binary(op)]],
    }
}

/// `check if time(#ambient, $date), $date <= expiration`.
pub open spec fn expiration_query(seconds: u64) -> NamedRuleV {
    NamedRuleV {
        head: NamedPredV { name: "expiration"@, terms: seq![NamedV::Variable("date"@)] },
        body: seq![NamedPredV { name: "time"@, terms: seq![NamedV::Symbol("ambient"@), NamedV::Variable("date"@)] }],
        expressions: seq![seq![NamedOpV::Value(NamedV::Variable("date"@)), NamedOpV::Value(NamedV::Date(seconds)), NamedOpV::Binary(Binary::LessOrEqual)]],
    }
}

/// A caveat of one query.
fn single_query(r: Rule) -> (c: Caveat)
    ensures
        c.queries_view() == seq![r@],
{
    let mut queries: Vec<Rule> = Vec::new();
    queries.push(r);
    assert(queries@.map_values(|x: Rule| x@) =~= seq![r@]);
    Caveat { queries }
}

/// A one-expression list of three instructions.
fn binary_expression(left: Term, right: Term, op: Binary) -> (r: Vec<Expression>)
    ensures
        r@.map_values(|e: Expression| e@) == seq![seq![NamedOpV::Value(left@), NamedOpV::Value(right@), NamedOpV::Binary(op)]],
{
    let mut ops: Vec<Op> = Vec::new();
    ops.push(Op::Value(left));
    ops.push(Op::Value(right));
    ops.push(Op::Binary(op));
    let e = Expression { ops };
    assert(e@ =~= seq![NamedOpV::Value(left@), NamedOpV::Value(right@), NamedOpV::Binary(op)]);
    let mut r: Vec<Expression> = Vec::new();
    r.push(e);
    assert(r@.map_values(|e: Expression| e@) =~= seq![e@]);
    r
}

impl BlockBuilder {
    /// An empty block for position `index`.
    pub fn new(index: u32) -> (r: BlockBuilder)
        ensures
            r.index == index,
            r.facts@.len() == 0,
            r.rules@.len() == 0,
            r.caveats@.len() == 0,
            r.context is None,
    {
        BlockBuilder { index, facts: Vec::new(), rules: Vec::new(), caveats: Vec::new(), context: None }
    }

    /// Adds a fact.
    pub fn add_fact(&mut self, fact: Fact)
        ensures
            final(self).facts@ == old(self).facts@.push(fact),
            final(self).rules == old(self).rules,
            final(self).caveats == old(self).caveats,
            final(self).index == old(self).index,
            final(self).context == old(self).context,
    {
        self.facts.push(fact);
    }

    /// Adds a rule.
    pub fn add_rule(&mut self, rule: Rule)
        ensures
            final(self).rules@ == old(self).rules@.push(rule),
            final(self).facts == old(self).facts,
            final(self).caveats == old(self).caveats,
            final(self).index == old(self).index,
            final(self).context == old(self).context,
    {
        self.rules.push(rule);
    }

    /// Adds a caveat.
    pub fn add_caveat(&mut self, caveat: Caveat)
        ensures
            final(self).caveats@ == old(self).caveats@.push(caveat),
            final(self).facts == old(self).facts,
            final(self).rules == old(self).rules,
            final(self).index == old(self).index,
            final(self).context == old(self).context,
    {
        self.caveats.push(caveat);
    }

    /// Sets the free-form context.
    pub fn set_context(&mut self, context: String)
        ensures
            final(self).context == Some(context),
            final(self).facts == old(self).facts,
            final(self).rules == old(self).rules,
            final(self).caveats == old(self).caveats,
            final(self).index == old(self).index,
    {
        self.context = Some(context);
    }

    /// Interns the block's names after those of `symbols` and gives the
    /// block, which holds the names it introduced.
    pub fn build(self, symbols: SymbolTable) -> (r: Result<Block, Error>)
        requires
            symbols.wf(),
        ensures
            match r {
                Ok(b) => {
                    &&& b.index == self.index
                    &&& b.context == self.context
                    &&& b.version == MAX_SCHEMA_VERSION
                    &&& facts_converted(self.facts@, b.facts@, symbols@ + b.symbols@)
                    &&& rules_converted(self.rules@.map_values(|x: Rule| x@), datalog::rules_view(b.rules@), symbols@ + b.symbols@)
                    &&& caveats_converted(self.caveats@, b.caveats@, symbols@ + b.symbols@)
                    &&& symbols@ + b.symbols@ == intern_all(symbols@, block_names(self))
                    &&& (symbols@ + b.symbols@).no_duplicates()
                },
                Err(e) => (e == Error::TooManySymbols && intern_all(symbols@, block_names(self)).len() >= u32::MAX)
                    || (e == Error::InvalidSet && !block_ok(self)),
            },
            intern_all(symbols@, block_names(self)).len() < u32::MAX && block_ok(self) ==> r is Ok,
    {
        let mut symbols = symbols;
        let ghost t0 = symbols@;
        let ghost fa = facts_names(self.facts@);
        let ghost ru = rules_names(self.rules@.map_values(|x: Rule| x@));
        let ghost ca = caveats_names(self.caveats@);
        assert(block_names(self) == fa + ru + ca);
        let start = symbols.len();
        let facts = match convert_facts(&self.facts, &mut symbols) {
            Ok(f) => f,
            Err(e) => {
                proof {
                    if e == Error::TooManySymbols {
                        lemma_intern_overflow(t0, fa, ru + ca, u32::MAX as int);
                    }
                    assert(fa + (ru + ca) =~= fa + ru + ca);
                }
                return Err(e);
            },
        };
        let ghost t1 = symbols@;
        let rules = match convert_rules(&self.rules, &mut symbols) {
            Ok(r) => r,
            Err(e) => {
                proof {
                    lemma_intern_append(t0, fa, ru);
                    if e == Error::TooManySymbols {
                        lemma_intern_overflow(t0, fa + ru, ca, u32::MAX as int);
                    }
                }
                return Err(e);
            },
        };
        let ghost t2 = symbols@;
        proof {
            lemma_intern_append(t0, fa, ru);
        }
        let caveats = match convert_caveats(&self.caveats, &mut symbols) {
            Ok(c) => c,
            Err(e) => {
                proof {
                    lemma_intern_append(t0, fa + ru, ca);
                }
                return Err(e);
            },
        };
        let ghost t3 = symbols@;
        proof {
            lemma_intern_append(t0, fa + ru, ca);
            assert(t0.no_duplicates()) by {
                assert forall|a: int, b: int| 0 <= a < t0.len() && 0 <= b < t0.len() && a != b implies t0[a] != t0[b] by {
                    assert(t0[a] != t0[b]);
                }
            }
            lemma_intern_distinct(t0, fa + ru + ca);
            lemma_extends_trans(t0, t1, t2);
            lemma_extends_trans(t0, t2, t3);
            lemma_extends_trans(t1, t2, t3);
            assert forall|k: int| 0 <= k < self.facts@.len() implies pred_converted((#[trigger] self.facts@[k]).0@, facts@[k]@, t3) by {
                lemma_pred_converted_extends(self.facts@[k].0@, facts@[k]@, t1, t3);
            }
            lemma_rules_converted_extends(self.rules@.map_values(|x: Rule| x@), datalog::rules_view(rules@), t2, t3);
        }
        let new_symbols = symbols.split_off(start);
        assert(t0 + new_symbols@ =~= t3);
        Ok(Block {
            index: self.index,
            symbols: new_symbols,
            facts,
            rules,
            caveats,
            context: self.context,
            version: MAX_SCHEMA_VERSION,
        })
    }

    /// Adds a caveat that the ambient operation on the ambient resource is
    /// granted by a matching right of the authority.
    pub fn check_right(&mut self, right: &str)
        ensures
            final(self).index == old(self).index,
            final(self).context == old(self).context,
            final(self).caveats@.len() == old(self).caveats@.len() + 1,
            final(self).caveats@.drop_last() == old(self).caveats@,
            final(self).caveats@.last().queries_view() == seq![right_query(right@)],
            final(self).facts == old(self).facts,
            final(self).rules == old(self).rules,
    {
        let mut body: Vec<Predicate> = Vec::new();
        body.push(pred("resource", &[s("ambient"), var("resource_name")]));
        body.push(pred("operation", &[s("ambient"), s(right)]));
        body.push(pred("right", &[s("authority"), var("resource_name"), s(right)]));
        let r = rule("check_right", &[s(right)], body.as_slice());
        assert(r@ =~= right_query(right@)) by {
            assert(r@.head.terms =~= seq![NamedV::Symbol(right@)]);
            assert(body@.map_values(|p: Predicate| p@)[0].terms =~= seq![NamedV::Symbol("ambient"@), NamedV::Variable("resource_name"@)]);
            assert(body@.map_values(|p: Predicate| p@)[1].terms =~= seq![NamedV::Symbol("ambient"@), NamedV::Symbol(right@)]);
            assert(body@.map_values(|p: Predicate| p@)[2].terms =~= seq![NamedV::Symbol("authority"@), NamedV::Variable("resource_name"@), NamedV::Symbol(right@)]);
            assert(r@.body =~= right_query(right@).body);
            assert(r@.expressions =~= right_query(right@).expressions);
        }
        self.caveats.push(single_query(r));
        assert(self.caveats@.drop_last() =~= old(self).caveats@);
    }

    /// Adds a caveat that the ambient resource is `resource`.
    pub fn check_resource(&mut self, resource: &str)
        ensures
            final(self).index == old(self).index,
            final(self).context == old(self).context,
            final(self).caveats@.len() == old(self).caveats@.len() + 1,
            final(self).caveats@.drop_last() == old(self).caveats@,
            final(self).caveats@.last().queries_view() == seq![resource_query(resource@)],
            final(self).facts == old(self).facts,
            final(self).rules == old(self).rules,
    {
        let mut body: Vec<Predicate> = Vec::new();
        body.push(pred("resource", &[s("ambient"), string(resource)]));
        let r = rule("resource_check", &[s("resource_check")], body.as_slice());
        assert(r@ =~= resource_query(resource@)) by {
            assert(r@.head.terms =~= seq![NamedV::Symbol("resource_check"@)]);
            assert(body@.map_values(|p: Predicate| p@)[0].terms =~= seq![NamedV::Symbol("ambient"@), NamedV::Str(resource@)]);
            assert(r@.body =~= resource_query(resource@).body);
            assert(r@.expressions =~= resource_query(resource@).expressions);
        }
        self.caveats.push(single_query(r));
        assert(self.caveats@.drop_last() =~= old(self).caveats@);
    }

    /// Adds a caveat that the ambient operation is `operation`.
    pub fn check_operation(&mut self, operation: &str)
        ensures
            final(self).index == old(self).index,
            final(self).context == old(self).context,
            final(self).caveats@.len() == old(self).caveats@.len() + 1,
            final(self).caveats@.drop_last() == old(self).caveats@,
            final(self).caveats@.last().queries_view() == seq![operation_query(operation@)],
            final(self).facts == old(self).facts,
            final(self).rules == old(self).rules,
    {
        let mut body: Vec<Predicate> = Vec::new();
        body.push(pred("operation", &[s("ambient"), s(operation)]));
        let r = rule("operation_check", &[s("operation_check")], body.as_slice());
        assert(r@ =~= operation_query(operation@)) by {
            assert(r@.head.terms =~= seq![NamedV::Symbol("operation_check"@)]);
            assert(body@.map_values(|p: Predicate| p@)[0].terms =~= seq![NamedV::Symbol("ambient"@), NamedV::Symbol(operation@)]);
            assert(r@.body =~= operation_query(operation@).body);
            assert(r@.expressions =~= operation_query(operation@).expressions);
        }
        self.caveats.push(single_query(r));
        assert(self.caveats@.drop_last() =~= old(self).caveats@);
    }

    /// Adds a caveat on the ambient resource with a string operator.
    fn affix_caveat(&mut self, head: &str, affix: &str, op: Binary)
        ensures
            final(self).index == old(self).index,
            final(self).context == old(self).context,
            final(self).caveats@.len() == old(self).caveats@.len() + 1,
            final(self).caveats@.drop_last() == old(self).caveats@,
            final(self).caveats@.last().queries_view() == seq![affix_query(head@, affix@, op)],
            final(self).facts == old(self).facts,
            final(self).rules == old(self).rules,
    {
        let mut body: Vec<Predicate> = Vec::new();
        body.push(pred("resource", &[s("ambient"), var("resource")]));
        let exprs = binary_expression(var("resource"), string(affix), op);
        let r = constrained_rule(head, &[var("resource")], body.as_slice(), exprs.as_slice());
        assert(r@ =~= affix_query(head@, affix@, op)) by {
            assert(r@.head.terms =~= seq![NamedV::Variable("resource"@)]);
            assert(body@.map_values(|p: Predicate| p@)[0].terms =~= seq![NamedV::Symbol("ambient"@), NamedV::Variable("resource"@)]);
            assert(r@.body =~= affix_query(head@, affix@, op).body);
        }
        self.caveats.push(single_query(r));
        assert(self.caveats@.drop_last() =~= old(self).caveats@);
    }

    /// Adds a caveat that the ambient resource starts with `prefix`.
    pub fn resource_prefix(&mut self, prefix: &str)
        ensures
            final(self).index == old(self).index,
            final(self).context == old(self).context,
            final(self).caveats@.len() == old(self).caveats@.len() + 1,
            final(self).caveats@.drop_last() == old(self).caveats@,
            final(self).caveats@.last().queries_view() == seq![affix_query("prefix"@, prefix@, Binary::Prefix)],
            final(self).facts == old(self).facts,
            final(self).rules == old(self).rules,
    {
        self.affix_caveat("prefix", prefix, Binary::Prefix);
    }

    /// Adds a caveat that the ambient resource ends with `suffix`.
    pub fn resource_suffix(&mut self, suffix: &str)
        ensures
            final(self).index == old(self).index,
            final(self).context == old(self).context,
            final(self).caveats@.len() == old(self).caveats@.len() + 1,
            final(self).caveats@.drop_last() == old(self).caveats@,
            final(self).caveats@.last().queries_view() == seq![affix_query("suffix"@, suffix@, Binary::Suffix)],
            final(self).facts == old(self).facts,
            final(self).rules == old(self).rules,
    {
        self.affix_caveat("suffix", suffix, Binary::Suffix);
    }

    /// Adds a caveat that the ambient time is at most `seconds` after the
    /// Unix epoch.
    pub fn expiration_date(&mut self, seconds: u64)
        ensures
            final(self).index == old(self).index,
            final(self).context == old(self).context,
            final(self).caveats@.len() == old(self).caveats@.len() + 1,
            final(self).caveats@.drop_last() == old(self).caveats@,
            final(self).caveats@.last().queries_view() == seq![expiration_query(seconds)],
            final(self).facts == old(self).facts,
            final(self).rules == old(self).rules,
    {
        let mut body: Vec<Predicate> = Vec::new();
        body.push(pred("time", &[s("ambient"), var("date")]));
        let exprs = binary_expression(var("date"), date(seconds), Binary::LessOrEqual);
        let r = constrained_rule("expiration", &[var("date")], body.as_slice(), exprs.as_slice());
        assert(r@ =~= expiration_query(seconds)) by {
            assert(r@.head.terms =~= seq![NamedV::Variable("date"@)]);
            assert(body@.map_values(|p: Predicate| p@)[0].terms =~= seq![NamedV::Symbol("ambient"@), NamedV::Variable("date"@)]);
            assert(r@.body =~= expiration_query(seconds).body);
        }
        self.caveats.push(single_query(r));
        assert(self.caveats@.drop_last() =~= old(self).caveats@);
    }

    /// Adds the fact `revocation_id(id)`.
    pub fn revocation_id(&mut self, id: i64)
        ensures
            final(self).index == old(self).index,
            final(self).context == old(self).context,
            final(self).facts@.len() == old(self).facts@.len() + 1,
            final(self).facts@.drop_last() == old(self).facts@,
            final(self).facts@.last().0@ == (NamedPredV { name: "revocation_id"@, terms: seq![NamedV::Integer(id)] }),
            final(self).caveats == old(self).caveats,
            final(self).rules == old(self).rules,
    {
        let f = fact("revocation_id", &[integer(id)]);
        assert(f.0@.terms =~= seq![NamedV::Integer(id)]);
        self.facts.push(f);
        assert(self.facts@.drop_last() =~= old(self).facts@);
    }
}

/// The authority block of a new token, built with its names interned into
/// a table shared with the base names.
#[derive(Clone, Debug)]
pub struct BiscuitBuilder {
    pub symbols_start: usize,
    pub symbols: SymbolTable,
    pub facts: Vec<datalog::Predicate>,
    pub rules: Vec<datalog::Rule>,
    pub caveats: Vec<datalog::Caveat>,
    pub context: Option<String>,
}

impl BiscuitBuilder {
    /// The table is well formed and holds the base names.
    pub open spec fn wf(&self) -> bool {
        self.symbols.wf() && self.symbols_start <= self.symbols@.len()
    }

    /// Decides [`BiscuitBuilder::wf`].
    pub fn is_well_formed(&self) -> (r: bool)
        ensures
            r == self.wf(),
    {
        self.symbols.is_well_formed() && self.symbols_start <= self.symbols.len()
    }

    /// A builder whose new names come after `base_symbols`.
    pub fn new(base_symbols: SymbolTable) -> (r: BiscuitBuilder)
        requires
            base_symbols.wf(),
        ensures
            r.wf(),
            r.symbols_start == base_symbols@.len(),
            r.symbols@ == base_symbols@,
            r.facts@.len() == 0,
            r.rules@.len() == 0,
            r.caveats@.len() == 0,
            r.context is None,
    {
        BiscuitBuilder {
            symbols_start: base_symbols.len(),
            symbols: base_symbols,
            facts: Vec::new(),
            rules: Vec::new(),
            caveats: Vec::new(),
            context: None,
        }
    }

    /// Interns a fact's names and adds it to the authority block.
    pub fn add_authority_fact(&mut self, fact: Fact) -> (r: Result<(), Error>)
        requires
            old(self).wf(),
        ensures
            final(self).wf(),
            final(self).rules == old(self).rules,
            final(self).caveats == old(self).caveats,
            final(self).context == old(self).context,
            final(self).symbols_start == old(self).symbols_start,
            extends(old(self).symbols@, final(self).symbols@),
            match r {
                Ok(()) => final(self).facts@.len() == old(self).facts@.len() + 1
                    && final(self).facts@.drop_last() == old(self).facts@
                    && pred_converted(fact.0@, final(self).facts@.last()@, final(self).symbols@),
                Err(e) => final(self).facts == old(self).facts && (
                    (e == Error::TooManySymbols && intern_all(old(self).symbols@, pred_names(fact.0@)).len() >= u32::MAX)
                    || (e == Error::InvalidSet && !pred_ok(fact.0@))),
            },
            r is Ok ==> final(self).symbols@ == intern_all(old(self).symbols@, pred_names(fact.0@)),
            intern_all(old(self).symbols@, pred_names(fact.0@)).len() < u32::MAX && pred_ok(fact.0@) ==> r is Ok,
    {
        let f = fact.convert(&mut self.symbols)?;
        self.facts.push(f);
        assert(self.facts@.drop_last() =~= old(self).facts@);
        Ok(())
    }

    /// Interns a rule's names and adds it to the authority block.
    pub fn add_authority_rule(&mut self, rule: Rule) -> (r: Result<(), Error>)
        requires
            old(self).wf(),
        ensures
            final(self).wf(),
            final(self).facts == old(self).facts,
            final(self).caveats == old(self).caveats,
            final(self).context == old(self).context,
            final(self).symbols_start == old(self).symbols_start,
            extends(old(self).symbols@, final(self).symbols@),
            match r {
                Ok(()) => final(self).rules@.len() == old(self).rules@.len() + 1
                    && final(self).rules@.drop_last() == old(self).rules@
                    && rule_converted(rule@, final(self).rules@.last()@, final(self).symbols@),
                Err(e) => final(self).rules == old(self).rules && (
                    (e == Error::TooManySymbols && intern_all(old(self).symbols@, rule_names(rule@)).len() >= u32::MAX)
                    || (e == Error::InvalidSet && !rule_ok(rule@))),
            },
            r is Ok ==> final(self).symbols@ == intern_all(old(self).symbols@, rule_names(rule@)),
            intern_all(old(self).symbols@, rule_names(rule@)).len() < u32::MAX && rule_ok(rule@) ==> r is Ok,
    {
        let d = rule.convert(&mut self.symbols)?;
        self.rules.push(d);
        assert(self.rules@.drop_last() =~= old(self).rules@);
        Ok(())
    }

    /// Interns a rule's names and adds it as a caveat of one query.
    pub fn add_authority_caveat(&mut self, rule: Rule) -> (r: Result<(), Error>)
        requires
            old(self).wf(),
        ensures
            final(self).wf(),
            final(self).facts == old(self).facts,
            final(self).rules == old(self).rules,
            final(self).context == old(self).context,
            final(self).symbols_start == old(self).symbols_start,
            extends(old(self).symbols@, final(self).symbols@),
            match r {
                Ok(()) => final(self).caveats@.len() == old(self).caveats@.len() + 1
                    && final(self).caveats@.drop_last() == old(self).caveats@
                    && final(self).caveats@.last().queries@.len() == 1
                    && rule_converted(rule@, final(self).caveats@.last().queries@[0]@, final(self).symbols@),
                Err(e) => final(self).caveats == old(self).caveats && (
                    (e == Error::TooManySymbols && intern_all(old(self).symbols@, rule_names(rule@)).len() >= u32::MAX)
                    || (e == Error::InvalidSet && !rule_ok(rule@))),
            },
            r is Ok ==> final(self).symbols@ == intern_all(old(self).symbols@, rule_names(rule@)),
            intern_all(old(self).symbols@, rule_names(rule@)).len() < u32::MAX && rule_ok(rule@) ==> r is Ok,
    {
        let d = rule.convert(&mut self.symbols)?;
        let mut queries: Vec<datalog::Rule> = Vec::new();
        queries.push(d);
        self.caveats.push(datalog::Caveat { queries });
        assert(self.caveats@.drop_last() =~= old(self).caveats@);
        Ok(())
    }

    /// Adds the fact `right(#authority, "resource", #right)`; a table that
    /// is full leaves the builder as it was.
    pub fn add_right(&mut self, resource: &str, right: &str)
        requires
            old(self).wf(),
        ensures
            final(self).wf(),
            final(self).rules == old(self).rules,
            final(self).caveats == old(self).caveats,
            final(self).context == old(self).context,
            final(self).facts@.len() >= old(self).facts@.len(),
            final(self).facts@.subrange(0, old(self).facts@.len() as int) == old(self).facts@,
            final(self).symbols_start == old(self).symbols_start,
            extends(old(self).symbols@, final(self).symbols@),
            final(self).facts@.len() <= old(self).facts@.len() + 1,
            old(self).symbols@.len() + 4 < u32::MAX ==> final(self).facts@.len() == old(self).facts@.len() + 1,
            final(self).facts@.len() == old(self).facts@.len() + 1 ==> pred_converted(
                NamedPredV { name: "right"@, terms: seq![NamedV::Symbol("authority"@), NamedV::Str(resource@), NamedV::Symbol(right@)] },
                final(self).facts@.last()@,
                final(self).symbols@,
            ),
    {
        let f = fact("right", &[s("authority"), string(resource), s(right)]);
        assert(f.0@.terms =~= seq![NamedV::Symbol("authority"@), NamedV::Str(resource@), NamedV::Symbol(right@)]);
        proof {
            let parts = f.0@.terms.map_values(|t: NamedV| term_names(t));
            assert(parts =~= seq![seq!["authority"@], Seq::<Seq<char>>::empty(), seq![right@]]);
            let p1 = parts.drop_last().drop_last();
            assert(p1 =~= seq![seq!["authority"@]]);
            assert(p1.drop_last() =~= Seq::<Seq<Seq<char>>>::empty());
            assert(concat(p1.drop_last()) == Seq::<Seq<char>>::empty());
            assert(concat(p1) == concat(p1.drop_last()) + p1.last());
            assert(parts.drop_last() =~= seq![seq!["authority"@], Seq::<Seq<char>>::empty()]);
            assert(concat(p1).len() == 1);
            assert(concat(parts.drop_last()).len() == 1);
            assert(concat(parts).len() == 2);
            assert(pred_names(f.0@).len() == 3);
            assert(pred_ok(f.0@));
            lemma_intern_grows(old(self).symbols@, pred_names(f.0@));
        }
        let _ = self.add_authority_fact(f);
    }

    /// Sets the free-form context of the authority block.
    pub fn set_context(&mut self, context: String)
        ensures
            final(self).context == Some(context),
            final(self).symbols == old(self).symbols,
            final(self).symbols_start == old(self).symbols_start,
            final(self).facts == old(self).facts,
            final(self).rules == old(self).rules,
            final(self).caveats == old(self).caveats,
    {
        self.context = Some(context);
    }

    /// Issues the token: the authority block, holding the names added after
    /// the base ones, signed by `root_secret` over its encoding and the public
    /// key of `next_secret`.
    pub fn build(self, root_secret: &[u8; 32], next_secret: [u8; 32]) -> (r: Result<Biscuit, Error>)
        requires
            self.wf(),
        ensures
            r matches Ok(t) && t.blocks@.len() == 1 && t.blocks@[0].index == 0
                && t.blocks@[0].symbols@ == self.symbols@.subrange(self.symbols_start as int, self.symbols@.len() as int)
                && t.blocks@[0].facts == self.facts && t.blocks@[0].rules == self.rules
                && t.blocks@[0].caveats == self.caveats && t.blocks@[0].context == self.context
                && t.root_key@ == public_key_of(root_secret@)
                && t.blocks@[0].version == MAX_SCHEMA_VERSION
                && t.signed@.len() == 1
                && t.signed@[0].content@ == block_enc(t.blocks@[0])
                && t.signed@[0].next_key@ == public_key_of(next_secret@)
                && t.signed@[0].signature@ == signature_by(root_secret@, block_enc(t.blocks@[0]) + public_key_of(next_secret@))
                && t.ending == Proof::NextSecret(next_secret),
    {
        let mut symbols = self.symbols;
        let new_symbols = symbols.split_off(self.symbols_start);
        let block = Block {
            index: 0,
            symbols: new_symbols,
            facts: self.facts,
            rules: self.rules,
            caveats: self.caveats,
            context: self.context,
            version: MAX_SCHEMA_VERSION,
        };
        Biscuit::new(root_secret, next_secret, block)
    }
}

/// Conditions on an integer variable.
#[derive(Clone, Debug, PartialEq, Eq)]
pub enum IntConstraint {
    Lower(i64),
    Larger(i64),
    LowerOrEqual(i64),
    LargerOrEqual(i64),
    Equal(i64),
    In(Vec<i64>),
    NotIn(Vec<i64>),
}

/// Conditions on a string variable.
#[derive(Clone, Debug, PartialEq, Eq)]
pub enum StrConstraint {
    Prefix(String),
    Suffix(String),
    Equal(String),
    Regex(String),
    In(Vec<String>),
    NotIn(Vec<String>),
}

/// Conditions on a date variable, in seconds since the Unix epoch.
#[derive(Clone, Debug, PartialEq, Eq)]
pub enum DateConstraint {
    Before(u64),
    After(u64),
}

/// Conditions on a symbol variable.
#[derive(Clone, Debug, PartialEq, Eq)]
pub enum SymbolConstraint {
    In(Vec<String>),
    NotIn(Vec<String>),
}

/// Conditions on a byte-string variable.
#[derive(Clone, Debug, PartialEq, Eq)]
pub enum BytesConstraint {
    Equal(Vec<u8>),
    In(Vec<Vec<u8>>),
    NotIn(Vec<Vec<u8>>),
}

/// A condition on a variable, by the type of its value.
#[derive(Clone, Debug, PartialEq, Eq)]
pub enum ConstraintKind {
    Integer(IntConstraint),
    String(StrConstraint),
    Date(DateConstraint),
    Symbol(SymbolConstraint),
    Bytes(BytesConstraint),
}

/// A condition on the variable named `id`: the expression `$id <op> value`.
#[derive(Clone, Debug, PartialEq, Eq)]
pub struct Constraint {
    pub id: String,
    pub kind: ConstraintKind,
}

/// The set of integers of a list.
pub open spec fn int_set(v: Seq<i64>) -> NamedV {
    NamedV::TermSet(v.map_values(|i: i64| NamedV::Integer(i)))
}

/// The set of strings of a list.
pub open spec fn str_set(v: Seq<String>) -> NamedV {
    NamedV::TermSet(v.map_values(|s: String| NamedV::Str(s@)))
}

/// The set of symbols of a list.
pub open spec fn symbol_set(v: Seq<String>) -> NamedV {
    NamedV::TermSet(v.map_values(|s: String| NamedV::Symbol(s@)))
}

/// The set of byte strings of a list.
pub open spec fn bytes_set(v: Seq<Vec<u8>>) -> NamedV {
    NamedV::TermSet(v.map_values(|b: Vec<u8>| NamedV::Bytes(b@)))
}

/// The value a constraint compares its variable with.
pub open spec fn kind_operand(k: ConstraintKind) -> NamedV {
    match k {
        ConstraintKind::Integer(c) => match c {
            IntConstraint::Lower(i) => NamedV::Integer(i),
            IntConstraint::Larger(i) => NamedV::Integer(i),
            IntConstraint::LowerOrEqual(i) => NamedV::Integer(i),
            IntConstraint::LargerOrEqual(i) => NamedV::Integer(i),
            IntConstraint::Equal(i) => NamedV::Integer(i),
            IntConstraint::In(v) => int_set(v@),
            IntConstraint::NotIn(v) => int_set(v@),
        },
        ConstraintKind::String(c) => match c {
            StrConstraint::Prefix(s) => NamedV::Str(s@),
            StrConstraint::Suffix(s) => NamedV::Str(s@),
            StrConstraint::Equal(s) => NamedV::Str(s@),
            StrConstraint::Regex(s) => NamedV::Str(s@),
            StrConstraint::In(v) => str_set(v@),
            StrConstraint::NotIn(v) => str_set(v@),
        },
        ConstraintKind::Date(c) => match c {
            DateConstraint::Before(d) => NamedV::Date(d),
            DateConstraint::After(d) => NamedV::Date(d),
        },
        ConstraintKind::Symbol(c) => match c {
            SymbolConstraint::In(v) => symbol_set(v@),
            SymbolConstraint::NotIn(v) => symbol_set(v@),
        },
        ConstraintKind::Bytes(c) => match c {
            BytesConstraint::Equal(b) => NamedV::Bytes(b@),
            BytesConstraint::In(v) => bytes_set(v@),
            BytesConstraint::NotIn(v) => bytes_set(v@),
        },
    }
}

/// The operator a constraint compares with.
pub open spec fn kind_op(k: ConstraintKind) -> Binary {
    match k {
        ConstraintKind::Integer(c) => match c {
            IntConstraint::Lower(_) => Binary::LessThan,
            IntConstraint::Larger(_) => Binary::GreaterThan,
            IntConstraint::LowerOrEqual(_) => Binary::LessOrEqual,
            IntConstraint::LargerOrEqual(_) => Binary::GreaterOrEqual,
            IntConstraint::Equal(_) => Binary::Equal,
            IntConstraint::In(_) => Binary::In,
            IntConstraint::NotIn(_) => Binary::NotIn,
        },
        ConstraintKind::String(c) => match c {
            StrConstraint::Prefix(_) => Binary::Prefix,
            StrConstraint::Suffix(_) => Binary::Suffix,
            StrConstraint::Equal(_) => Binary::Equal,
            StrConstraint::Regex(_) => Binary::Regex,
            StrConstraint::In(_) => Binary::In,
            StrConstraint::NotIn(_) => Binary::NotIn,
        },
        ConstraintKind::Date(c) => match c {
            DateConstraint::Before(_) => Binary::LessOrEqual,
            DateConstraint::After(_) => Binary::GreaterOrEqual,
        },
        ConstraintKind::Symbol(c) => match c {
            SymbolConstraint::In(_) => Binary::In,
            SymbolConstraint::NotIn(_) => Binary::NotIn,
        },
        ConstraintKind::Bytes(c) => match c {
            BytesConstraint::Equal(_) => Binary::Equal,
            BytesConstraint::In(_) => Binary::In,
            BytesConstraint::NotIn(_) => Binary::NotIn,
        },
    }
}

/// The instructions of a constraint: `$id`, the value, the operator.
pub open spec fn constraint_ops(c: Constraint) -> Seq<NamedOpV> {
    seq![
        NamedOpV::Value(NamedV::Variable(c.id@)),
        NamedOpV::Value(kind_operand(c.kind)),
        NamedOpV::Binary(kind_op(c.kind)),
    ]
}

/// A membership condition lists at least one member.
pub open spec fn kind_nonempty(k: ConstraintKind) -> bool {
    match kind_operand(k) {
        NamedV::TermSet(ms) => ms.len() > 0,
        _ => true,
    }
}

/// The type of value a condition is about.
pub open spec fn kind_family(k: ConstraintKind) -> int {
    match k {
        ConstraintKind::Integer(_) => 0,
        ConstraintKind::String(_) => 1,
        ConstraintKind::Date(_) => 2,
        ConstraintKind::Symbol(_) => 3,
        ConstraintKind::Bytes(_) => 4,
    }
}

/// The type of value a condition's operand shows.
pub open spec fn operand_family(n: NamedV) -> int {
    match n {
        NamedV::Integer(_) => 0,
        NamedV::Str(_) => 1,
        NamedV::Date(_) => 2,
        NamedV::Bytes(_) => 4,
        NamedV::TermSet(ms) => if ms.len() > 0 {
            match ms[0] {
                NamedV::Integer(_) => 0,
                NamedV::Str(_) => 1,
                NamedV::Symbol(_) => 3,
                NamedV::Bytes(_) => 4,
                _ => 5,
            }
        } else {
            5
        },
        _ => 5,
    }
}

/// Two conditions are the same: same type of value, operator and value.
pub open spec fn same_kind(a: ConstraintKind, b: ConstraintKind) -> bool {
    kind_family(a) == kind_family(b) && kind_op(a) == kind_op(b) && kind_operand(a) == kind_operand(b)
}

/// A condition's value is a well-formed term, and a non-empty one shows
/// the type of the condition.
pub proof fn lemma_kind_operand_ok(k: ConstraintKind)
    ensures
        term_ok(kind_operand(k)),
        kind_nonempty(k) ==> operand_family(kind_operand(k)) == kind_family(k),
{
    let n = kind_operand(k);
    if let NamedV::TermSet(ms) = n {
        assert forall|i: int| 0 <= i < ms.len() implies !(#[trigger] ms[i] is Variable) && !(ms[i] is TermSet) && ms[i].tag() == ms[0].tag() by {
            match k {
                ConstraintKind::Integer(IntConstraint::In(v)) => { assert(ms[i] == NamedV::Integer(v@[i]) && ms[0] == NamedV::Integer(v@[0])); },
                ConstraintKind::Integer(IntConstraint::NotIn(v)) => { assert(ms[i] == NamedV::Integer(v@[i]) && ms[0] == NamedV::Integer(v@[0])); },
                ConstraintKind::String(StrConstraint::In(v)) => { assert(ms[i] == NamedV::Str(v@[i]@) && ms[0] == NamedV::Str(v@[0]@)); },
                ConstraintKind::String(StrConstraint::NotIn(v)) => { assert(ms[i] == NamedV::Str(v@[i]@) && ms[0] == NamedV::Str(v@[0]@)); },
                ConstraintKind::Symbol(SymbolConstraint::In(v)) => { assert(ms[i] == NamedV::Symbol(v@[i]@) && ms[0] == NamedV::Symbol(v@[0]@)); },
                ConstraintKind::Symbol(SymbolConstraint::NotIn(v)) => { assert(ms[i] == NamedV::Symbol(v@[i]@) && ms[0] == NamedV::Symbol(v@[0]@)); },
                ConstraintKind::Bytes(BytesConstraint::In(v)) => { assert(ms[i] == NamedV::Bytes(v@[i]@) && ms[0] == NamedV::Bytes(v@[0]@)); },
                ConstraintKind::Bytes(BytesConstraint::NotIn(v)) => { assert(ms[i] == NamedV::Bytes(v@[i]@) && ms[0] == NamedV::Bytes(v@[0]@)); },
                _ => {},
            }
        }
        if ms.len() > 0 {
            match k {
                ConstraintKind::Integer(IntConstraint::In(v)) => { assert(ms[0] == NamedV::Integer(v@[0])); },
                ConstraintKind::Integer(IntConstraint::NotIn(v)) => { assert(ms[0] == NamedV::Integer(v@[0])); },
                ConstraintKind::String(StrConstraint::In(v)) => { assert(ms[0] == NamedV::Str(v@[0]@)); },
                ConstraintKind::String(StrConstraint::NotIn(v)) => { assert(ms[0] == NamedV::Str(v@[0]@)); },
                ConstraintKind::Symbol(SymbolConstraint::In(v)) => { assert(ms[0] == NamedV::Symbol(v@[0]@)); },
                ConstraintKind::Symbol(SymbolConstraint::NotIn(v)) => { assert(ms[0] == NamedV::Symbol(v@[0]@)); },
                ConstraintKind::Bytes(BytesConstraint::In(v)) => { assert(ms[0] == NamedV::Bytes(v@[0]@)); },
                ConstraintKind::Bytes(BytesConstraint::NotIn(v)) => { assert(ms[0] == NamedV::Bytes(v@[0]@)); },
                _ => {},
            }
        }
    }
}

/// A set member is fixed by what it converts to.
proof fn lemma_leaf_unique(a: NamedV, b: NamedV, d: TermV, table: Seq<Seq<char>>)
    requires
        leaf_converted(a, d, table),
        leaf_converted(b, d, table),
        !(a is TermSet),
        !(b is TermSet),
    ensures
        a == b,
{
}

/// A well-formed term is fixed by what it converts to.
pub proof fn lemma_converted_unique(a: NamedV, b: NamedV, d: TermV, table: Seq<Seq<char>>)
    requires
        converted(a, d, table),
        converted(b, d, table),
        term_ok(a),
        term_ok(b),
    ensures
        a == b,
{
    match a {
        NamedV::TermSet(xs) => {
            match b {
                NamedV::TermSet(ys) => {
                    assert forall|i: int| 0 <= i < xs.len() implies xs[i] == ys[i] by {
                        lemma_leaf_unique(xs[i], ys[i], d->TermSet_0[i], table);
                    }
                    assert(xs =~= ys);
                },
                _ => {},
            }
        },
        _ => {
            if b is TermSet {
            } else {
                lemma_leaf_unique(a, b, d, table);
            }
        },
    }
}

/// The set term of a list of integers.
fn int_set_term(v: &Vec<i64>) -> (r: Term)
    ensures
        r@ == int_set(v@),
{
    let mut ms: Vec<Term> = Vec::new();
    let mut i: usize = 0;
    while i < v.len()
        invariant
            i <= v.len(),
            ms@.map_values(|m: Term| leaf_view(m)) =~= v@.subrange(0, i as int).map_values(|x: i64| NamedV::Integer(x)),
        decreases v.len() - i,
    {
        let ghost before = ms@;
        ms.push(Term::Integer(v[i]));
        assert(ms@.map_values(|m: Term| leaf_view(m)) =~= before.map_values(|m: Term| leaf_view(m)).push(NamedV::Integer(v@[i as int])));
        assert(v@.subrange(0, i + 1) =~= v@.subrange(0, i as int).push(v@[i as int]));
        i = i + 1;
    }
    assert(v@.subrange(0, v@.len() as int) =~= v@);
    Term::TermSet(ms)
}

/// The set term of a list of strings, as strings or as symbols.
fn str_set_term(v: &Vec<String>, symbols: bool) -> (r: Term)
    ensures
        r@ == if symbols { symbol_set(v@) } else { str_set(v@) },
{
    let mut ms: Vec<Term> = Vec::new();
    let mut i: usize = 0;
    while i < v.len()
        invariant
            i <= v.len(),
            ms@.map_values(|m: Term| leaf_view(m)) =~= if symbols {
                v@.subrange(0, i as int).map_values(|s: String| NamedV::Symbol(s@))
            } else {
                v@.subrange(0, i as int).map_values(|s: String| NamedV::Str(s@))
            },
        decreases v.len() - i,
    {
        let ghost before = ms@;
        let t = if symbols { Term::Symbol(v[i].clone()) } else { Term::Str(v[i].clone()) };
        ms.push(t);
        assert(ms@.map_values(|m: Term| leaf_view(m)) =~= before.map_values(|m: Term| leaf_view(m)).push(leaf_view(t)));
        assert(v@.subrange(0, i + 1) =~= v@.subrange(0, i as int).push(v@[i as int]));
        i = i + 1;
    }
    assert(v@.subrange(0, v@.len() as int) =~= v@);
    Term::TermSet(ms)
}

/// The set term of a list of byte strings.
fn bytes_set_term(v: &Vec<Vec<u8>>) -> (r: Term)
    ensures
        r@ == bytes_set(v@),
{
    let mut ms: Vec<Term> = Vec::new();
    let mut i: usize = 0;
    while i < v.len()
        invariant
            i <= v.len(),
            ms@.map_values(|m: Term| leaf_view(m)) =~= v@.subrange(0, i as int).map_values(|b: Vec<u8>| NamedV::Bytes(b@)),
        decreases v.len() - i,
    {
        let ghost before = ms@;
        let b = v[i].clone();
        ms.push(Term::Bytes(b));
        assert(ms@.map_values(|m: Term| leaf_view(m)) =~= before.map_values(|m: Term| leaf_view(m)).push(NamedV::Bytes(v@[i as int]@)));
        assert(v@.subrange(0, i + 1) =~= v@.subrange(0, i as int).push(v@[i as int]));
        i = i + 1;
    }
    assert(v@.subrange(0, v@.len() as int) =~= v@);
    Term::TermSet(ms)
}

impl ConstraintKind {
    /// The value and the operator the condition compares with.
    pub fn operand(&self) -> (r: (Term, Binary))
        ensures
            r.0@ == kind_operand(*self),
            r.1 == kind_op(*self),
    {
        match self {
            ConstraintKind::Integer(c) => match c {
                IntConstraint::Lower(i) => (Term::Integer(*i), Binary::LessThan),
                IntConstraint::Larger(i) => (Term::Integer(*i), Binary::GreaterThan),
                IntConstraint::LowerOrEqual(i) => (Term::Integer(*i), Binary::LessOrEqual),
                IntConstraint::LargerOrEqual(i) => (Term::Integer(*i), Binary::GreaterOrEqual),
                IntConstraint::Equal(i) => (Term::Integer(*i), Binary::Equal),
                IntConstraint::In(v) => (int_set_term(v), Binary::In),
                IntConstraint::NotIn(v) => (int_set_term(v), Binary::NotIn),
            },
            ConstraintKind::String(c) => match c {
                StrConstraint::Prefix(s) => (Term::Str(s.clone()), Binary::Prefix),
                StrConstraint::Suffix(s) => (Term::Str(s.clone()), Binary::Suffix),
                StrConstraint::Equal(s) => (Term::Str(s.clone()), Binary::Equal),
                StrConstraint::Regex(s) => (Term::Str(s.clone()), Binary::Regex),
                StrConstraint::In(v) => (str_set_term(v, false), Binary::In),
                StrConstraint::NotIn(v) => (str_set_term(v, false), Binary::NotIn),
            },
            ConstraintKind::Date(c) => match c {
                DateConstraint::Before(d) => (Term::Date(*d), Binary::LessOrEqual),
                DateConstraint::After(d) => (Term::Date(*d), Binary::GreaterOrEqual),
            },
            ConstraintKind::Symbol(c) => match c {
                SymbolConstraint::In(v) => (str_set_term(v, true), Binary::In),
                SymbolConstraint::NotIn(v) => (str_set_term(v, true), Binary::NotIn),
            },
            ConstraintKind::Bytes(c) => match c {
                BytesConstraint::Equal(b) => (Term::Bytes(b.clone()), Binary::Equal),
                BytesConstraint::In(v) => (bytes_set_term(v), Binary::In),
                BytesConstraint::NotIn(v) => (bytes_set_term(v), Binary::NotIn),
            },
        }
    }

    /// Interns the names of the condition's value and gives it in interned
    /// form, with the operator.
    pub fn convert(&self, symbols: &mut SymbolTable) -> (r: Result<(datalog::Term, Binary), Error>)
        requires
            old(symbols).wf(),
        ensures
            final(symbols).wf(),
            extends(old(symbols)@, final(symbols)@),
            match r {
                Ok((d, op)) => op == kind_op(*self) && converted(kind_operand(*self), d@, final(symbols)@),
                Err(e) => (e == Error::InvalidConstraint && !kind_nonempty(*self) && final(symbols)@ == old(symbols)@)
                    || (e == Error::TooManySymbols && kind_nonempty(*self)
                    && intern_all(old(symbols)@, term_names(kind_operand(*self))).len() >= u32::MAX),
            },
            r is Ok ==> final(symbols)@ == intern_all(old(symbols)@, term_names(kind_operand(*self))),
    {
        if !self.nonempty() {
            assert(symbols@.subrange(0, symbols@.len() as int) =~= symbols@);
            return Err(Error::InvalidConstraint);
        }
        proof {
            lemma_kind_operand_ok(*self);
        }
        let (t, op) = self.operand();
        let d = t.convert(symbols)?;
        Ok((d, op))
    }

    /// Decides [`kind_nonempty`].
    pub fn nonempty(&self) -> (r: bool)
        ensures
            r == kind_nonempty(*self),
    {
        match self {
            ConstraintKind::Integer(IntConstraint::In(v)) => v.len() > 0,
            ConstraintKind::Integer(IntConstraint::NotIn(v)) => v.len() > 0,
            ConstraintKind::String(StrConstraint::In(v)) => v.len() > 0,
            ConstraintKind::String(StrConstraint::NotIn(v)) => v.len() > 0,
            ConstraintKind::Symbol(SymbolConstraint::In(v)) => v.len() > 0,
            ConstraintKind::Symbol(SymbolConstraint::NotIn(v)) => v.len() > 0,
            ConstraintKind::Bytes(BytesConstraint::In(v)) => v.len() > 0,
            ConstraintKind::Bytes(BytesConstraint::NotIn(v)) => v.len() > 0,
            _ => true,
        }
    }

    /// The condition an interned value and an operator stand for; fails
    /// when no condition compares that kind of value with that operator.
    pub fn convert_from(t: &datalog::Term, op: Binary, symbols: &SymbolTable) -> (r: Result<ConstraintKind, Error>)
        ensures
            r matches Ok(k) ==> kind_op(k) == op && converted(kind_operand(k), t@, symbols@),
            kind_matches(op, t@, symbols@) ==> r is Ok,
            forall|k: ConstraintKind|
                kind_nonempty(k) && kind_op(k) == op && #[trigger] converted(kind_operand(k), t@, symbols@)
                    ==> (r matches Ok(k2) && same_kind(k2, k)),
    {
        let r = ConstraintKind::kind_from(t, op, symbols);
        proof {
            assert forall|k: ConstraintKind|
                kind_nonempty(k) && kind_op(k) == op && #[trigger] converted(kind_operand(k), t@, symbols@)
                    implies (r matches Ok(k2) && same_kind(k2, k)) by {
                assert(kind_matches(op, t@, symbols@));
                let k2 = r->Ok_0;
                lemma_kind_operand_ok(k);
                lemma_kind_operand_ok(k2);
                lemma_converted_unique(kind_operand(k), kind_operand(k2), t@, symbols@);
            }
        }
        r
    }

    /// Reads a condition from an interned value and an operator.
    fn kind_from(t: &datalog::Term, op: Binary, symbols: &SymbolTable) -> (r: Result<ConstraintKind, Error>)
        ensures
            r matches Ok(k) ==> kind_op(k) == op && converted(kind_operand(k), t@, symbols@),
            kind_matches(op, t@, symbols@) ==> r is Ok,
    {
        proof {
            if kind_matches(op, t@, symbols@) {
                let k = choose|k: ConstraintKind| kind_op(k) == op && #[trigger] converted(kind_operand(k), t@, symbols@);
                assert(kind_op(k) == op && converted(kind_operand(k), t@, symbols@));
            }
        }
        match (op, t) {
            (Binary::LessThan, datalog::Term::Integer(i)) => Ok(ConstraintKind::Integer(IntConstraint::Lower(*i))),
            (Binary::GreaterThan, datalog::Term::Integer(i)) => Ok(ConstraintKind::Integer(IntConstraint::Larger(*i))),
            (Binary::LessOrEqual, datalog::Term::Integer(i)) => Ok(ConstraintKind::Integer(IntConstraint::LowerOrEqual(*i))),
            (Binary::GreaterOrEqual, datalog::Term::Integer(i)) => Ok(ConstraintKind::Integer(IntConstraint::LargerOrEqual(*i))),
            (Binary::Equal, datalog::Term::Integer(i)) => Ok(ConstraintKind::Integer(IntConstraint::Equal(*i))),
            (Binary::LessOrEqual, datalog::Term::Date(d)) => Ok(ConstraintKind::Date(DateConstraint::Before(*d))),
            (Binary::GreaterOrEqual, datalog::Term::Date(d)) => Ok(ConstraintKind::Date(DateConstraint::After(*d))),
            (Binary::Prefix, datalog::Term::Str(s)) => Ok(ConstraintKind::String(StrConstraint::Prefix(s.clone()))),
            (Binary::Suffix, datalog::Term::Str(s)) => Ok(ConstraintKind::String(StrConstraint::Suffix(s.clone()))),
            (Binary::Regex, datalog::Term::Str(s)) => Ok(ConstraintKind::String(StrConstraint::Regex(s.clone()))),
            (Binary::Equal, datalog::Term::Str(s)) => Ok(ConstraintKind::String(StrConstraint::Equal(s.clone()))),
            (Binary::Equal, datalog::Term::Bytes(b)) => Ok(ConstraintKind::Bytes(BytesConstraint::Equal(b.clone()))),
            (Binary::In, datalog::Term::TermSet(ms)) => set_kind(ms, true, symbols),
            (Binary::NotIn, datalog::Term::TermSet(ms)) => set_kind(ms, false, symbols),
            _ => Err(Error::InvalidConstraint),
        }
    }
}

/// Some condition compares with operator `op` and the value `t`.
pub open spec fn kind_matches(op: Binary, t: TermV, table: Seq<Seq<char>>) -> bool {
    exists|k: ConstraintKind| kind_op(k) == op && #[trigger] converted(kind_operand(k), t, table)
}

/// The members of a set a condition compares with are all integers, all
/// strings, all known symbols or all byte strings.
proof fn lemma_set_operand(k: ConstraintKind, ds: Seq<TermV>, table: Seq<Seq<char>>)
    requires
        converted(kind_operand(k), TermV::TermSet(ds), table),
    ensures
        forall|i: int| 0 <= i < ds.len() ==> {
            ||| (#[trigger] ds[i] is Integer && k is Integer)
            ||| (ds[i] is Str && k is String)
            ||| (ds[i] is Symbol && k is Symbol && leaf_known(ds[i], table.len()))
            ||| (ds[i] is Bytes && k is Bytes)
        },
{
    assert forall|i: int| 0 <= i < ds.len() implies {
        ||| (#[trigger] ds[i] is Integer && k is Integer)
        ||| (ds[i] is Str && k is String)
        ||| (ds[i] is Symbol && k is Symbol && leaf_known(ds[i], table.len()))
        ||| (ds[i] is Bytes && k is Bytes)
    } by {
        let ns = kind_operand(k)->TermSet_0;
        assert(leaf_converted(ns[i], ds[i], table));
        match k {
            ConstraintKind::Integer(c) => match c {
                IntConstraint::In(v) => { assert(ns[i] == NamedV::Integer(v@[i])); },
                IntConstraint::NotIn(v) => { assert(ns[i] == NamedV::Integer(v@[i])); },
                _ => {},
            },
            ConstraintKind::String(c) => match c {
                StrConstraint::In(v) => { assert(ns[i] == NamedV::Str(v@[i]@)); },
                StrConstraint::NotIn(v) => { assert(ns[i] == NamedV::Str(v@[i]@)); },
                _ => {},
            },
            ConstraintKind::Symbol(c) => match c {
                SymbolConstraint::In(v) => { assert(ns[i] == NamedV::Symbol(v@[i]@)); },
                SymbolConstraint::NotIn(v) => { assert(ns[i] == NamedV::Symbol(v@[i]@)); },
            },
            ConstraintKind::Bytes(c) => match c {
                BytesConstraint::In(v) => { assert(ns[i] == NamedV::Bytes(v@[i]@)); },
                BytesConstraint::NotIn(v) => { assert(ns[i] == NamedV::Bytes(v@[i]@)); },
                _ => {},
            },
            _ => {},
        }
    }
}

/// The membership condition that the members of an interned set stand
/// for, by the variant of its first member; an empty set reads as integers.
fn set_kind(ms: &Vec<datalog::Term>, member: bool, symbols: &SymbolTable) -> (r: Result<ConstraintKind, Error>)
    ensures
        r matches Ok(k) ==> kind_op(k) == (if member { Binary::In } else { Binary::NotIn })
            && converted(kind_operand(k), TermV::TermSet(ms@.map_values(|m: datalog::Term| datalog::leaf_view(m))), symbols@),
        kind_matches(if member { Binary::In } else { Binary::NotIn }, TermV::TermSet(ms@.map_values(|m: datalog::Term| datalog::leaf_view(m))), symbols@) ==> r is Ok,
{
    let ghost ds = ms@.map_values(|m: datalog::Term| datalog::leaf_view(m));
    let ghost op = if member { Binary::In } else { Binary::NotIn };
    let tag: u8 = if ms.len() == 0 { 2 } else { datalog::term_tag(&ms[0]) };
    proof {
        if ms.len() > 0 {
            assert(ds[0] == datalog::leaf_view(ms@[0]));
            assert(ms@[0]@.tag() == ds[0].tag());
        }
        if kind_matches(op, TermV::TermSet(ds), symbols@) {
            let k = choose|k: ConstraintKind| kind_op(k) == op && #[trigger] converted(kind_operand(k), TermV::TermSet(ds), symbols@);
            lemma_set_operand(k, ds, symbols@);
        }
    }
    let mut ints: Vec<i64> = Vec::new();
    let mut strs: Vec<String> = Vec::new();
    let mut bytes: Vec<Vec<u8>> = Vec::new();
    let mut i: usize = 0;
    while i < ms.len()
        invariant
            i <= ms.len(),
            ds == ms@.map_values(|m: datalog::Term| datalog::leaf_view(m)),
            tag == 2 ==> ints@.len() == i && forall|k: int| 0 <= k < i ==> #[trigger] ds[k] == TermV::Integer(ints@[k]),
            (tag == 0 || tag == 3) ==> strs@.len() == i && forall|k: int| 0 <= k < i ==> leaf_converted(
                if tag == 0 { NamedV::Symbol(strs@[k]@) } else { NamedV::Str(strs@[k]@) },
                #[trigger] ds[k],
                symbols@,
            ),
            tag == 5 ==> bytes@.len() == i && forall|k: int| 0 <= k < i ==> #[trigger] ds[k] == TermV::Bytes(bytes@[k]@),
            op == (if member { Binary::In } else { Binary::NotIn }),
            ms.len() > 0 ==> tag == ds[0].tag(),
            kind_matches(op, TermV::TermSet(ds), symbols@) ==> forall|j: int| 0 <= j < ds.len() ==> {
                ||| (#[trigger] ds[j] is Integer && tag == 2)
                ||| (ds[j] is Str && tag == 3)
                ||| (ds[j] is Symbol && tag == 0 && leaf_known(ds[j], symbols@.len()))
                ||| (ds[j] is Bytes && tag == 5)
            },
        decreases ms.len() - i,
    {
        assert(ds[i as int] == datalog::leaf_view(ms@[i as int]));
        match &ms[i] {
            datalog::Term::Integer(x) => {
                if tag != 2 {
                    return Err(Error::InvalidConstraint);
                }
                ints.push(*x);
            },
            datalog::Term::Str(s) => {
                if tag != 3 {
                    return Err(Error::InvalidConstraint);
                }
                strs.push(s.clone());
            },
            datalog::Term::Symbol(id) => {
                if tag != 0 {
                    return Err(Error::InvalidConstraint);
                }
                match symbols.resolve(*id) {
                    Ok(name) => strs.push(name),
                    Err(_) => {
                        return Err(Error::UnknownSymbol(*id));
                    },
                }
            },
            datalog::Term::Bytes(b) => {
                if tag != 5 {
                    return Err(Error::InvalidConstraint);
                }
                bytes.push(b.clone());
            },
            _ => {
                return Err(Error::InvalidConstraint);
            },
        }
        i = i + 1;
    }
    let k = if tag == 2 {
        if member { ConstraintKind::Integer(IntConstraint::In(ints)) } else { ConstraintKind::Integer(IntConstraint::NotIn(ints)) }
    } else if tag == 3 {
        if member { ConstraintKind::String(StrConstraint::In(strs)) } else { ConstraintKind::String(StrConstraint::NotIn(strs)) }
    } else if tag == 0 {
        if member { ConstraintKind::Symbol(SymbolConstraint::In(strs)) } else { ConstraintKind::Symbol(SymbolConstraint::NotIn(strs)) }
    } else if tag == 5 {
        if member { ConstraintKind::Bytes(BytesConstraint::In(bytes)) } else { ConstraintKind::Bytes(BytesConstraint::NotIn(bytes)) }
    } else {
        return Err(Error::InvalidConstraint);
    };
    assert(converted(kind_operand(k), TermV::TermSet(ds), symbols@)) by {
        let ns = kind_operand(k)->TermSet_0;
        assert forall|j: int| 0 <= j < ns.len() implies leaf_converted(#[trigger] ns[j], ds[j], symbols@) by {
            assert(ds[j] == ds[j]);
        }
    }
    Ok(k)
}

impl Constraint {
    /// The expression `$id <op> value` of the constraint.
    pub fn to_expression(&self) -> (r: Expression)
        ensures
            r@ == constraint_ops(*self),
    {
        let (t, op) = self.kind.operand();
        let mut ops: Vec<Op> = Vec::new();
        ops.push(Op::Value(Term::Variable(self.id.clone())));
        ops.push(Op::Value(t));
        ops.push(Op::Binary(op));
        let r = Expression { ops };
        assert(r@ =~= constraint_ops(*self));
        r
    }

    /// Interns the constraint's names and gives its interned expression.
    pub fn convert(&self, symbols: &mut SymbolTable) -> (r: Result<datalog::Expression, Error>)
        requires
            old(symbols).wf(),
        ensures
            final(symbols).wf(),
            extends(old(symbols)@, final(symbols)@),
            match r {
                Ok(d) => ops_converted(constraint_ops(*self), d@, final(symbols)@),
                Err(e) => (e == Error::InvalidConstraint && !kind_nonempty(self.kind) && final(symbols)@ == old(symbols)@)
                    || (e == Error::TooManySymbols && kind_nonempty(self.kind)
                    && intern_all(old(symbols)@, ops_names(constraint_ops(*self))).len() >= u32::MAX),
            },
            r is Ok ==> final(symbols)@ == intern_all(old(symbols)@, ops_names(constraint_ops(*self))),
    {
        if !self.kind.nonempty() {
            assert(symbols@.subrange(0, symbols@.len() as int) =~= symbols@);
            return Err(Error::InvalidConstraint);
        }
        proof {
            lemma_kind_operand_ok(self.kind);
            let ops = constraint_ops(*self);
            assert(ops_ok(ops)) by {
                assert forall|i: int| 0 <= i < ops.len() implies op_ok(#[trigger] ops[i]) by {}
            }
        }
        self.to_expression().convert(symbols)
    }

    /// The constraint an interned expression stands for, when it compares a
    /// variable with a value.
    pub fn convert_from(e: &datalog::Expression, symbols: &SymbolTable) -> (r: Result<Constraint, Error>)
        ensures
            r matches Ok(c) ==> ops_converted(constraint_ops(c), e@, symbols@),
            (exists|c: Constraint| #[trigger] ops_converted(constraint_ops(c), e@, symbols@)) ==> r is Ok,
            forall|c: Constraint|
                kind_nonempty(c.kind) && #[trigger] ops_converted(constraint_ops(c), e@, symbols@)
                    ==> (r matches Ok(c2) && c2.id@ == c.id@ && same_kind(c2.kind, c.kind)),
    {
        let r = Constraint::constraint_from(e, symbols);
        proof {
            assert forall|c: Constraint|
                kind_nonempty(c.kind) && #[trigger] ops_converted(constraint_ops(c), e@, symbols@)
                    implies (r matches Ok(c2) && c2.id@ == c.id@ && same_kind(c2.kind, c.kind)) by {
                let c2 = r->Ok_0;
                let a = constraint_ops(c);
                let b = constraint_ops(c2);
                assert(op_converted(a[0], e@[0], symbols@) && op_converted(b[0], e@[0], symbols@));
                assert(op_converted(a[1], e@[1], symbols@) && op_converted(b[1], e@[1], symbols@));
                assert(op_converted(a[2], e@[2], symbols@) && op_converted(b[2], e@[2], symbols@));
                lemma_leaf_unique(NamedV::Variable(c.id@), NamedV::Variable(c2.id@), e@[0]->Value_0, symbols@);
                lemma_kind_operand_ok(c.kind);
                lemma_kind_operand_ok(c2.kind);
                lemma_converted_unique(kind_operand(c.kind), kind_operand(c2.kind), e@[1]->Value_0, symbols@);
            }
        }
        r
    }

    /// Reads a constraint from an interned expression.
    fn constraint_from(e: &datalog::Expression, symbols: &SymbolTable) -> (r: Result<Constraint, Error>)
        ensures
            r matches Ok(c) ==> ops_converted(constraint_ops(c), e@, symbols@),
            (exists|c: Constraint| #[trigger] ops_converted(constraint_ops(c), e@, symbols@)) ==> r is Ok,
    {
        let ghost ev = e@;
        proof {
            if exists|c: Constraint| #[trigger] ops_converted(constraint_ops(c), e@, symbols@) {
                let c = choose|c: Constraint| #[trigger] ops_converted(constraint_ops(c), e@, symbols@);
                assert(op_converted(constraint_ops(c)[0], ev[0], symbols@));
                assert(op_converted(constraint_ops(c)[1], ev[1], symbols@));
                assert(op_converted(constraint_ops(c)[2], ev[2], symbols@));
                assert(ev[0] == e.ops@[0]@ && ev[1] == e.ops@[1]@ && ev[2] == e.ops@[2]@);
                assert(kind_matches(kind_op(c.kind), ev[1]->Value_0, symbols@));
            }
        }
        if e.ops.len() != 3 {
            return Err(Error::InvalidConstraint);
        }
        let v = match &e.ops[0] {
            datalog::Op::Value(datalog::Term::Variable(v)) => *v,
            _ => {
                return Err(Error::InvalidConstraint);
            },
        };
        let op = match &e.ops[2] {
            datalog::Op::Binary(b) => *b,
            _ => {
                return Err(Error::InvalidConstraint);
            },
        };
        let kind = match &e.ops[1] {
            datalog::Op::Value(t) => ConstraintKind::kind_from(t, op, symbols)?,
            _ => {
                return Err(Error::InvalidConstraint);
            },
        };
        let id = match symbols.resolve(v as u64) {
            Ok(name) => name,
            Err(_) => {
                return Err(Error::UnknownSymbol(v as u64));
            },
        };
        let c = Constraint { id, kind };
        assert(ops_converted(constraint_ops(c), e@, symbols@)) by {
            assert(e@[0] == e.ops@[0]@);
            assert(e@[1] == e.ops@[1]@);
            assert(e@[2] == e.ops@[2]@);
        }
        Ok(c)
    }
}

/// With a table that holds no name twice, a set member converts to one
/// value only.
proof fn lemma_leaf_functional(n: NamedV, d1: TermV, d2: TermV, table: Seq<Seq<char>>)
    requires
        table.no_duplicates(),
        leaf_converted(n, d1, table),
        leaf_converted(n, d2, table),
    ensures
        d1 == d2,
{
}

/// With a table that holds no name twice, a term converts to one value only.
pub proof fn lemma_converted_functional(n: NamedV, d1: TermV, d2: TermV, table: Seq<Seq<char>>)
    requires
        table.no_duplicates(),
        converted(n, d1, table),
        converted(n, d2, table),
    ensures
        d1 == d2,
{
    match n {
        NamedV::TermSet(ms) => {
            let xs = d1->TermSet_0;
            let ys = d2->TermSet_0;
            assert forall|i: int| 0 <= i < xs.len() implies xs[i] == ys[i] by {
                lemma_leaf_functional(ms[i], xs[i], ys[i], table);
            }
            assert(xs =~= ys);
        },
        _ => lemma_leaf_functional(n, d1, d2, table),
    }
}

/// With a table that holds no name twice, a predicate converts to one
/// value only.
pub proof fn lemma_pred_functional(p: NamedPredV, d1: PredV, d2: PredV, table: Seq<Seq<char>>)
    requires
        table.no_duplicates(),
        pred_converted(p, d1, table),
        pred_converted(p, d2, table),
    ensures
        d1 == d2,
{
    assert forall|i: int| 0 <= i < d1.terms.len() implies d1.terms[i] == d2.terms[i] by {
        lemma_converted_functional(p.terms[i], d1.terms[i], d2.terms[i], table);
    }
    assert(d1.terms =~= d2.terms);
}

/// With a table that holds no name twice, an expression converts to one
/// value only.
pub proof fn lemma_ops_functional(o: Seq<NamedOpV>, d1: Seq<OpV>, d2: Seq<OpV>, table: Seq<Seq<char>>)
    requires
        table.no_duplicates(),
        ops_converted(o, d1, table),
        ops_converted(o, d2, table),
    ensures
        d1 == d2,
{
    assert forall|i: int| 0 <= i < d1.len() implies d1[i] == d2[i] by {
        assert(op_converted(o[i], d1[i], table) && op_converted(o[i], d2[i], table));
        if o[i] is Value {
            lemma_converted_functional(o[i]->Value_0, d1[i]->Value_0, d2[i]->Value_0, table);
        }
    }
    assert(d1 =~= d2);
}

/// Converting two rules that differ only in the order of their body
/// predicates, under one table, gives rules whose bodies hold the same
/// predicates.
pub proof fn lemma_converted_body_sets(b1: NamedRuleV, b2: NamedRuleV, d1: RuleV, d2: RuleV, table: Seq<Seq<char>>)
    requires
        table.no_duplicates(),
        rule_converted(b1, d1, table),
        rule_converted(b2, d2, table),
        b1.head == b2.head,
        b1.expressions == b2.expressions,
        b1.body.to_set() == b2.body.to_set(),
    ensures
        d1.head == d2.head,
        d1.expressions == d2.expressions,
        d1.body.to_set() == d2.body.to_set(),
{
    lemma_pred_functional(b1.head, d1.head, d2.head, table);
    assert forall|i: int| 0 <= i < d1.expressions.len() implies d1.expressions[i] == d2.expressions[i] by {
        lemma_ops_functional(b1.expressions[i], d1.expressions[i], d2.expressions[i], table);
    }
    assert(d1.expressions =~= d2.expressions);
    assert forall|x: PredV| d1.body.to_set().contains(x) implies d2.body.to_set().contains(x) by {
        let i = choose|i: int| 0 <= i < d1.body.len() && d1.body[i] == x;
        assert(b1.body.to_set().contains(b1.body[i]));
        let j = choose|j: int| 0 <= j < b2.body.len() && b2.body[j] == b1.body[i];
        lemma_pred_functional(b1.body[i], d1.body[i], d2.body[j], table);
        assert(d2.body.contains(d2.body[j]));
    }
    assert forall|x: PredV| d2.body.to_set().contains(x) implies d1.body.to_set().contains(x) by {
        let i = choose|i: int| 0 <= i < d2.body.len() && d2.body[i] == x;
        assert(b2.body.to_set().contains(b2.body[i]));
        let j = choose|j: int| 0 <= j < b1.body.len() && b1.body[j] == b2.body[i];
        lemma_pred_functional(b2.body[i], d2.body[i], d1.body[j], table);
        assert(d1.body.contains(d1.body[j]));
    }
    assert(d1.body.to_set() =~= d2.body.to_set());
}

/// Permuting the body predicates of a rule before converting it leaves the
/// solver's outcome unchanged, whatever other rules run with it.
pub proof fn lemma_converted_body_order(
    facts: Set<PredV>,
    others: Seq<RuleV>,
    b1: NamedRuleV,
    b2: NamedRuleV,
    d1: RuleV,
    d2: RuleV,
    table: Seq<Seq<char>>,
    iterations: nat,
    max_facts: nat,
)
    requires
        table.no_duplicates(),
        rule_converted(b1, d1, table),
        rule_converted(b2, d2, table),
        b1.head == b2.head,
        b1.expressions == b2.expressions,
        b1.body.to_set() == b2.body.to_set(),
    ensures
        run(facts, others.push(d1), iterations, max_facts) == run(facts, others.push(d2), iterations, max_facts),
{
    lemma_converted_body_sets(b1, b2, d1, d2, table);
    let r1 = others.push(d1);
    let r2 = others.push(d2);
    assert forall|i: int| 0 <= i < r1.len() implies (#[trigger] r1[i]).head == r2[i].head && r1[i].expressions == r2[i].expressions && r1[i].body.to_set() == r2[i].body.to_set() by {
        if i < others.len() {
            assert(r1[i] == others[i] && r2[i] == others[i]);
        }
    }
    lemma_run_body_order(facts, r1, r2, iterations, max_facts);
}

/// Permuting a list of rules before converting it leaves the solver's
/// outcome unchanged.
pub proof fn lemma_converted_rule_order(
    facts: Set<PredV>,
    b1: Seq<NamedRuleV>,
    b2: Seq<NamedRuleV>,
    d1: Seq<RuleV>,
    d2: Seq<RuleV>,
    table: Seq<Seq<char>>,
    iterations: nat,
    max_facts: nat,
)
    requires
        table.no_duplicates(),
        rules_converted(b1, d1, table),
        rules_converted(b2, d2, table),
        b1.to_set() == b2.to_set(),
    ensures
        run(facts, d1, iterations, max_facts) == run(facts, d2, iterations, max_facts),
{
    assert forall|x: RuleV| d1.to_set().contains(x) implies d2.to_set().contains(x) by {
        let i = choose|i: int| 0 <= i < d1.len() && d1[i] == x;
        assert(b1.to_set().contains(b1[i]));
        let j = choose|j: int| 0 <= j < b2.len() && b2[j] == b1[i];
        lemma_rule_functional(b1[i], d1[i], d2[j], table);
        assert(d2.contains(d2[j]));
    }
    assert forall|x: RuleV| d2.to_set().contains(x) implies d1.to_set().contains(x) by {
        let i = choose|i: int| 0 <= i < d2.len() && d2[i] == x;
        assert(b2.to_set().contains(b2[i]));
        let j = choose|j: int| 0 <= j < b1.len() && b1[j] == b2[i];
        lemma_rule_functional(b2[i], d2[i], d1[j], table);
        assert(d1.contains(d1[j]));
    }
    assert(d1.to_set() =~= d2.to_set());
    lemma_run_rule_order(facts, d1, d2, iterations, max_facts);
}

/// With a table that holds no name twice, a rule converts to one value only.
pub proof fn lemma_rule_functional(b: NamedRuleV, d1: RuleV, d2: RuleV, table: Seq<Seq<char>>)
    requires
        table.no_duplicates(),
        rule_converted(b, d1, table),
        rule_converted(b, d2, table),
    ensures
        d1 == d2,
{
    lemma_pred_functional(b.head, d1.head, d2.head, table);
    assert forall|i: int| 0 <= i < d1.body.len() implies d1.body[i] == d2.body[i] by {
        lemma_pred_functional(b.body[i], d1.body[i], d2.body[i], table);
    }
    assert forall|i: int| 0 <= i < d1.expressions.len() implies d1.expressions[i] == d2.expressions[i] by {
        lemma_ops_functional(b.expressions[i], d1.expressions[i], d2.expressions[i], table);
    }
    assert(d1.body =~= d2.body);
    assert(d1.expressions =~= d2.expressions);
}

/// Interning names a table already holds leaves it unchanged.
pub proof fn lemma_intern_present(t: Seq<Seq<char>>, ns: Seq<Seq<char>>)
    requires
        forall|i: int| 0 <= i < ns.len() ==> t.contains(#[trigger] ns[i]),
    ensures
        intern_all(t, ns) == t,
    decreases ns.len(),
{
    if ns.len() > 0 {
        lemma_intern_present(t, ns.drop_last());
        assert(t.contains(ns[ns.len() - 1]));
    }
}

/// Building two blocks whose rule lists hold the same rules, from a table
/// that already holds every name they use, gives rules with the same
/// solver outcome: the order of a block's rules does not matter.
pub proof fn lemma_build_rule_order(
    facts: Set<PredV>,
    table: Seq<Seq<char>>,
    b1: BlockBuilder,
    b2: BlockBuilder,
    new1: Seq<Seq<char>>,
    new2: Seq<Seq<char>>,
    r1: Seq<RuleV>,
    r2: Seq<RuleV>,
    iterations: nat,
    max_facts: nat,
)
    requires
        table.no_duplicates(),
        forall|i: int| 0 <= i < block_names(b1).len() ==> table.contains(#[trigger] block_names(b1)[i]),
        forall|i: int| 0 <= i < block_names(b2).len() ==> table.contains(#[trigger] block_names(b2)[i]),
        table + new1 == intern_all(table, block_names(b1)),
        table + new2 == intern_all(table, block_names(b2)),
        rules_converted(b1.rules@.map_values(|x: Rule| x@), r1, table + new1),
        rules_converted(b2.rules@.map_values(|x: Rule| x@), r2, table + new2),
        b1.rules@.map_values(|x: Rule| x@).to_set() == b2.rules@.map_values(|x: Rule| x@).to_set(),
    ensures
        run(facts, r1, iterations, max_facts) == run(facts, r2, iterations, max_facts),
{
    lemma_intern_present(table, block_names(b1));
    lemma_intern_present(table, block_names(b2));
    lemma_converted_rule_order(
        facts,
        b1.rules@.map_values(|x: Rule| x@),
        b2.rules@.map_values(|x: Rule| x@),
        r1,
        r2,
        table,
        iterations,
        max_facts,
    );
}

} // verus!
