//! The stack machine that evaluates postfix expressions under bindings.
use vstd::prelude::*;
use crate::datalog::{
    Binary, Expression, Op, OpV, Term, TermV, Unary, copy_term, env_view, leaf_eq, leaf_view,
    lookup_var, term_eq, term_tag,
};
use crate::text::{ends_with, is_prefix, is_suffix, starts_with};

verus! {

/// What searching `text` for the regular expression `pattern` gives: `None`
/// when the pattern does not compile.
pub uninterp spec fn regex_result(pattern: Seq<char>, text: Seq<char>) -> Option<bool>;

/// Relies on `regex::Regex::new` to compile the pattern and on
/// `regex::Regex::is_match` to search the text: the compiled value is
/// opaque, so both calls stand in one wrapper whose result depends on the
/// pattern and the text alone.
#[verifier::external_body]
fn regex_match(pattern: &str, text: &str) -> (r: Option<bool>)
    ensures
        r == regex_result(pattern@, text@),
{
    match regex::Regex::new(pattern) {
        Ok(re) => Some(re.is_match(text)),
        Err(_) => None,
    }
}

/// The value an operand stands for: a variable must be bound.
pub open spec fn value_of(t: TermV, env: Map<u32, TermV>) -> Option<TermV> {
    match t {
        TermV::Variable(v) => if env.contains_key(v) {
            Some(env[v])
        } else {
            None
        },
        _ => Some(t),
    }
}

/// The result of a unary operator.
pub open spec fn unary_spec(u: Unary, t: TermV) -> Option<TermV> {
    match u {
        Unary::Negate => match t {
            TermV::Integer(i) => if i == i64::MIN {
                None
            } else {
                Some(TermV::Integer((-i) as i64))
            },
            _ => None,
        },
    }
}

/// The outcome of an ordering comparison.
pub open spec fn compare(b: Binary, x: int, y: int) -> bool {
    match b {
        Binary::LessThan => x < y,
        Binary::GreaterThan => x > y,
        Binary::LessOrEqual => x <= y,
        _ => x >= y,
    }
}

/// Whether `l` is among the members of the set `r`; `None` on a type
/// mismatch.
pub open spec fn membership(l: TermV, r: TermV) -> Option<bool> {
    match r {
        TermV::TermSet(ms) => if l is Variable || l is TermSet || (ms.len() > 0 && ms[0].tag()
            != l.tag()) {
            None
        } else {
            Some(ms.contains(l))
        },
        _ => None,
    }
}

/// The result of a binary operator on its two operands, in push order.
pub open spec fn binary_spec(b: Binary, l: TermV, r: TermV) -> Option<TermV> {
    match b {
        Binary::LessThan | Binary::GreaterThan | Binary::LessOrEqual | Binary::GreaterOrEqual => {
            match (l, r) {
                (TermV::Integer(x), TermV::Integer(y)) => Some(
                    TermV::Bool(compare(b, x as int, y as int)),
                ),
                (TermV::Date(x), TermV::Date(y)) => Some(TermV::Bool(compare(b, x as int, y as int))),
                _ => None,
            }
        },
        Binary::Equal => if l.tag() == r.tag() {
            Some(TermV::Bool(l == r))
        } else {
            None
        },
        Binary::In => match membership(l, r) {
            Some(m) => Some(TermV::Bool(m)),
            None => None,
        },
        Binary::NotIn => match membership(l, r) {
            Some(m) => Some(TermV::Bool(!m)),
            None => None,
        },
        Binary::Prefix => match (l, r) {
            (TermV::Str(s), TermV::Str(p)) => Some(TermV::Bool(is_prefix(p, s))),
            _ => None,
        },
        Binary::Suffix => match (l, r) {
            (TermV::Str(s), TermV::Str(p)) => Some(TermV::Bool(is_suffix(p, s))),
            _ => None,
        },
        Binary::Regex => match (l, r) {
            (TermV::Str(s), TermV::Str(p)) => match regex_result(p, s) {
                Some(m) => Some(TermV::Bool(m)),
                None => None,
            },
            _ => None,
        },
        Binary::Add => match (l, r) {
            (TermV::Integer(x), TermV::Integer(y)) => if i64::MIN <= x + y <= i64::MAX {
                Some(TermV::Integer((x + y) as i64))
            } else {
                None
            },
            _ => None,
        },
        Binary::And => match (l, r) {
            (TermV::Bool(x), TermV::Bool(y)) => Some(TermV::Bool(x && y)),
            _ => None,
        },
    }
}

/// The stack after one instruction, or `None` when it fails.
pub open spec fn step_spec(op: OpV, stack: Seq<TermV>, env: Map<u32, TermV>) -> Option<
    Seq<TermV>,
> {
    match op {
        OpV::Value(t) => match value_of(t, env) {
            Some(v) => Some(stack.push(v)),
            None => None,
        },
        OpV::Unary(u) => if stack.len() >= 1 {
            match unary_spec(u, stack.last()) {
                Some(v) => Some(stack.drop_last().push(v)),
                None => None,
            }
        } else {
            None
        },
        OpV::Binary(b) => if stack.len() >= 2 {
            match binary_spec(b, stack[stack.len() - 2], stack[stack.len() - 1]) {
                Some(v) => Some(stack.subrange(0, stack.len() - 2).push(v)),
                None => None,
            }
        } else {
            None
        },
    }
}

/// The stack after running all instructions from an empty stack.
pub open spec fn run_ops(ops: Seq<OpV>, env: Map<u32, TermV>) -> Option<Seq<TermV>>
    decreases ops.len(),
{
    if ops.len() == 0 {
        Some(Seq::empty())
    } else {
        match run_ops(ops.drop_last(), env) {
            Some(st) => step_spec(ops.last(), st, env),
            None => None,
        }
    }
}

/// The value of an expression: the single value left on the stack.
pub open spec fn evaluate_spec(ops: Seq<OpV>, env: Map<u32, TermV>) -> Option<TermV> {
    match run_ops(ops, env) {
        Some(st) => if st.len() == 1 {
            Some(st[0])
        } else {
            None
        },
        None => None,
    }
}

/// Whether an expression evaluates to `true`; a failure counts as false.
pub open spec fn holds(ops: Seq<OpV>, env: Map<u32, TermV>) -> bool {
    evaluate_spec(ops, env) == Some(TermV::Bool(true))
}

/// Ordering comparison of two integers.
fn compare_exec(b: Binary, x: i64, y: i64) -> (r: bool)
    ensures
        r == compare(b, x as int, y as int),
{
    match b {
        Binary::LessThan => x < y,
        Binary::GreaterThan => x > y,
        Binary::LessOrEqual => x <= y,
        _ => x >= y,
    }
}

/// Decides [`membership`].
pub fn member_of(l: &Term, r: &Term) -> (res: Option<bool>)
    ensures
        res == membership(l@, r@),
{
    match r {
        Term::TermSet(ms) => {
            let ghost mv = ms@.map_values(|m: Term| leaf_view(m));
            assert(r@ == TermV::TermSet(mv));
            match l {
                Term::Variable(_) => {
                    return None;
                },
                Term::TermSet(_) => {
                    return None;
                },
                _ => {},
            }
            assert(l@ == leaf_view(*l));
            if ms.len() > 0 && term_tag(&ms[0]) != term_tag(l) {
                assert(mv[0] == leaf_view(ms@[0]));
                assert(ms@[0]@.tag() == leaf_view(ms@[0]).tag());
                return None;
            }
            if ms.len() > 0 {
                assert(ms@[0]@.tag() == leaf_view(ms@[0]).tag());
            }
            let mut i: usize = 0;
            while i < ms.len()
                invariant
                    i <= ms.len(),
                    mv == ms@.map_values(|m: Term| leaf_view(m)),
                    r@ == TermV::TermSet(mv),
                    l@ == leaf_view(*l),
                    !(l@ is Variable) && !(l@ is TermSet),
                    !(mv.len() > 0 && mv[0].tag() != l@.tag()),
                    forall|k: int| 0 <= k < i ==> mv[k] != l@,
                decreases ms.len() - i,
            {
                if leaf_eq(&ms[i], l) {
                    assert(mv[i as int] == l@);
                    return Some(true);
                }
                i = i + 1;
            }
            Some(false)
        },
        _ => None,
    }
}

/// Applies a unary operator.
pub fn apply_unary(u: Unary, t: &Term) -> (r: Option<Term>)
    ensures
        match r {
            Some(v) => unary_spec(u, t@) == Some(v@),
            None => unary_spec(u, t@) is None,
        },
{
    match u {
        Unary::Negate => match t {
            Term::Integer(i) => if *i == i64::MIN {
                None
            } else {
                Some(Term::Integer(-*i))
            },
            _ => None,
        },
    }
}

/// Applies a binary operator to its operands, in push order.
pub fn apply_binary(b: Binary, l: &Term, r: &Term) -> (res: Option<Term>)
    ensures
        match res {
            Some(v) => binary_spec(b, l@, r@) == Some(v@),
            None => binary_spec(b, l@, r@) is None,
        },
{
    match b {
        Binary::LessThan | Binary::GreaterThan | Binary::LessOrEqual | Binary::GreaterOrEqual => {
            match (l, r) {
                (Term::Integer(x), Term::Integer(y)) => Some(
                    Term::Bool(compare_exec(b, *x, *y)),
                ),
                (Term::Date(x), Term::Date(y)) => {
                    let c = match b {
                        Binary::LessThan => *x < *y,
                        Binary::GreaterThan => *x > *y,
                        Binary::LessOrEqual => *x <= *y,
                        _ => *x >= *y,
                    };
                    Some(Term::Bool(c))
                },
                _ => None,
            }
        },
        Binary::Equal => if term_tag(l) == term_tag(r) {
            Some(Term::Bool(term_eq(l, r)))
        } else {
            None
        },
        Binary::In => match member_of(l, r) {
            Some(m) => Some(Term::Bool(m)),
            None => None,
        },
        Binary::NotIn => match member_of(l, r) {
            Some(m) => Some(Term::Bool(!m)),
            None => None,
        },
        Binary::Prefix => match (l, r) {
            (Term::Str(s), Term::Str(p)) => Some(Term::Bool(starts_with(s.as_str(), p.as_str()))),
            _ => None,
        },
        Binary::Suffix => match (l, r) {
            (Term::Str(s), Term::Str(p)) => Some(Term::Bool(ends_with(s.as_str(), p.as_str()))),
            _ => None,
        },
        Binary::Regex => match (l, r) {
            (Term::Str(s), Term::Str(p)) => match regex_match(p.as_str(), s.as_str()) {
                Some(m) => Some(Term::Bool(m)),
                None => None,
            },
            _ => None,
        },
        Binary::Add => match (l, r) {
            (Term::Integer(x), Term::Integer(y)) => {
                if (*y > 0 && *x > i64::MAX - *y) || (*y < 0 && *x < i64::MIN - *y) {
                    None
                } else {
                    Some(Term::Integer(*x + *y))
                }
            },
            _ => None,
        },
        Binary::And => match (l, r) {
            (Term::Bool(x), Term::Bool(y)) => Some(Term::Bool(*x && *y)),
            _ => None,
        },
    }
}

/// The values of a stack.
pub open spec fn stack_view(s: Seq<Term>) -> Seq<TermV> {
    s.map_values(|t: Term| t@)
}

/// Once a prefix of the instructions fails, the whole sequence fails.
proof fn lemma_run_fails(ops: Seq<OpV>, env: Map<u32, TermV>, i: int)
    requires
        0 <= i <= ops.len(),
        run_ops(ops.subrange(0, i), env) is None,
    ensures
        run_ops(ops, env) is None,
    decreases ops.len() - i,
{
    if i < ops.len() {
        assert(ops.subrange(0, i + 1).drop_last() =~= ops.subrange(0, i));
        lemma_run_fails(ops, env, i + 1);
    } else {
        assert(ops.subrange(0, i) =~= ops);
    }
}

/// Evaluates an expression under the bindings `env`: the single value left
/// on the stack, or `None` on an unbound variable, a type mismatch, an
/// overflow or a malformed instruction sequence.
pub fn evaluate(e: &Expression, env: &Vec<(u32, Term)>) -> (r: Option<Term>)
    ensures
        match r {
            Some(v) => evaluate_spec(e@, env_view(env@)) == Some(v@),
            None => evaluate_spec(e@, env_view(env@)) is None,
        },
{
    let ghost ev = env_view(env@);
    let mut stack: Vec<Term> = Vec::new();
    let mut i: usize = 0;
    while i < e.ops.len()
        invariant
            i <= e.ops.len(),
            ev == env_view(env@),
            run_ops(e@.subrange(0, i as int), ev) == Some(stack_view(stack@)),
        decreases e.ops.len() - i,
    {
        let ghost pre = e@.subrange(0, i as int);
        let ghost cur = e@.subrange(0, i + 1);
        assert(cur.drop_last() =~= pre);
        assert(cur.last() == e.ops@[i as int]@);
        let ghost st = stack_view(stack@);
        match &e.ops[i] {
            Op::Value(t) => {
                let v = match t {
                    Term::Variable(var) => match lookup_var(env, *var) {
                        Some(v) => v,
                        None => {
                            proof {
                                lemma_run_fails(e@, ev, i + 1);
                            }
                            return None;
                        },
                    },
                    _ => copy_term(t),
                };
                stack.push(v);
                assert(stack_view(stack@) =~= st.push(v@));
            },
            Op::Unary(u) => {
                if stack.len() < 1 {
                    proof {
                        lemma_run_fails(e@, ev, i + 1);
                    }
                    return None;
                }
                let top = stack.pop().unwrap();
                assert(stack_view(stack@) =~= st.drop_last());
                match apply_unary(*u, &top) {
                    Some(v) => {
                        stack.push(v);
                        assert(stack_view(stack@) =~= st.drop_last().push(v@));
                    },
                    None => {
                        proof {
                            lemma_run_fails(e@, ev, i + 1);
                        }
                        return None;
                    },
                }
            },
            Op::Binary(b) => {
                if stack.len() < 2 {
                    proof {
                        lemma_run_fails(e@, ev, i + 1);
                    }
                    return None;
                }
                let right = stack.pop().unwrap();
                let left = stack.pop().unwrap();
                assert(stack_view(stack@) =~= st.subrange(0, st.len() - 2));
                match apply_binary(*b, &left, &right) {
                    Some(v) => {
                        stack.push(v);
                        assert(stack_view(stack@) =~= st.subrange(0, st.len() - 2).push(v@));
                    },
                    None => {
                        proof {
                            lemma_run_fails(e@, ev, i + 1);
                        }
                        return None;
                    },
                }
            },
        }
        i = i + 1;
    }
    assert(e@.subrange(0, e@.len() as int) =~= e@);
    if stack.len() == 1 {
        let v = stack.pop().unwrap();
        Some(v)
    } else {
        None
    }
}

/// Whether an expression evaluates to `true` under `env`.
pub fn expression_holds(e: &Expression, env: &Vec<(u32, Term)>) -> (r: bool)
    ensures
        r == holds(e@, env_view(env@)),
{
    match evaluate(e, env) {
        Some(Term::Bool(b)) => b,
        _ => false,
    }
}

} // verus!
