//! The datalog text of builder values: terms, predicates, expressions,
//! rules and caveats, as the parser reads them.
use vstd::prelude::*;
use crate::builder::{
    BytesConstraint, Caveat, Constraint, ConstraintKind, DateConstraint, Expression, Fact,
    IntConstraint, NamedOpV, NamedPredV, NamedRuleV, NamedV, Op, Predicate, Rule, StrConstraint,
    SymbolConstraint, Term, leaf_view,
};
use crate::datalog::{Binary, Unary};
use crate::text::{chars_of, string_from_chars};

verus! {

/// A lowercase hexadecimal digit.
pub open spec fn hex_digit(n: int) -> char {
    seq!['0', '1', '2', '3', '4', '5', '6', '7', '8', '9', 'a', 'b', 'c', 'd', 'e', 'f'][n]
}

/// Two lowercase hexadecimal digits per byte, high digit first.
pub open spec fn hex_text(b: Seq<u8>) -> Seq<char>
    decreases b.len(),
{
    if b.len() == 0 {
        Seq::empty()
    } else {
        hex_text(b.drop_last()) + seq![hex_digit((b.last() / 16) as int), hex_digit((b.last() % 16) as int)]
    }
}

/// Relies on `hex::encode`: two lowercase digits per byte, high digit first.
#[verifier::external_body]
fn hex_encode(b: &Vec<u8>) -> (r: String)
    ensures
        r@ == hex_text(b@),
{
    hex::encode(b)
}

/// The RFC 3339 text, in UTC, of a date in seconds since the Unix epoch;
/// `None` past the calendar's range.
pub uninterp spec fn rfc3339_text(secs: u64) -> Option<Seq<char>>;

/// Relies on `chrono::DateTime::<Utc>::from_timestamp` to place the seconds
/// on the calendar and on `DateTime::to_rfc3339` to write the date.
#[verifier::external_body]
fn format_rfc3339(secs: u64) -> (r: Option<String>)
    ensures
        match r {
            Some(s) => rfc3339_text(secs) == Some(s@),
            None => rfc3339_text(secs) is None,
        },
{
    match i64::try_from(secs) {
        Ok(s) => match chrono::DateTime::<chrono::Utc>::from_timestamp(s, 0) {
            Some(d) => Some(d.to_rfc3339()),
            None => None,
        },
        Err(_) => None,
    }
}

/// A decimal digit.
pub open spec fn dec_digit(n: int) -> char {
    seq!['0', '1', '2', '3', '4', '5', '6', '7', '8', '9'][n]
}

/// The decimal digits of a natural number.
pub open spec fn digits_text(n: nat) -> Seq<char>
    decreases n,
{
    if n < 10 {
        seq![dec_digit(n as int)]
    } else {
        digits_text(n / 10) + seq![dec_digit((n % 10) as int)]
    }
}

/// The decimal text of an integer, with a minus sign when negative.
pub open spec fn decimal_text(i: int) -> Seq<char> {
    if i < 0 {
        seq!['-'] + digits_text((-i) as nat)
    } else {
        digits_text(i as nat)
    }
}

/// The parts joined by `sep`.
pub open spec fn join(parts: Seq<Seq<char>>, sep: Seq<char>) -> Seq<char>
    decreases parts.len(),
{
    if parts.len() == 0 {
        Seq::empty()
    } else if parts.len() == 1 {
        parts[0]
    } else {
        join(parts.drop_last(), sep) + sep + parts.last()
    }
}

/// The text of a term read as a set member.
pub open spec fn leaf_text(t: NamedV) -> Seq<char> {
    match t {
        NamedV::Symbol(s) => seq!['#'] + s,
        NamedV::Variable(s) => seq!['$'] + s,
        NamedV::Integer(i) => decimal_text(i as int),
        NamedV::Str(s) => seq!['"'] + s + seq!['"'],
        NamedV::Date(d) => match rfc3339_text(d) {
            Some(text) => text,
            None => decimal_text(d as int),
        },
        NamedV::Bytes(b) => "hex:"@ + hex_text(b),
        NamedV::Bool(b) => if b {
            "true"@
        } else {
            "false"@
        },
        NamedV::TermSet(_) => "[]"@,
    }
}

/// The text of a term; a set lists its members between brackets.
pub open spec fn term_text(t: NamedV) -> Seq<char> {
    match t {
        NamedV::TermSet(ms) => seq!['['] + join(ms.map_values(|m: NamedV| leaf_text(m)), ", "@) + seq![']'],
        _ => leaf_text(t),
    }
}

/// The text of a predicate: its name and its terms in parentheses.
pub open spec fn pred_text(p: NamedPredV) -> Seq<char> {
    p.name + seq!['('] + join(p.terms.map_values(|t: NamedV| term_text(t)), ", "@) + seq![')']
}

fn dec_char(d: u64) -> (r: char)
    requires
        d < 10,
    ensures
        r == dec_digit(d as int),
{
    if d == 0 { '0' } else if d == 1 { '1' } else if d == 2 { '2' } else if d == 3 { '3' } else if d == 4 { '4' }
    else if d == 5 { '5' } else if d == 6 { '6' } else if d == 7 { '7' } else if d == 8 { '8' } else { '9' }
}

/// Appends the characters of `s`.
fn push_str(out: &mut Vec<char>, s: &str)
    ensures
        final(out)@ == old(out)@ + s@,
{
    let cs = chars_of(s);
    let mut i: usize = 0;
    while i < cs.len()
        invariant
            i <= cs.len(),
            cs@ == s@,
            out@ == old(out)@ + cs@.subrange(0, i as int),
        decreases cs.len() - i,
    {
        out.push(cs[i]);
        assert(cs@.subrange(0, i + 1) =~= cs@.subrange(0, i as int).push(cs@[i as int]));
        assert(out@ =~= old(out)@ + cs@.subrange(0, i + 1));
        i = i + 1;
    }
    assert(cs@.subrange(0, cs@.len() as int) =~= cs@);
}

/// Appends the decimal digits of `n`.
fn push_digits(out: &mut Vec<char>, n: u64)
    ensures
        final(out)@ == old(out)@ + digits_text(n as nat),
    decreases n,
{
    if n >= 10 {
        push_digits(out, n / 10);
    }
    let ghost mid = out@;
    out.push(dec_char(n % 10));
    if n >= 10 {
        assert(out@ =~= old(out)@ + digits_text(n as nat));
    } else {
        assert(n % 10 == n);
        assert(out@ =~= old(out)@ + digits_text(n as nat));
    }
}

/// Appends the decimal text of `i`.
fn push_decimal(out: &mut Vec<char>, i: i64)
    ensures
        final(out)@ == old(out)@ + decimal_text(i as int),
{
    if i < 0 {
        out.push('-');
        let ghost mid = out@;
        let m: u64 = (-(i as i128)) as u64;
        push_digits(out, m);
        assert(out@ =~= old(out)@ + decimal_text(i as int));
    } else {
        push_digits(out, i as u64);
    }
}

/// Appends the text of a term read as a set member.
fn push_leaf(out: &mut Vec<char>, t: &Term)
    ensures
        final(out)@ == old(out)@ + leaf_text(leaf_view(*t)),
{
    match t {
        Term::Symbol(s) => {
            out.push('#');
            let ghost mid = out@;
            push_str(out, s.as_str());
            assert(out@ =~= old(out)@ + leaf_text(leaf_view(*t)));
        },
        Term::Variable(s) => {
            out.push('$');
            push_str(out, s.as_str());
            assert(out@ =~= old(out)@ + leaf_text(leaf_view(*t)));
        },
        Term::Integer(i) => push_decimal(out, *i),
        Term::Str(s) => {
            out.push('"');
            push_str(out, s.as_str());
            out.push('"');
            assert(out@ =~= old(out)@ + leaf_text(leaf_view(*t)));
        },
        Term::Date(d) => match format_rfc3339(*d) {
            Some(text) => push_str(out, text.as_str()),
            None => {
                push_digits(out, *d);
                assert(decimal_text(*d as int) == digits_text(*d as nat));
            },
        },
        Term::Bytes(b) => {
            push_str(out, "hex:");
            let h = hex_encode(b);
            push_str(out, h.as_str());
            assert(out@ =~= old(out)@ + leaf_text(leaf_view(*t)));
        },
        Term::Bool(b) => {
            if *b {
                push_str(out, "true");
            } else {
                push_str(out, "false");
            }
        },
        Term::TermSet(_) => push_str(out, "[]"),
    }
}

/// Appends the text of a term.
fn push_term(out: &mut Vec<char>, t: &Term)
    ensures
        final(out)@ == old(out)@ + term_text(t@),
{
    match t {
        Term::TermSet(ms) => {
            let ghost parts = ms@.map_values(|m: Term| leaf_view(m)).map_values(|m: NamedV| leaf_text(m));
            out.push('[');
            let ghost start = out@;
            let mut i: usize = 0;
            while i < ms.len()
                invariant
                    i <= ms.len(),
                    parts == ms@.map_values(|m: Term| leaf_view(m)).map_values(|m: NamedV| leaf_text(m)),
                    out@ == start + join(parts.subrange(0, i as int), ", "@),
                decreases ms.len() - i,
            {
                let ghost before = out@;
                if i > 0 {
                    push_str(out, ", ");
                }
                push_leaf(out, &ms[i]);
                assert(parts[i as int] == leaf_text(leaf_view(ms@[i as int])));
                let ghost sub = parts.subrange(0, i + 1);
                assert(sub.drop_last() =~= parts.subrange(0, i as int));
                if i == 0 {
                    assert(out@ =~= start + join(sub, ", "@));
                } else {
                    assert(out@ =~= start + join(sub, ", "@));
                }
                i = i + 1;
            }
            assert(parts.subrange(0, i as int) =~= parts);
            out.push(']');
            assert(out@ =~= old(out)@ + term_text(t@));
        },
        _ => push_leaf(out, t),
    }
}

/// Appends the text of a predicate.
fn push_pred(out: &mut Vec<char>, p: &Predicate)
    ensures
        final(out)@ == old(out)@ + pred_text(p@),
{
    let ghost parts = p@.terms.map_values(|t: NamedV| term_text(t));
    push_str(out, p.name.as_str());
    out.push('(');
    let ghost start = out@;
    let mut i: usize = 0;
    while i < p.ids.len()
        invariant
            i <= p.ids.len(),
            parts == p@.terms.map_values(|t: NamedV| term_text(t)),
            out@ == start + join(parts.subrange(0, i as int), ", "@),
        decreases p.ids.len() - i,
    {
        if i > 0 {
            push_str(out, ", ");
        }
        push_term(out, &p.ids[i]);
        assert(parts[i as int] == term_text(p.ids@[i as int]@));
        let ghost sub = parts.subrange(0, i + 1);
        assert(sub.drop_last() =~= parts.subrange(0, i as int));
        assert(out@ =~= start + join(sub, ", "@));
        i = i + 1;
    }
    assert(parts.subrange(0, i as int) =~= parts);
    out.push(')');
    assert(out@ =~= old(out)@ + pred_text(p@));
}

impl Term {
    /// The datalog text of the term.
    pub fn print(&self) -> (r: String)
        ensures
            r@ == term_text(self@),
    {
        let mut out: Vec<char> = Vec::new();
        push_term(&mut out, self);
        assert(out@ =~= term_text(self@));
        string_from_chars(out.as_slice())
    }
}

impl Predicate {
    /// The datalog text of the predicate.
    pub fn print(&self) -> (r: String)
        ensures
            r@ == pred_text(self@),
    {
        let mut out: Vec<char> = Vec::new();
        push_pred(&mut out, self);
        assert(out@ =~= pred_text(self@));
        string_from_chars(out.as_slice())
    }
}

impl Fact {
    /// The datalog text of the fact.
    pub fn print(&self) -> (r: String)
        ensures
            r@ == pred_text(self.0@),
    {
        self.0.print()
    }
}

/// The text of a binary operator.
pub open spec fn op_text(b: Binary) -> Seq<char> {
    match b {
        Binary::LessThan => "<"@,
        Binary::GreaterThan => ">"@,
        Binary::LessOrEqual => "<="@,
        Binary::GreaterOrEqual => ">="@,
        Binary::Equal => "=="@,
        Binary::In => "in"@,
        Binary::NotIn => "not in"@,
        Binary::Prefix => "starts with"@,
        Binary::Suffix => "ends with"@,
        Binary::Regex => "matches"@,
        Binary::Add => "+"@,
        Binary::And => "&&"@,
    }
}

/// The texts on the stack after one instruction: operands are pushed,
/// operators combine the texts of their operands in infix order.
pub open spec fn render_step(op: NamedOpV, st: Seq<Seq<char>>) -> Option<Seq<Seq<char>>> {
    match op {
        NamedOpV::Value(t) => Some(st.push(term_text(t))),
        NamedOpV::Unary(_) => if st.len() >= 1 {
            Some(st.drop_last().push(seq!['-'] + st.last()))
        } else {
            None
        },
        NamedOpV::Binary(b) => if st.len() >= 2 {
            Some(
                st.subrange(0, st.len() - 2).push(
                    st[st.len() - 2] + seq![' '] + op_text(b) + seq![' '] + st[st.len() - 1],
                ),
            )
        } else {
            None
        },
    }
}

/// The stack of texts after all instructions.
pub open spec fn render_ops(ops: Seq<NamedOpV>) -> Option<Seq<Seq<char>>>
    decreases ops.len(),
{
    if ops.len() == 0 {
        Some(Seq::empty())
    } else {
        match render_ops(ops.drop_last()) {
            Some(st) => render_step(ops.last(), st),
            None => None,
        }
    }
}

/// The infix text of postfix instructions; `None` when they do not leave
/// exactly one value.
pub open spec fn expression_text(ops: Seq<NamedOpV>) -> Option<Seq<char>> {
    match render_ops(ops) {
        Some(st) => if st.len() == 1 {
            Some(st[0])
        } else {
            None
        },
        None => None,
    }
}

/// The texts of a list of expressions, when each has one.
pub open spec fn expressions_text(es: Seq<Seq<NamedOpV>>) -> Option<Seq<Seq<char>>> {
    if forall|i: int| 0 <= i < es.len() ==> (#[trigger] expression_text(es[i])) is Some {
        Some(Seq::new(es.len(), |i: int| expression_text(es[i])->0))
    } else {
        None
    }
}

/// The text of a rule: `head <- body`, then ` @ expressions` when it has
/// any.
pub open spec fn rule_text(r: NamedRuleV) -> Option<Seq<char>> {
    match expressions_text(r.expressions) {
        Some(xs) => Some(
            pred_text(r.head) + " <- "@ + join(r.body.map_values(|p: NamedPredV| pred_text(p)), ", "@)
                + if xs.len() > 0 { " @ "@ + join(xs, ", "@) } else { Seq::empty() },
        ),
        None => None,
    }
}

/// The text of a caveat: its queries joined by `||`.
pub open spec fn caveat_text(qs: Seq<NamedRuleV>) -> Option<Seq<char>> {
    if forall|i: int| 0 <= i < qs.len() ==> (#[trigger] rule_text(qs[i])) is Some {
        Some(join(Seq::new(qs.len(), |i: int| rule_text(qs[i])->0), " || "@))
    } else {
        None
    }
}

fn op_str(b: Binary) -> (r: &'static str)
    ensures
        r@ == op_text(b),
{
    match b {
        Binary::LessThan => "<",
        Binary::GreaterThan => ">",
        Binary::LessOrEqual => "<=",
        Binary::GreaterOrEqual => ">=",
        Binary::Equal => "==",
        Binary::In => "in",
        Binary::NotIn => "not in",
        Binary::Prefix => "starts with",
        Binary::Suffix => "ends with",
        Binary::Regex => "matches",
        Binary::Add => "+",
        Binary::And => "&&",
    }
}

/// Once a prefix of the instructions cannot be rendered, none of them can.
proof fn lemma_render_fails(ops: Seq<NamedOpV>, i: int)
    requires
        0 <= i <= ops.len(),
        render_ops(ops.subrange(0, i)) is None,
    ensures
        render_ops(ops) is None,
    decreases ops.len() - i,
{
    if i < ops.len() {
        assert(ops.subrange(0, i + 1).drop_last() =~= ops.subrange(0, i));
        lemma_render_fails(ops, i + 1);
    } else {
        assert(ops.subrange(0, i) =~= ops);
    }
}

/// The texts of a stack.
pub open spec fn texts(st: Seq<Vec<char>>) -> Seq<Seq<char>> {
    st.map_values(|v: Vec<char>| v@)
}

impl Expression {
    /// The infix text of the expression, when its instructions leave
    /// exactly one value.
    pub fn print(&self) -> (r: Option<String>)
        ensures
            match r {
                Some(s) => expression_text(self@) == Some(s@),
                None => expression_text(self@) is None,
            },
    {
        let ghost ops = self@;
        let mut stack: Vec<Vec<char>> = Vec::new();
        let mut i: usize = 0;
        assert(ops.subrange(0, 0).len() == 0);
        assert(texts(stack@) =~= Seq::<Seq<char>>::empty());
        while i < self.ops.len()
            invariant
                i <= self.ops.len(),
                ops == self@,
                render_ops(ops.subrange(0, i as int)) == Some(texts(stack@)),
            decreases self.ops.len() - i,
        {
            let ghost cur = ops.subrange(0, i + 1);
            assert(cur.drop_last() =~= ops.subrange(0, i as int));
            assert(cur.last() == self.ops@[i as int]@);
            let ghost st = texts(stack@);
            match &self.ops[i] {
                Op::Value(t) => {
                    let mut v: Vec<char> = Vec::new();
                    push_term(&mut v, t);
                    assert(v@ =~= term_text(t@));
                    stack.push(v);
                    assert(texts(stack@) =~= st.push(term_text(t@)));
                },
                Op::Unary(_) => {
                    if stack.len() < 1 {
                        proof {
                            lemma_render_fails(ops, i + 1);
                        }
                        return None;
                    }
                    let mut top = stack.pop().unwrap();
                    assert(texts(stack@) =~= st.drop_last());
                    let mut v: Vec<char> = Vec::new();
                    v.push('-');
                    v.append(&mut top);
                    assert(v@ =~= seq!['-'] + st.last());
                    stack.push(v);
                    assert(texts(stack@) =~= st.drop_last().push(seq!['-'] + st.last()));
                },
                Op::Binary(b) => {
                    if stack.len() < 2 {
                        proof {
                            lemma_render_fails(ops, i + 1);
                        }
                        return None;
                    }
                    let mut right = stack.pop().unwrap();
                    let mut v = stack.pop().unwrap();
                    assert(texts(stack@) =~= st.subrange(0, st.len() - 2));
                    v.push(' ');
                    push_str(&mut v, op_str(*b));
                    v.push(' ');
                    v.append(&mut right);
                    assert(v@ =~= st[st.len() - 2] + seq![' '] + op_text(*b) + seq![' '] + st[st.len() - 1]);
                    stack.push(v);
                    assert(texts(stack@) =~= st.subrange(0, st.len() - 2).push(
                        st[st.len() - 2] + seq![' '] + op_text(*b) + seq![' '] + st[st.len() - 1],
                    ));
                },
            }
            i = i + 1;
        }
        assert(ops.subrange(0, i as int) =~= ops);
        if stack.len() == 1 {
            let v = stack.pop().unwrap();
            Some(string_from_chars(v.as_slice()))
        } else {
            None
        }
    }
}

/// Appends `sep` unless `first`, then `part`.
fn push_part(out: &mut Vec<char>, first: bool, sep: &str, part: &str)
    ensures
        final(out)@ == old(out)@ + (if first { Seq::empty() } else { sep@ }) + part@,
{
    if !first {
        push_str(out, sep);
    }
    let ghost mid = out@;
    push_str(out, part);
    if first {
        assert(final(out)@ =~= old(out)@ + Seq::<char>::empty() + part@);
    }
}

/// Joining one more part.
proof fn lemma_join_push(parts: Seq<Seq<char>>, sep: Seq<char>, i: int)
    requires
        0 <= i < parts.len(),
    ensures
        join(parts.subrange(0, i + 1), sep) == join(parts.subrange(0, i), sep) + (if i == 0 { Seq::empty() } else { sep }) + parts[i],
{
    let sub = parts.subrange(0, i + 1);
    assert(sub.drop_last() =~= parts.subrange(0, i));
    if i == 0 {
        assert(join(sub, sep) == parts[0]);
        assert(join(parts.subrange(0, 0), sep) =~= Seq::<char>::empty());
        assert(Seq::<char>::empty() + Seq::<char>::empty() + parts[0] =~= parts[0]);
    }
}

/// Appends `parts` joined by `sep`.
fn push_joined(out: &mut Vec<char>, parts: &Vec<Vec<char>>, sep: &str)
    ensures
        final(out)@ == old(out)@ + join(parts@.map_values(|v: Vec<char>| v@), sep@),
{
    let ghost pv = parts@.map_values(|v: Vec<char>| v@);
    let mut i: usize = 0;
    assert(old(out)@ + join(pv.subrange(0, 0), sep@) =~= old(out)@);
    while i < parts.len()
        invariant
            i <= parts.len(),
            pv == parts@.map_values(|v: Vec<char>| v@),
            out@ == old(out)@ + join(pv.subrange(0, i as int), sep@),
        decreases parts.len() - i,
    {
        if i > 0 {
            push_str(out, sep);
        }
        let ghost mid = out@;
        let mut j: usize = 0;
        while j < parts[i].len()
            invariant
                i < parts.len(),
                j <= parts@[i as int]@.len(),
                out@ == mid + parts@[i as int]@.subrange(0, j as int),
            decreases parts@[i as int]@.len() - j,
        {
            out.push(parts[i][j]);
            assert(parts@[i as int]@.subrange(0, j + 1) =~= parts@[i as int]@.subrange(0, j as int).push(parts@[i as int]@[j as int]));
            assert(out@ =~= mid + parts@[i as int]@.subrange(0, j + 1));
            j = j + 1;
        }
        assert(parts@[i as int]@.subrange(0, j as int) =~= parts@[i as int]@);
        proof {
            lemma_join_push(pv, sep@, i as int);
        }
        assert(out@ =~= old(out)@ + join(pv.subrange(0, i + 1), sep@));
        i = i + 1;
    }
    assert(pv.subrange(0, i as int) =~= pv);
}

impl Rule {
    /// The datalog text of the rule, when each of its expressions has one.
    pub fn print(&self) -> (r: Option<String>)
        ensures
            match r {
                Some(s) => rule_text(self@) == Some(s@),
                None => rule_text(self@) is None,
            },
    {
        let mut xs: Vec<Vec<char>> = Vec::new();
        let mut k: usize = 0;
        while k < self.2.len()
            invariant
                k <= self.2.len(),
                xs@.len() == k,
                forall|j: int| 0 <= j < k ==> expression_text(self@.expressions[j]) == Some(#[trigger] xs@[j]@),
            decreases self.2.len() - k,
        {
            assert(self@.expressions[k as int] == self.2@[k as int]@);
            match self.2[k].print() {
                Some(x) => {
                    xs.push(chars_of(x.as_str()));
                },
                None => {
                    assert(!(forall|j: int| 0 <= j < self@.expressions.len() ==> (#[trigger] expression_text(self@.expressions[j])) is Some));
                    return None;
                },
            }
            k = k + 1;
        }
        let ghost xt = Seq::new(self@.expressions.len(), |j: int| expression_text(self@.expressions[j])->0);
        assert forall|j: int| 0 <= j < self@.expressions.len() implies (#[trigger] expression_text(self@.expressions[j])) is Some by {
            assert(expression_text(self@.expressions[j]) == Some(xs@[j]@));
        }
        assert(expressions_text(self@.expressions) == Some(xt));
        assert(xs@.map_values(|v: Vec<char>| v@) =~= xt);
        let mut body: Vec<Vec<char>> = Vec::new();
        let mut i: usize = 0;
        while i < self.1.len()
            invariant
                i <= self.1.len(),
                body@.len() == i,
                forall|j: int| 0 <= j < i ==> (#[trigger] body@[j])@ == pred_text(self.1@[j]@),
            decreases self.1.len() - i,
        {
            let mut v: Vec<char> = Vec::new();
            push_pred(&mut v, &self.1[i]);
            assert(v@ =~= pred_text(self.1@[i as int]@));
            body.push(v);
            i = i + 1;
        }
        assert(body@.map_values(|v: Vec<char>| v@) =~= self@.body.map_values(|p: NamedPredV| pred_text(p)));
        let mut out: Vec<char> = Vec::new();
        push_pred(&mut out, &self.0);
        push_str(&mut out, " <- ");
        push_joined(&mut out, &body, ", ");
        if xs.len() > 0 {
            push_str(&mut out, " @ ");
            push_joined(&mut out, &xs, ", ");
        }
        assert(out@ =~= rule_text(self@)->0);
        Some(string_from_chars(out.as_slice()))
    }
}

impl Caveat {
    /// The datalog text of the caveat, when each query has one.
    pub fn print(&self) -> (r: Option<String>)
        ensures
            match r {
                Some(s) => caveat_text(self.queries_view()) == Some(s@),
                None => caveat_text(self.queries_view()) is None,
            },
    {
        let ghost qs = self.queries_view();
        let mut out: Vec<char> = Vec::new();
        let mut i: usize = 0;
        let ghost parts = Seq::new(qs.len(), |q: int| rule_text(qs[q])->0);
        assert(out@ =~= join(parts.subrange(0, 0), " || "@));
        while i < self.queries.len()
            invariant
                i <= self.queries.len(),
                qs == self.queries_view(),
                parts == Seq::new(qs.len(), |q: int| rule_text(qs[q])->0),
                forall|q: int| 0 <= q < i ==> (#[trigger] rule_text(qs[q])) is Some,
                out@ == join(parts.subrange(0, i as int), " || "@),
            decreases self.queries.len() - i,
        {
            assert(qs[i as int] == self.queries@[i as int]@);
            match self.queries[i].print() {
                Some(text) => {
                    push_part(&mut out, i == 0, " || ", text.as_str());
                    proof {
                        lemma_join_push(parts, " || "@, i as int);
                    }
                    assert(out@ =~= join(parts.subrange(0, i + 1), " || "@));
                },
                None => {
                    return None;
                },
            }
            i = i + 1;
        }
        assert(parts.subrange(0, i as int) =~= parts);
        Some(string_from_chars(out.as_slice()))
    }
}

/// Parts between braces, joined by commas.
pub open spec fn braces(parts: Seq<Seq<char>>) -> Seq<char> {
    seq!['{'] + join(parts, ", "@) + seq!['}']
}

/// Text between double quotes.
pub open spec fn quoted(s: Seq<char>) -> Seq<char> {
    seq!['"'] + s + seq!['"']
}

/// The RFC 3339 text of a date, or its seconds past the calendar's range.
pub open spec fn date_text(d: u64) -> Seq<char> {
    match rfc3339_text(d) {
        Some(t) => t,
        None => decimal_text(d as int),
    }
}

/// The operator and value of a constraint: comparisons with their
/// symbol, `matches p*` for a prefix, `matches *s` for a suffix,
/// `matches /r/` for a regular expression, and `in {..}` for sets.
pub open spec fn kind_text(k: ConstraintKind) -> Seq<char> {
    match k {
        ConstraintKind::Integer(c) => match c {
            IntConstraint::Lower(i) => "< "@ + decimal_text(i as int),
            IntConstraint::Larger(i) => "> "@ + decimal_text(i as int),
            IntConstraint::LowerOrEqual(i) => "<= "@ + decimal_text(i as int),
            IntConstraint::LargerOrEqual(i) => ">= "@ + decimal_text(i as int),
            IntConstraint::Equal(i) => "== "@ + decimal_text(i as int),
            IntConstraint::In(v) => "in "@ + braces(v@.map_values(|i: i64| decimal_text(i as int))),
            IntConstraint::NotIn(v) => "not in "@ + braces(v@.map_values(|i: i64| decimal_text(i as int))),
        },
        ConstraintKind::String(c) => match c {
            StrConstraint::Prefix(p) => "matches "@ + p@ + "*"@,
            StrConstraint::Suffix(x) => "matches *"@ + x@,
            StrConstraint::Equal(x) => "== "@ + x@,
            StrConstraint::Regex(x) => "matches /"@ + x@ + "/"@,
            StrConstraint::In(v) => "in "@ + braces(v@.map_values(|x: String| quoted(x@))),
            StrConstraint::NotIn(v) => "not in "@ + braces(v@.map_values(|x: String| quoted(x@))),
        },
        ConstraintKind::Date(c) => match c {
            DateConstraint::Before(d) => "<= "@ + date_text(d),
            DateConstraint::After(d) => ">= "@ + date_text(d),
        },
        ConstraintKind::Symbol(c) => match c {
            SymbolConstraint::In(v) => "in "@ + braces(v@.map_values(|x: String| quoted(x@))),
            SymbolConstraint::NotIn(v) => "not in "@ + braces(v@.map_values(|x: String| quoted(x@))),
        },
        ConstraintKind::Bytes(c) => match c {
            BytesConstraint::Equal(b) => "== "@ + hex_text(b@),
            BytesConstraint::In(v) => "in "@ + braces(v@.map_values(|b: Vec<u8>| quoted("hex:"@ + hex_text(b@)))),
            BytesConstraint::NotIn(v) => "not in "@ + braces(v@.map_values(|b: Vec<u8>| quoted("hex:"@ + hex_text(b@)))),
        },
    }
}

/// The text of a constraint: `$id`, then its operator and value.
pub open spec fn constraint_text(c: Constraint) -> Seq<char> {
    seq!['$'] + c.id@ + seq![' '] + kind_text(c.kind)
}

/// Appends the text of a date.
fn push_date(out: &mut Vec<char>, d: u64)
    ensures
        final(out)@ == old(out)@ + date_text(d),
{
    match format_rfc3339(d) {
        Some(text) => push_str(out, text.as_str()),
        None => push_digits(out, d),
    }
}

/// Appends `{a, b, ..}` of decimal integers.
fn push_int_set(out: &mut Vec<char>, v: &Vec<i64>)
    ensures
        final(out)@ == old(out)@ + braces(v@.map_values(|i: i64| decimal_text(i as int))),
{
    let mut parts: Vec<Vec<char>> = Vec::new();
    let mut k: usize = 0;
    while k < v.len()
        invariant
            k <= v.len(),
            parts@.len() == k,
            forall|j: int| 0 <= j < k ==> (#[trigger] parts@[j])@ == decimal_text(v@[j] as int),
        decreases v.len() - k,
    {
        let mut t: Vec<char> = Vec::new();
        push_decimal(&mut t, v[k]);
        assert(t@ =~= decimal_text(v@[k as int] as int));
        parts.push(t);
        k = k + 1;
    }
    assert(parts@.map_values(|x: Vec<char>| x@) =~= v@.map_values(|i: i64| decimal_text(i as int)));
    out.push('{');
    push_joined(out, &parts, ", ");
    out.push('}');
    assert(out@ =~= old(out)@ + braces(v@.map_values(|i: i64| decimal_text(i as int))));
}

/// Appends `{"a", "b", ..}` of quoted strings.
fn push_str_set(out: &mut Vec<char>, v: &Vec<String>)
    ensures
        final(out)@ == old(out)@ + braces(v@.map_values(|x: String| quoted(x@))),
{
    let mut parts: Vec<Vec<char>> = Vec::new();
    let mut k: usize = 0;
    while k < v.len()
        invariant
            k <= v.len(),
            parts@.len() == k,
            forall|j: int| 0 <= j < k ==> (#[trigger] parts@[j])@ == quoted(v@[j]@),
        decreases v.len() - k,
    {
        let mut t: Vec<char> = Vec::new();
        t.push('"');
        push_str(&mut t, v[k].as_str());
        t.push('"');
        assert(t@ =~= quoted(v@[k as int]@));
        parts.push(t);
        k = k + 1;
    }
    assert(parts@.map_values(|x: Vec<char>| x@) =~= v@.map_values(|x: String| quoted(x@)));
    out.push('{');
    push_joined(out, &parts, ", ");
    out.push('}');
    assert(out@ =~= old(out)@ + braces(v@.map_values(|x: String| quoted(x@))));
}

/// Appends `{"hex:..", ..}` of byte strings.
fn push_bytes_set(out: &mut Vec<char>, v: &Vec<Vec<u8>>)
    ensures
        final(out)@ == old(out)@ + braces(v@.map_values(|b: Vec<u8>| quoted("hex:"@ + hex_text(b@)))),
{
    let mut parts: Vec<Vec<char>> = Vec::new();
    let mut k: usize = 0;
    while k < v.len()
        invariant
            k <= v.len(),
            parts@.len() == k,
            forall|j: int| 0 <= j < k ==> (#[trigger] parts@[j])@ == quoted("hex:"@ + hex_text(v@[j]@)),
        decreases v.len() - k,
    {
        let mut t: Vec<char> = Vec::new();
        t.push('"');
        push_str(&mut t, "hex:");
        let h = hex_encode(&v[k]);
        push_str(&mut t, h.as_str());
        t.push('"');
        assert(t@ =~= quoted("hex:"@ + hex_text(v@[k as int]@)));
        parts.push(t);
        k = k + 1;
    }
    assert(parts@.map_values(|x: Vec<char>| x@) =~= v@.map_values(|b: Vec<u8>| quoted("hex:"@ + hex_text(b@))));
    out.push('{');
    push_joined(out, &parts, ", ");
    out.push('}');
    assert(out@ =~= old(out)@ + braces(v@.map_values(|b: Vec<u8>| quoted("hex:"@ + hex_text(b@)))));
}

/// Appends the operator and value of a constraint.
fn push_kind(out: &mut Vec<char>, k: &ConstraintKind)
    ensures
        final(out)@ == old(out)@ + kind_text(*k),
{
    let ghost o = out@;
    match k {
        ConstraintKind::Integer(c) => match c {
            IntConstraint::Lower(i) => { push_str(out, "< "); push_decimal(out, *i); },
            IntConstraint::Larger(i) => { push_str(out, "> "); push_decimal(out, *i); },
            IntConstraint::LowerOrEqual(i) => { push_str(out, "<= "); push_decimal(out, *i); },
            IntConstraint::LargerOrEqual(i) => { push_str(out, ">= "); push_decimal(out, *i); },
            IntConstraint::Equal(i) => { push_str(out, "== "); push_decimal(out, *i); },
            IntConstraint::In(v) => { push_str(out, "in "); push_int_set(out, v); },
            IntConstraint::NotIn(v) => { push_str(out, "not in "); push_int_set(out, v); },
        },
        ConstraintKind::String(c) => match c {
            StrConstraint::Prefix(p) => { push_str(out, "matches "); push_str(out, p.as_str()); push_str(out, "*"); },
            StrConstraint::Suffix(x) => { push_str(out, "matches *"); push_str(out, x.as_str()); },
            StrConstraint::Equal(x) => { push_str(out, "== "); push_str(out, x.as_str()); },
            StrConstraint::Regex(x) => { push_str(out, "matches /"); push_str(out, x.as_str()); push_str(out, "/"); },
            StrConstraint::In(v) => { push_str(out, "in "); push_str_set(out, v); },
            StrConstraint::NotIn(v) => { push_str(out, "not in "); push_str_set(out, v); },
        },
        ConstraintKind::Date(c) => match c {
            DateConstraint::Before(d) => { push_str(out, "<= "); push_date(out, *d); },
            DateConstraint::After(d) => { push_str(out, ">= "); push_date(out, *d); },
        },
        ConstraintKind::Symbol(c) => match c {
            SymbolConstraint::In(v) => { push_str(out, "in "); push_str_set(out, v); },
            SymbolConstraint::NotIn(v) => { push_str(out, "not in "); push_str_set(out, v); },
        },
        ConstraintKind::Bytes(c) => match c {
            BytesConstraint::Equal(b) => { push_str(out, "== "); let h = hex_encode(b); push_str(out, h.as_str()); },
            BytesConstraint::In(v) => { push_str(out, "in "); push_bytes_set(out, v); },
            BytesConstraint::NotIn(v) => { push_str(out, "not in "); push_bytes_set(out, v); },
        },
    }
    assert(out@ =~= o + kind_text(*k));
}

impl Constraint {
    /// The text of the constraint, as `$id <op> value`.
    pub fn print(&self) -> (r: String)
        ensures
            r@ == constraint_text(*self),
    {
        let mut out: Vec<char> = Vec::new();
        out.push('$');
        push_str(&mut out, self.id.as_str());
        out.push(' ');
        push_kind(&mut out, &self.kind);
        assert(out@ =~= constraint_text(*self));
        string_from_chars(out.as_slice())
    }
}

} // verus!
