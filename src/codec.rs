//! The byte encoding of a block that its signature covers: every field in
//! order, numbers big-endian, lists and texts preceded by their length.
use vstd::prelude::*;
use vstd::utf8::encode_utf8;
use crate::authorizer::caveat_view;
use crate::datalog::{Binary, OpV, PredV, Predicate, Rule, RuleV, Term, TermV, Unary, leaf_view, preds_view, rules_view};
use crate::token::Block;

verus! {

/// The `n` low bytes of `x`, most significant first.
pub open spec fn be(x: nat, n: nat) -> Seq<u8>
    decreases n,
{
    if n == 0 {
        Seq::empty()
    } else {
        be(x / 256, (n - 1) as nat) + seq![(x % 256) as u8]
    }
}

/// The sequences joined in order.
pub open spec fn join_bytes(s: Seq<Seq<u8>>) -> Seq<u8>
    decreases s.len(),
{
    if s.len() == 0 {
        Seq::empty()
    } else {
        join_bytes(s.drop_last()) + s.last()
    }
}

/// A length, in eight bytes.
pub open spec fn len_enc(n: nat) -> Seq<u8> {
    be(n, 8)
}

/// A text: the length of its UTF-8 bytes, then the bytes.
pub open spec fn text_enc(s: Seq<char>) -> Seq<u8> {
    len_enc(encode_utf8(s).len()) + encode_utf8(s)
}

/// A list: its length, then its items.
pub open spec fn list_enc(items: Seq<Seq<u8>>) -> Seq<u8> {
    len_enc(items.len()) + join_bytes(items)
}

/// The code of a unary operator.
pub open spec fn unary_code(u: Unary) -> u8 {
    match u {
        Unary::Negate => 0,
    }
}

/// The code of a binary operator.
pub open spec fn binary_code(b: Binary) -> u8 {
    match b {
        Binary::LessThan => 0,
        Binary::GreaterThan => 1,
        Binary::LessOrEqual => 2,
        Binary::GreaterOrEqual => 3,
        Binary::Equal => 4,
        Binary::In => 5,
        Binary::NotIn => 6,
        Binary::Prefix => 7,
        Binary::Suffix => 8,
        Binary::Regex => 9,
        Binary::Add => 10,
        Binary::And => 11,
    }
}

/// A set member: a variant byte, then its value.
pub open spec fn leaf_enc(t: TermV) -> Seq<u8> {
    match t {
        TermV::Symbol(x) => seq![0u8] + be(x as nat, 8),
        TermV::Variable(v) => seq![1u8] + be(v as nat, 4),
        TermV::Integer(i) => seq![2u8] + be((i as int + 0x8000_0000_0000_0000) as nat, 8),
        TermV::Str(s) => seq![3u8] + text_enc(s),
        TermV::Date(d) => seq![4u8] + be(d as nat, 8),
        TermV::Bytes(b) => seq![5u8] + len_enc(b.len()) + b,
        TermV::Bool(b) => seq![6u8, if b { 1u8 } else { 0u8 }],
        TermV::TermSet(_) => seq![7u8] + len_enc(0),
    }
}

/// A term; a set lists its members.
pub open spec fn term_enc(t: TermV) -> Seq<u8> {
    match t {
        TermV::TermSet(ms) => seq![7u8] + list_enc(ms.map_values(|m: TermV| leaf_enc(m))),
        _ => leaf_enc(t),
    }
}

/// A predicate: its name id, then its terms.
pub open spec fn pred_enc(p: PredV) -> Seq<u8> {
    be(p.name as nat, 8) + list_enc(p.terms.map_values(|t: TermV| term_enc(t)))
}

/// An instruction.
pub open spec fn op_enc(o: OpV) -> Seq<u8> {
    match o {
        OpV::Value(t) => seq![0u8] + term_enc(t),
        OpV::Unary(u) => seq![1u8, unary_code(u)],
        OpV::Binary(b) => seq![2u8, binary_code(b)],
    }
}

/// An expression: its instructions.
pub open spec fn expr_enc(ops: Seq<OpV>) -> Seq<u8> {
    list_enc(ops.map_values(|o: OpV| op_enc(o)))
}

/// A rule: head, body, expressions.
pub open spec fn rule_enc(r: RuleV) -> Seq<u8> {
    pred_enc(r.head) + list_enc(r.body.map_values(|p: PredV| pred_enc(p))) + list_enc(
        r.expressions.map_values(|e: Seq<OpV>| expr_enc(e)),
    )
}

/// A list of rules.
pub open spec fn rules_enc(rs: Seq<RuleV>) -> Seq<u8> {
    list_enc(rs.map_values(|r: RuleV| rule_enc(r)))
}

/// An optional text: a flag byte, then the text.
pub open spec fn context_enc(c: Option<String>) -> Seq<u8> {
    match c {
        Some(s) => seq![1u8] + text_enc(s@),
        None => seq![0u8],
    }
}

/// The bytes of a block: index, names, facts, rules, caveats, context and
/// version, in that order.
pub open spec fn block_enc(b: Block) -> Seq<u8> {
    be(b.index as nat, 4) + list_enc(b.symbols@.map_values(|s: Seq<char>| text_enc(s)))
        + list_enc(preds_view(b.facts@).map_values(|p: PredV| pred_enc(p))) + rules_enc(
        rules_view(b.rules@),
    ) + list_enc(b.caveats@.map_values(|c: crate::datalog::Caveat| rules_enc(caveat_view(c))))
        + context_enc(b.context) + be(b.version as nat, 4)
}

/// Appends the `n` low bytes of `x`, most significant first.
fn push_be(out: &mut Vec<u8>, x: u64, n: u64)
    ensures
        final(out)@ == old(out)@ + be(x as nat, n as nat),
    decreases n,
{
    if n > 0 {
        push_be(out, x / 256, n - 1);
        out.push((x % 256) as u8);
        assert(final(out)@ =~= old(out)@ + be(x as nat, n as nat));
    } else {
        assert(final(out)@ =~= old(out)@ + be(x as nat, n as nat));
    }
}

/// Appends the bytes of a slice.
fn push_slice(out: &mut Vec<u8>, b: &[u8])
    ensures
        final(out)@ == old(out)@ + b@,
{
    let mut i: usize = 0;
    while i < b.len()
        invariant
            i <= b.len(),
            out@ == old(out)@ + b@.subrange(0, i as int),
        decreases b.len() - i,
    {
        out.push(b[i]);
        assert(b@.subrange(0, i + 1) =~= b@.subrange(0, i as int).push(b@[i as int]));
        assert(out@ =~= old(out)@ + b@.subrange(0, i + 1));
        i = i + 1;
    }
    assert(b@.subrange(0, i as int) =~= b@);
}

/// Appends a length.
fn push_len(out: &mut Vec<u8>, n: usize)
    ensures
        final(out)@ == old(out)@ + len_enc(n as nat),
{
    push_be(out, n as u64, 8);
}

/// Appends a text.
fn push_text(out: &mut Vec<u8>, s: &String)
    ensures
        final(out)@ == old(out)@ + text_enc(s@),
{
    let b = s.as_str().as_bytes();
    push_len(out, b.len());
    push_slice(out, b);
    assert(final(out)@ =~= old(out)@ + text_enc(s@));
}

/// One more item of a joined list.
proof fn lemma_join_step(s: Seq<Seq<u8>>, i: int)
    requires
        0 <= i < s.len(),
    ensures
        join_bytes(s.subrange(0, i + 1)) == join_bytes(s.subrange(0, i)) + s[i],
{
    assert(s.subrange(0, i + 1).drop_last() =~= s.subrange(0, i));
}

/// Appends a set member.
fn push_leaf(out: &mut Vec<u8>, t: &Term)
    ensures
        final(out)@ == old(out)@ + leaf_enc(leaf_view(*t)),
{
    let ghost o = out@;
    match t {
        Term::Symbol(x) => { out.push(0u8); push_be(out, *x, 8); },
        Term::Variable(v) => { out.push(1u8); push_be(out, *v as u64, 4); },
        Term::Integer(i) => { out.push(2u8); push_be(out, (*i as i128 + 0x8000_0000_0000_0000i128) as u64, 8); },
        Term::Str(s) => { out.push(3u8); push_text(out, s); },
        Term::Date(d) => { out.push(4u8); push_be(out, *d, 8); },
        Term::Bytes(b) => { out.push(5u8); push_len(out, b.len()); push_slice(out, b.as_slice()); },
        Term::Bool(b) => { out.push(6u8); out.push(if *b { 1u8 } else { 0u8 }); },
        Term::TermSet(_) => { out.push(7u8); push_len(out, 0); },
    }
    assert(out@ =~= o + leaf_enc(leaf_view(*t)));
}

/// Appends a term.
fn push_term(out: &mut Vec<u8>, t: &Term)
    ensures
        final(out)@ == old(out)@ + term_enc(t@),
{
    match t {
        Term::TermSet(ms) => {
            let ghost parts = ms@.map_values(|m: Term| leaf_view(m)).map_values(|m: TermV| leaf_enc(m));
            out.push(7u8);
            push_len(out, ms.len());
            let ghost start = out@;
            let mut i: usize = 0;
            assert(join_bytes(parts.subrange(0, 0)) =~= Seq::<u8>::empty());
            while i < ms.len()
                invariant
                    i <= ms.len(),
                    parts == ms@.map_values(|m: Term| leaf_view(m)).map_values(|m: TermV| leaf_enc(m)),
                    out@ == start + join_bytes(parts.subrange(0, i as int)),
                decreases ms.len() - i,
            {
                push_leaf(out, &ms[i]);
                proof { lemma_join_step(parts, i as int); }
                assert(out@ =~= start + join_bytes(parts.subrange(0, i + 1)));
                i = i + 1;
            }
            assert(parts.subrange(0, i as int) =~= parts);
            assert(out@ =~= old(out)@ + term_enc(t@));
        },
        _ => push_leaf(out, t),
    }
}

/// Appends a predicate.
fn push_pred(out: &mut Vec<u8>, p: &Predicate)
    ensures
        final(out)@ == old(out)@ + pred_enc(p@),
{
    let ghost parts = p@.terms.map_values(|t: TermV| term_enc(t));
    push_be(out, p.name, 8);
    push_len(out, p.terms.len());
    let ghost start = out@;
    let mut i: usize = 0;
    assert(join_bytes(parts.subrange(0, 0)) =~= Seq::<u8>::empty());
    while i < p.terms.len()
        invariant
            i <= p.terms.len(),
            parts == p@.terms.map_values(|t: TermV| term_enc(t)),
            out@ == start + join_bytes(parts.subrange(0, i as int)),
        decreases p.terms.len() - i,
    {
        push_term(out, &p.terms[i]);
        assert(parts[i as int] == term_enc(p.terms@[i as int]@));
        proof { lemma_join_step(parts, i as int); }
        assert(out@ =~= start + join_bytes(parts.subrange(0, i + 1)));
        i = i + 1;
    }
    assert(parts.subrange(0, i as int) =~= parts);
    assert(out@ =~= old(out)@ + pred_enc(p@));
}

/// Appends a list of predicates.
fn push_preds(out: &mut Vec<u8>, ps: &Vec<Predicate>)
    ensures
        final(out)@ == old(out)@ + list_enc(preds_view(ps@).map_values(|p: PredV| pred_enc(p))),
{
    let ghost parts = preds_view(ps@).map_values(|p: PredV| pred_enc(p));
    push_len(out, ps.len());
    let ghost start = out@;
    let mut i: usize = 0;
    assert(join_bytes(parts.subrange(0, 0)) =~= Seq::<u8>::empty());
    while i < ps.len()
        invariant
            i <= ps.len(),
            parts == preds_view(ps@).map_values(|p: PredV| pred_enc(p)),
            out@ == start + join_bytes(parts.subrange(0, i as int)),
        decreases ps.len() - i,
    {
        push_pred(out, &ps[i]);
        assert(parts[i as int] == pred_enc(ps@[i as int]@));
        proof { lemma_join_step(parts, i as int); }
        assert(out@ =~= start + join_bytes(parts.subrange(0, i + 1)));
        i = i + 1;
    }
    assert(parts.subrange(0, i as int) =~= parts);
    assert(out@ =~= old(out)@ + list_enc(parts));
}

/// Appends an expression.
fn push_expr(out: &mut Vec<u8>, e: &crate::datalog::Expression)
    ensures
        final(out)@ == old(out)@ + expr_enc(e@),
{
    let ghost parts = e@.map_values(|o: OpV| op_enc(o));
    push_len(out, e.ops.len());
    let ghost start = out@;
    let mut i: usize = 0;
    assert(join_bytes(parts.subrange(0, 0)) =~= Seq::<u8>::empty());
    while i < e.ops.len()
        invariant
            i <= e.ops.len(),
            parts == e@.map_values(|o: OpV| op_enc(o)),
            out@ == start + join_bytes(parts.subrange(0, i as int)),
        decreases e.ops.len() - i,
    {
        let ghost before = out@;
        match &e.ops[i] {
            crate::datalog::Op::Value(t) => { out.push(0u8); push_term(out, t); },
            crate::datalog::Op::Unary(u) => {
                out.push(1u8);
                out.push(match u { Unary::Negate => 0u8 });
            },
            crate::datalog::Op::Binary(b) => {
                out.push(2u8);
                let code: u8 = match b {
                    Binary::LessThan => 0,
                    Binary::GreaterThan => 1,
                    Binary::LessOrEqual => 2,
                    Binary::GreaterOrEqual => 3,
                    Binary::Equal => 4,
                    Binary::In => 5,
                    Binary::NotIn => 6,
                    Binary::Prefix => 7,
                    Binary::Suffix => 8,
                    Binary::Regex => 9,
                    Binary::Add => 10,
                    Binary::And => 11,
                };
                out.push(code);
            },
        }
        assert(parts[i as int] == op_enc(e.ops@[i as int]@));
        assert(out@ =~= before + parts[i as int]);
        proof { lemma_join_step(parts, i as int); }
        assert(out@ =~= start + join_bytes(parts.subrange(0, i + 1)));
        i = i + 1;
    }
    assert(parts.subrange(0, i as int) =~= parts);
    assert(out@ =~= old(out)@ + expr_enc(e@));
}

/// Appends a rule.
fn push_rule(out: &mut Vec<u8>, r: &Rule)
    ensures
        final(out)@ == old(out)@ + rule_enc(r@),
{
    push_pred(out, &r.head);
    let ghost mid = out@;
    push_preds(out, &r.body);
    assert(preds_view(r.body@) == r@.body);
    let ghost parts = r@.expressions.map_values(|e: Seq<OpV>| expr_enc(e));
    push_len(out, r.expressions.len());
    let ghost start = out@;
    let mut i: usize = 0;
    assert(join_bytes(parts.subrange(0, 0)) =~= Seq::<u8>::empty());
    while i < r.expressions.len()
        invariant
            i <= r.expressions.len(),
            parts == r@.expressions.map_values(|e: Seq<OpV>| expr_enc(e)),
            out@ == start + join_bytes(parts.subrange(0, i as int)),
        decreases r.expressions.len() - i,
    {
        push_expr(out, &r.expressions[i]);
        assert(parts[i as int] == expr_enc(r.expressions@[i as int]@));
        proof { lemma_join_step(parts, i as int); }
        assert(out@ =~= start + join_bytes(parts.subrange(0, i + 1)));
        i = i + 1;
    }
    assert(parts.subrange(0, i as int) =~= parts);
    assert(out@ =~= old(out)@ + rule_enc(r@));
}

/// Appends a list of rules.
fn push_rules(out: &mut Vec<u8>, rs: &Vec<Rule>)
    ensures
        final(out)@ == old(out)@ + rules_enc(rules_view(rs@)),
{
    let ghost parts = rules_view(rs@).map_values(|r: RuleV| rule_enc(r));
    push_len(out, rs.len());
    let ghost start = out@;
    let mut i: usize = 0;
    assert(join_bytes(parts.subrange(0, 0)) =~= Seq::<u8>::empty());
    while i < rs.len()
        invariant
            i <= rs.len(),
            parts == rules_view(rs@).map_values(|r: RuleV| rule_enc(r)),
            out@ == start + join_bytes(parts.subrange(0, i as int)),
        decreases rs.len() - i,
    {
        push_rule(out, &rs[i]);
        assert(parts[i as int] == rule_enc(rs@[i as int]@));
        proof { lemma_join_step(parts, i as int); }
        assert(out@ =~= start + join_bytes(parts.subrange(0, i + 1)));
        i = i + 1;
    }
    assert(parts.subrange(0, i as int) =~= parts);
    assert(out@ =~= old(out)@ + rules_enc(rules_view(rs@)));
}

/// The bytes of a block, which its signature covers.
pub fn encode_block(b: &Block) -> (r: Vec<u8>)
    ensures
        r@ == block_enc(*b),
{
    let mut out: Vec<u8> = Vec::new();
    push_be(&mut out, b.index as u64, 4);
    let ghost sparts = b.symbols@.map_values(|s: Seq<char>| text_enc(s));
    push_len(&mut out, b.symbols.symbols.len());
    let ghost start = out@;
    let mut i: usize = 0;
    assert(join_bytes(sparts.subrange(0, 0)) =~= Seq::<u8>::empty());
    while i < b.symbols.symbols.len()
        invariant
            i <= b.symbols.symbols.len(),
            sparts == b.symbols@.map_values(|s: Seq<char>| text_enc(s)),
            out@ == start + join_bytes(sparts.subrange(0, i as int)),
        decreases b.symbols.symbols.len() - i,
    {
        push_text(&mut out, &b.symbols.symbols[i]);
        assert(sparts[i as int] == text_enc(b.symbols.symbols@[i as int]@));
        proof { lemma_join_step(sparts, i as int); }
        assert(out@ =~= start + join_bytes(sparts.subrange(0, i + 1)));
        i = i + 1;
    }
    assert(sparts.subrange(0, i as int) =~= sparts);
    let ghost after_symbols = out@;
    push_preds(&mut out, &b.facts);
    push_rules(&mut out, &b.rules);
    let ghost cparts = b.caveats@.map_values(|c: crate::datalog::Caveat| rules_enc(caveat_view(c)));
    push_len(&mut out, b.caveats.len());
    let ghost cstart = out@;
    let mut j: usize = 0;
    assert(join_bytes(cparts.subrange(0, 0)) =~= Seq::<u8>::empty());
    while j < b.caveats.len()
        invariant
            j <= b.caveats.len(),
            cparts == b.caveats@.map_values(|c: crate::datalog::Caveat| rules_enc(caveat_view(c))),
            out@ == cstart + join_bytes(cparts.subrange(0, j as int)),
        decreases b.caveats.len() - j,
    {
        push_rules(&mut out, &b.caveats[j].queries);
        assert(cparts[j as int] == rules_enc(caveat_view(b.caveats@[j as int])));
        proof { lemma_join_step(cparts, j as int); }
        assert(out@ =~= cstart + join_bytes(cparts.subrange(0, j + 1)));
        j = j + 1;
    }
    assert(cparts.subrange(0, j as int) =~= cparts);
    let ghost before_context = out@;
    match &b.context {
        Some(s) => { out.push(1u8); push_text(&mut out, s); },
        None => { out.push(0u8); },
    }
    assert(out@ =~= before_context + context_enc(b.context));
    push_be(&mut out, b.version as u64, 4);
    assert(out@ =~= block_enc(*b));
    out
}

} // verus!
