//! The datalog text syntax: a recursive-descent parser over characters.
//! Every parser takes the input from a position and gives the position
//! after what it read, or `None` when the input does not match.
use vstd::prelude::*;
use crate::builder::{self, Caveat, Expression, Fact, NamedPredV, NamedV, Op, Policy, Predicate, Rule, Term};
use crate::authorizer::PolicyKind;
use crate::datalog::{Binary, Unary};
use crate::error::Error;
use crate::text::{chars_of, string_from_chars};

verus! {

/// Layout between tokens.
pub open spec fn is_space(ch: char) -> bool {
    ch == ' ' || ch == '\t' || ch == '\r' || ch == '\n'
}

/// Characters of names: ASCII letters, digits and the underscore.
pub open spec fn is_name_char(ch: char) -> bool {
    ('a' <= ch && ch <= 'z') || ('A' <= ch && ch <= 'Z') || ('0' <= ch && ch <= '9') || ch == '_'
}

/// ASCII digits.
pub open spec fn is_digit(ch: char) -> bool {
    '0' <= ch && ch <= '9'
}

/// ASCII hexadecimal digits.
pub open spec fn is_hex_digit(ch: char) -> bool {
    is_digit(ch) || ('a' <= ch && ch <= 'f') || ('A' <= ch && ch <= 'F')
}

/// Characters that end a date.
pub open spec fn ends_date(ch: char) -> bool {
    ch == ',' || ch == ' ' || ch == ')'
}

/// `[i, e)` is the longest run from `i` of characters that satisfy `p`.
pub open spec fn longest_run(s: Seq<char>, i: int, e: int, p: spec_fn(char) -> bool) -> bool {
    &&& i <= e <= s.len()
    &&& forall|k: int| i <= k < e ==> p(#[trigger] s[k])
    &&& (e == s.len() || !p(s[e]))
}

/// `[i, e)` is the longest run of digits from `i`.
pub open spec fn digits_end(s: Seq<char>, i: int, e: int) -> bool {
    longest_run(s, i, e, |ch: char| is_digit(ch))
}

/// `[i, e)` is the longest run from `i` of characters that do not end a date.
pub open spec fn date_end(s: Seq<char>, i: int, e: int) -> bool {
    longest_run(s, i, e, |ch: char| !ends_date(ch))
}

/// Where the longest run from `i` of characters that satisfy `p` ends.
pub open spec fn run_end(s: Seq<char>, i: int, p: spec_fn(char) -> bool) -> int
    decreases s.len() - i,
{
    if i < 0 || i >= s.len() || !p(s[i]) {
        i
    } else {
        run_end(s, i + 1, p)
    }
}

/// A longest run ends where [`run_end`] says.
proof fn lemma_longest_run_end(s: Seq<char>, i: int, e: int, p: spec_fn(char) -> bool)
    requires
        0 <= i,
        longest_run(s, i, e, p),
    ensures
        e == run_end(s, i, p),
    decreases s.len() - i,
{
    if i < e {
        assert(p(s[i]));
        lemma_longest_run_end(s, i + 1, e, p);
    }
}

/// The end of layout from `i`.
pub open spec fn space_stop(s: Seq<char>, i: int) -> int {
    run_end(s, i, |ch: char| is_space(ch))
}

/// The end of a name from `i`.
pub open spec fn name_stop(s: Seq<char>, i: int) -> int {
    run_end(s, i, |ch: char| is_name_char(ch))
}

/// The first of two results that is there.
pub open spec fn or_else<T>(a: Option<T>, b: Option<T>) -> Option<T> {
    if a is Some {
        a
    } else {
        b
    }
}

/// A symbol at `p`: `#` and a name.
pub open spec fn symbol_at(c: Seq<char>, p: int) -> Option<(int, NamedV)> {
    if 0 <= p && p + 1 < c.len() && c[p] == '#' && name_stop(c, p + 1) > p + 1 {
        Some((name_stop(c, p + 1), NamedV::Symbol(c.subrange(p + 1, name_stop(c, p + 1)))))
    } else {
        None
    }
}

/// A variable at `p`: `$` and a name.
pub open spec fn variable_at(c: Seq<char>, p: int) -> Option<(int, NamedV)> {
    if 0 <= p && p + 1 < c.len() && c[p] == '$' && name_stop(c, p + 1) > p + 1 {
        Some((name_stop(c, p + 1), NamedV::Variable(c.subrange(p + 1, name_stop(c, p + 1)))))
    } else {
        None
    }
}

/// A string literal at `p`.
pub open spec fn string_at(c: Seq<char>, p: int) -> Option<(int, NamedV)> {
    if 0 <= p < c.len() && c[p] == '"' && unescape(c, p + 1) is Some {
        Some((literal_end(c, p + 1) + 1, NamedV::Str(literal_text(c, p + 1))))
    } else {
        None
    }
}

/// A date at `p`: the characters up to `,`, space or `)`, read as an RFC
/// 3339 date no earlier than the Unix epoch.
pub open spec fn date_at(c: Seq<char>, p: int) -> Option<(int, NamedV)> {
    let e = run_end(c, p, |ch: char| !ends_date(ch));
    if 0 <= p && p < e {
        match rfc3339_seconds(c.subrange(p, e)) {
            Some(secs) => if secs >= 0 {
                Some((e, NamedV::Date(secs as u64)))
            } else {
                None
            },
            None => None,
        }
    } else {
        None
    }
}

/// An integer at `p`: an optional minus sign and digits whose value fits
/// in 64 bits.
pub open spec fn integer_at(c: Seq<char>, p: int) -> Option<(int, NamedV)> {
    let st = digits_start(c, p);
    let e = run_end(c, st, |ch: char| is_digit(ch));
    if 0 <= p && st < e && i64::MIN <= integer_value(c, p, e) <= i64::MAX {
        Some((e, NamedV::Integer(integer_value(c, p, e) as i64)))
    } else {
        None
    }
}

/// Bytes at `p`: `hex:` and an even number of hexadecimal digits.
pub open spec fn bytes_at(c: Seq<char>, p: int) -> Option<(int, NamedV)> {
    let e = run_end(c, p + 4, |ch: char| is_hex_digit(ch));
    if 0 <= p && p + 4 <= c.len() && c.subrange(p, p + 4) == "hex:"@ && p + 4 < e && (e - p - 4) % 2
        == 0 {
        Some((e, NamedV::Bytes(hex_decoded(c.subrange(p + 4, e)))))
    } else {
        None
    }
}

/// A boolean at `p`.
pub open spec fn boolean_at(c: Seq<char>, p: int) -> Option<(int, NamedV)> {
    if 0 <= p && p + 4 <= c.len() && c.subrange(p, p + 4) == "true"@ {
        Some((p + 4, NamedV::Bool(true)))
    } else if 0 <= p && p + 5 <= c.len() && c.subrange(p, p + 5) == "false"@ {
        Some((p + 5, NamedV::Bool(false)))
    } else {
        None
    }
}

/// A set member after layout: the first of a symbol, string, date,
/// integer, bytes or boolean.
pub open spec fn member_at(c: Seq<char>, pos: int) -> Option<(int, NamedV)> {
    let p = space_stop(c, pos);
    or_else(symbol_at(c, p), or_else(string_at(c, p), or_else(date_at(c, p), or_else(
        integer_at(c, p),
        or_else(bytes_at(c, p), boolean_at(c, p)),
    ))))
}

/// More set members after `i`, each after a comma; the position after the
/// last one read and all members read.
pub open spec fn members_rest(c: Seq<char>, i: int, items: Seq<NamedV>) -> (int, Seq<NamedV>)
    decreases c.len() - i,
{
    let q = space_stop(c, i);
    if 0 <= q < c.len() && c[q] == ',' {
        match member_at(c, q + 1) {
            Some((e, t)) => if i < e <= c.len() {
                members_rest(c, e, items.push(t))
            } else {
                (i, items)
            },
            None => (i, items),
        }
    } else {
        (i, items)
    }
}

/// A set after layout: `[`, members separated by commas, `]`, the members
/// sharing one variant; the set holds them sorted, each once.
pub open spec fn set_at(c: Seq<char>, pos: int) -> Option<(int, NamedV)> {
    let p = space_stop(c, pos);
    if 0 <= p < c.len() && c[p] == '[' {
        match member_at(c, p + 1) {
            Some((e0, t0)) => {
                let (i, items) = members_rest(c, e0, seq![t0]);
                let q = space_stop(c, i);
                if 0 <= q < c.len() && c[q] == ']' && crate::builder::valid_members(items) {
                    Some((q + 1, NamedV::TermSet(crate::builder::sorted_members(items))))
                } else {
                    None
                }
            },
            None => None,
        }
    } else {
        None
    }
}

/// A term after layout: the first of a symbol, string, date, variable,
/// integer, bytes, boolean or set.
pub open spec fn term_at(c: Seq<char>, pos: int) -> Option<(int, NamedV)> {
    let p = space_stop(c, pos);
    or_else(symbol_at(c, p), or_else(string_at(c, p), or_else(date_at(c, p), or_else(
        variable_at(c, p),
        or_else(integer_at(c, p), or_else(bytes_at(c, p), or_else(boolean_at(c, p), set_at(c, p)))),
    ))))
}

/// More terms after `i`, each after a comma.
pub open spec fn terms_rest(c: Seq<char>, i: int, items: Seq<NamedV>) -> (int, Seq<NamedV>)
    decreases c.len() - i,
{
    let q = space_stop(c, i);
    if 0 <= q < c.len() && c[q] == ',' {
        match term_at(c, q + 1) {
            Some((e, t)) => if i < e <= c.len() {
                terms_rest(c, e, items.push(t))
            } else {
                (i, items)
            },
            None => (i, items),
        }
    } else {
        (i, items)
    }
}

/// Terms separated by commas and closed by `)`; with `allow_empty`, `)`
/// may come at once.
pub open spec fn term_list_at(c: Seq<char>, pos: int, allow_empty: bool) -> Option<(int, Seq<NamedV>)> {
    match term_at(c, pos) {
        Some((e0, t0)) => {
            let (i, items) = terms_rest(c, e0, seq![t0]);
            let q = space_stop(c, i);
            if 0 <= q < c.len() && c[q] == ')' {
                Some((q + 1, items))
            } else {
                None
            }
        },
        None => {
            let q = space_stop(c, pos);
            if allow_empty && 0 <= q < c.len() && c[q] == ')' {
                Some((q + 1, Seq::empty()))
            } else {
                None
            }
        },
    }
}

/// A predicate after layout: a name and its terms in parentheses.
pub open spec fn predicate_at(c: Seq<char>, pos: int, allow_empty: bool) -> Option<(int, NamedPredV)> {
    let p = space_stop(c, pos);
    let i = name_stop(c, p);
    let q = space_stop(c, i);
    if 0 <= p && p < i && 0 <= q < c.len() && c[q] == '(' {
        match term_list_at(c, q + 1, allow_empty) {
            Some((e, ts)) => Some((e, NamedPredV { name: c.subrange(p, i), terms: ts })),
            None => None,
        }
    } else {
        None
    }
}

/// No term of the predicate is a variable: the predicate is a fact.
pub open spec fn ground(p: NamedPredV) -> bool {
    forall|j: int| 0 <= j < p.terms.len() ==> !(#[trigger] p.terms[j] is Variable)
}

/// A predicate stands at the start of the text and it is a fact.
pub open spec fn ground_predicate_at(c: Seq<char>) -> bool {
    match predicate_at(c, 0, false) {
        Some((_, p)) => ground(p),
        None => false,
    }
}

/// The value of a parser's result.
pub open spec fn term_result(r: Option<(usize, Term)>) -> Option<(int, NamedV)> {
    match r {
        Some((e, t)) => Some((e as int, t@)),
        None => None,
    }
}

fn space_char(ch: char) -> (r: bool)
    ensures
        r == is_space(ch),
{
    ch == ' ' || ch == '\t' || ch == '\r' || ch == '\n'
}

fn name_char(ch: char) -> (r: bool)
    ensures
        r == is_name_char(ch),
{
    ('a' <= ch && ch <= 'z') || ('A' <= ch && ch <= 'Z') || ('0' <= ch && ch <= '9') || ch == '_'
}

fn digit_char(ch: char) -> (r: bool)
    ensures
        r == is_digit(ch),
{
    '0' <= ch && ch <= '9'
}

fn hex_char(ch: char) -> (r: bool)
    ensures
        r == is_hex_digit(ch),
{
    ('0' <= ch && ch <= '9') || ('a' <= ch && ch <= 'f') || ('A' <= ch && ch <= 'F')
}

/// Skips layout.
pub fn skip_space(c: &Vec<char>, pos: usize) -> (r: usize)
    requires
        pos <= c.len(),
    ensures
        longest_run(c@, pos as int, r as int, |ch: char| is_space(ch)),
        r == space_stop(c@, pos as int),
{
    let mut i = pos;
    while i < c.len() && space_char(c[i])
        invariant
            pos <= i <= c.len(),
            forall|k: int| pos <= k < i ==> is_space(#[trigger] c@[k]),
        decreases c.len() - i,
    {
        i = i + 1;
    }
    proof {
        lemma_longest_run_end(c@, pos as int, i as int, |ch: char| is_space(ch));
    }
    i
}

/// The end of the longest run of name characters from `pos`.
fn name_end(c: &Vec<char>, pos: usize) -> (r: usize)
    requires
        pos <= c.len(),
    ensures
        longest_run(c@, pos as int, r as int, |ch: char| is_name_char(ch)),
{
    let mut i = pos;
    while i < c.len() && name_char(c[i])
        invariant
            pos <= i <= c.len(),
            forall|k: int| pos <= k < i ==> is_name_char(#[trigger] c@[k]),
        decreases c.len() - i,
    {
        i = i + 1;
    }
    i
}

/// The characters of `[a, b)` as a string.
fn text_between(c: &Vec<char>, a: usize, b: usize) -> (r: String)
    requires
        a <= b <= c.len(),
    ensures
        r@ == c@.subrange(a as int, b as int),
{
    let mut v: Vec<char> = Vec::new();
    let mut i = a;
    while i < b
        invariant
            a <= i <= b <= c.len(),
            v@ == c@.subrange(a as int, i as int),
        decreases b - i,
    {
        v.push(c[i]);
        assert(c@.subrange(a as int, i + 1) =~= c@.subrange(a as int, i as int).push(c@[i as int]));
        i = i + 1;
    }
    string_from_chars(v.as_slice())
}

/// Whether the characters of `word` stand at `pos`.
fn looking_at(c: &Vec<char>, pos: usize, word: &str) -> (r: bool)
    requires
        pos <= c.len(),
    ensures
        r == (pos + word@.len() <= c@.len() && c@.subrange(pos as int, pos + word@.len()) == word@),
{
    let w = chars_of(word);
    if w.len() > c.len() - pos {
        return false;
    }
    let mut i: usize = 0;
    while i < w.len()
        invariant
            i <= w.len(),
            pos + w.len() <= c.len(),
            w@ == word@,
            forall|k: int| 0 <= k < i ==> c@[pos + k] == w@[k],
        decreases w.len() - i,
    {
        if c[pos + i] != w[i] {
            assert(c@.subrange(pos as int, pos + word@.len())[i as int] != word@[i as int]);
            return false;
        }
        i = i + 1;
    }
    assert(c@.subrange(pos as int, pos + word@.len()) =~= word@);
    true
}

/// A name: one or more name characters.
pub fn p_name(c: &Vec<char>, pos: usize) -> (r: Option<(usize, String)>)
    requires
        pos <= c.len(),
    ensures
        match r {
            Some((e, s)) => pos < e && longest_run(c@, pos as int, e as int, |ch: char| is_name_char(ch))
                && s@ == c@.subrange(pos as int, e as int),
            None => pos == c.len() || !is_name_char(c@[pos as int]),
        },
        match r {
            Some((e, _)) => e == name_stop(c@, pos as int) && pos < e,
            None => name_stop(c@, pos as int) == pos,
        },
{
    let e = name_end(c, pos);
    proof {
        lemma_longest_run_end(c@, pos as int, e as int, |ch: char| is_name_char(ch));
    }
    if e == pos {
        return None;
    }
    Some((e, text_between(c, pos, e)))
}

/// A symbol: `#` and a name.
pub fn p_symbol(c: &Vec<char>, pos: usize) -> (r: Option<(usize, Term)>)
    requires
        pos <= c.len(),
    ensures
        match r {
            Some((e, t)) => pos < c.len() && c@[pos as int] == '#' && pos + 1 < e && longest_run(
                c@,
                pos + 1,
                e as int,
                |ch: char| is_name_char(ch),
            ) && t@ == NamedV::Symbol(c@.subrange(pos + 1, e as int)),
            None => !(pos + 1 < c.len() && c@[pos as int] == '#' && is_name_char(c@[pos + 1])),
        },
        term_result(r) == symbol_at(c@, pos as int),
{
    if pos >= c.len() || c[pos] != '#' {
        return None;
    }
    match p_name(c, pos + 1) {
        Some((e, s)) => Some((e, Term::Symbol(s))),
        None => None,
    }
}

/// A variable: `$` and a name.
pub fn p_variable(c: &Vec<char>, pos: usize) -> (r: Option<(usize, Term)>)
    requires
        pos <= c.len(),
    ensures
        match r {
            Some((e, t)) => pos < c.len() && c@[pos as int] == '$' && pos + 1 < e && longest_run(
                c@,
                pos + 1,
                e as int,
                |ch: char| is_name_char(ch),
            ) && t@ == NamedV::Variable(c@.subrange(pos + 1, e as int)),
            None => !(pos + 1 < c.len() && c@[pos as int] == '$' && is_name_char(c@[pos + 1])),
        },
        term_result(r) == variable_at(c@, pos as int),
{
    if pos >= c.len() || c[pos] != '$' {
        return None;
    }
    match p_name(c, pos + 1) {
        Some((e, s)) => Some((e, Term::Variable(s))),
        None => None,
    }
}

/// The text a string literal denotes from `i` up to its closing quote: `\\`,
/// `\"` and `\n` are escapes; `None` when it is not closed or holds another
/// escape.
pub open spec fn unescape(s: Seq<char>, i: int) -> Option<(int, Seq<char>)>
    decreases s.len() - i,
{
    if i < 0 || i >= s.len() {
        None
    } else if s[i] == '"' {
        Some((i, Seq::empty()))
    } else if s[i] == '\\' {
        if i + 1 < s.len() && (s[i + 1] == '\\' || s[i + 1] == '"' || s[i + 1] == 'n') {
            let ch = if s[i + 1] == 'n' {
                '\n'
            } else {
                s[i + 1]
            };
            match unescape(s, i + 2) {
                Some((e, rest)) => Some((e, seq![ch] + rest)),
                None => None,
            }
        } else {
            None
        }
    } else {
        match unescape(s, i + 1) {
            Some((e, rest)) => Some((e, seq![s[i]] + rest)),
            None => None,
        }
    }
}

/// A literal that is closed ends inside the text, at or after its start.
proof fn lemma_unescape_bounds(s: Seq<char>, i: int)
    requires
        unescape(s, i) is Some,
    ensures
        i <= literal_end(s, i) < s.len(),
    decreases s.len() - i,
{
    if s[i] == '"' {
    } else if s[i] == '\\' {
        lemma_unescape_bounds(s, i + 2);
    } else {
        lemma_unescape_bounds(s, i + 1);
    }
}

/// Where the closing quote of a literal read from `i` stands.
pub open spec fn literal_end(s: Seq<char>, i: int) -> int {
    match unescape(s, i) {
        Some((e, _)) => e,
        None => -1,
    }
}

/// The text of a literal read from `i`.
pub open spec fn literal_text(s: Seq<char>, i: int) -> Seq<char> {
    match unescape(s, i) {
        Some((_, t)) => t,
        None => Seq::empty(),
    }
}

/// A string literal between double quotes.
pub fn p_string(c: &Vec<char>, pos: usize) -> (r: Option<(usize, Term)>)
    requires
        pos <= c.len(),
    ensures
        match r {
            Some((e, t)) => pos < c.len() && c@[pos as int] == '"' && unescape(c@, pos + 1) is Some
                && pos + 1 < e <= c.len() && e == literal_end(c@, pos + 1) + 1 && t@ == NamedV::Str(literal_text(c@, pos + 1)),
            None => !(pos < c.len() && c@[pos as int] == '"' && unescape(c@, pos + 1) is Some),
        },
        term_result(r) == string_at(c@, pos as int),
{
    if pos >= c.len() || c[pos] != '"' {
        return None;
    }
    let mut out: Vec<char> = Vec::new();
    let mut i = pos + 1;
    while i < c.len()
        invariant
            pos + 1 <= i <= c.len(),
            pos < c.len(),
            c@[pos as int] == '"',
            forall|e: int, text: Seq<char>| unescape(c@, i as int) == Some((e, text)) <==> unescape(c@, pos + 1) == Some((e, out@ + text)),
            unescape(c@, i as int) is None ==> unescape(c@, pos + 1) is None,
        decreases c.len() - i,
    {
        let ch = c[i];
        if ch == '"' {
            let s = string_from_chars(out.as_slice());
            assert(unescape(c@, i as int) == Some((i as int, Seq::<char>::empty())));
            assert(out@ + Seq::<char>::empty() =~= out@);
            assert(unescape(c@, pos + 1) == Some((i as int, out@ + Seq::<char>::empty())));
            assert(literal_text(c@, pos + 1) == out@);
            proof {
                lemma_unescape_bounds(c@, pos + 1);
            }
            return Some((i + 1, Term::Str(s)));
        }
        if ch == '\\' {
            if i + 1 < c.len() && (c[i + 1] == '\\' || c[i + 1] == '"' || c[i + 1] == 'n') {
                let esc = if c[i + 1] == 'n' { '\n' } else { c[i + 1] };
                let ghost before = out@;
                out.push(esc);
                assert forall|e: int, text: Seq<char>| unescape(c@, i + 2) == Some((e, text)) <==> unescape(c@, pos + 1) == Some((e, out@ + text)) by {
                    assert(seq![esc] + text =~= seq![esc] + text);
                    assert(before + (seq![esc] + text) =~= out@ + text);
                    if unescape(c@, pos + 1) == Some((e, out@ + text)) {
                        let (e2, t2) = unescape(c@, i as int)->0;
                        assert(unescape(c@, pos + 1) == Some((e2, before + t2)));
                        assert(before + t2 == out@ + text);
                        assert(t2 =~= seq![esc] + text) by {
                            assert(t2 == (before + t2).subrange(before.len() as int, (before + t2).len() as int));
                            assert((out@ + text).subrange(before.len() as int, (out@ + text).len() as int) =~= seq![esc] + text);
                        }
                        let (e3, t3) = unescape(c@, i + 2)->0;
                        assert(t2 == seq![esc] + t3);
                        assert(t3 =~= text) by {
                            assert((seq![esc] + text).subrange(1, (seq![esc] + text).len() as int) =~= text);
                            assert((seq![esc] + t3).subrange(1, (seq![esc] + t3).len() as int) =~= t3);
                        }
                    }
                }
                i = i + 2;
            } else {
                return None;
            }
        } else {
            let ghost before = out@;
            out.push(ch);
            assert forall|e: int, text: Seq<char>| unescape(c@, i + 1) == Some((e, text)) <==> unescape(c@, pos + 1) == Some((e, out@ + text)) by {
                assert(before + (seq![ch] + text) =~= out@ + text);
                if unescape(c@, pos + 1) == Some((e, out@ + text)) {
                    let (e2, t2) = unescape(c@, i as int)->0;
                    assert(unescape(c@, pos + 1) == Some((e2, before + t2)));
                    assert(t2 =~= seq![ch] + text) by {
                        assert(t2 == (before + t2).subrange(before.len() as int, (before + t2).len() as int));
                        assert((out@ + text).subrange(before.len() as int, (out@ + text).len() as int) =~= seq![ch] + text);
                    }
                    let (e3, t3) = unescape(c@, i + 1)->0;
                    assert(t3 =~= text) by {
                        assert((seq![ch] + text).subrange(1, (seq![ch] + text).len() as int) =~= text);
                        assert((seq![ch] + t3).subrange(1, (seq![ch] + t3).len() as int) =~= t3);
                    }
                }
            }
            i = i + 1;
        }
    }
    None
}

/// The value of a run of decimal digits.
pub open spec fn digits_value(s: Seq<char>) -> int
    decreases s.len(),
{
    if s.len() == 0 {
        0
    } else {
        digits_value(s.drop_last()) * 10 + (s.last() as u32 - '0' as u32)
    }
}

/// Where the digits of an integer at `pos` begin, after an optional minus sign.
pub open spec fn digits_start(c: Seq<char>, pos: int) -> int {
    if 0 <= pos < c.len() && c[pos] == '-' {
        pos + 1
    } else {
        pos
    }
}

/// The integer an optional minus sign and digits denote.
pub open spec fn integer_value(c: Seq<char>, pos: int, e: int) -> int {
    if c[pos] == '-' {
        -digits_value(c.subrange(pos + 1, e))
    } else {
        digits_value(c.subrange(pos, e))
    }
}

/// An integer: an optional minus sign and one or more digits whose value
/// fits in 64 bits.
pub fn p_integer(c: &Vec<char>, pos: usize) -> (r: Option<(usize, Term)>)
    requires
        pos <= c.len(),
    ensures
        match r {
            Some((e, t)) => {
                &&& digits_start(c@, pos as int) < e
                &&& digits_end(c@, digits_start(c@, pos as int), e as int)
                &&& t@ == NamedV::Integer(integer_value(c@, pos as int, e as int) as i64)
                &&& i64::MIN <= integer_value(c@, pos as int, e as int) <= i64::MAX
            },
            None => forall|e: int| digits_start(c@, pos as int) < e && #[trigger] digits_end(c@, digits_start(c@, pos as int), e) ==> !(
                i64::MIN <= integer_value(c@, pos as int, e) <= i64::MAX),
        },
        term_result(r) == integer_at(c@, pos as int),
{
    let negative = pos < c.len() && c[pos] == '-';
    let start = if negative { pos + 1 } else { pos };
    let mut i = start;
    let mut acc: i128 = 0;
    let mut big = false;
    while i < c.len() && digit_char(c[i])
        invariant
            start <= i <= c.len(),
            forall|k: int| start <= k < i ==> is_digit(#[trigger] c@[k]),
            !big ==> 0 <= acc <= 200_000_000_000_000_000_000 && acc == digits_value(c@.subrange(start as int, i as int)),
            big ==> digits_value(c@.subrange(start as int, i as int)) > 10_000_000_000_000_000_000,
        decreases c.len() - i,
    {
        let d = (c[i] as u32 - '0' as u32) as i128;
        let ghost sub = c@.subrange(start as int, i + 1);
        assert(sub.drop_last() =~= c@.subrange(start as int, i as int));
        assert(sub.last() == c@[i as int]);
        proof {
            assert(digits_value(sub) == digits_value(c@.subrange(start as int, i as int)) * 10 + d);
            if big {
                assert(digits_value(c@.subrange(start as int, i as int)) * 10 >= digits_value(c@.subrange(start as int, i as int))) by (nonlinear_arith)
                    requires digits_value(c@.subrange(start as int, i as int)) > 0;
            }
        }
        if !big {
            if acc > 10_000_000_000_000_000_000 {
                big = true;
                assert(digits_value(sub) > 10_000_000_000_000_000_000) by (nonlinear_arith)
                    requires digits_value(sub) == acc * 10 + d, acc > 10_000_000_000_000_000_000, d >= 0;
            } else {
                assert(0 <= d <= 9);
                assert(acc * 10 + d <= 200_000_000_000_000_000_000) by (nonlinear_arith)
                    requires 0 <= acc <= 10_000_000_000_000_000_000, 0 <= d <= 9;
                acc = acc * 10 + d;
            }
        }
        i = i + 1;
    }
    proof {
        lemma_longest_run_end(c@, start as int, i as int, |ch: char| is_digit(ch));
    }
    assert forall|e: int| start < e && #[trigger] digits_end(c@, start as int, e) implies e == i by {
        if e < i {
            assert(is_digit(c@[e]));
        }
        if e > i {
            assert(is_digit(c@[i as int]));
        }
    }
    assert(negative ==> c@.subrange(pos + 1, i as int) == c@.subrange(start as int, i as int));
    assert(!negative ==> c@.subrange(pos as int, i as int) == c@.subrange(start as int, i as int));
    if i == start || big {
        return None;
    }
    let ghost digits = c@.subrange(start as int, i as int);
    let v: i128 = if negative { -acc } else { acc };
    if v < i64::MIN as i128 || v > i64::MAX as i128 {
        return None;
    }
    assert(negative ==> c@.subrange(pos + 1, i as int) == digits);
    assert(!negative ==> c@.subrange(pos as int, i as int) == digits);
    Some((i, Term::Integer(v as i64)))
}

/// The seconds since the Unix epoch of an RFC 3339 date, `None` when the
/// text is not one.
pub uninterp spec fn rfc3339_seconds(s: Seq<char>) -> Option<i64>;

/// Relies on `chrono::DateTime::parse_from_rfc3339` to read the date and on
/// `DateTime::timestamp` for its seconds since the Unix epoch.
#[verifier::external_body]
fn parse_rfc3339(s: &str) -> (r: Option<i64>)
    ensures
        r == rfc3339_seconds(s@),
{
    match chrono::DateTime::parse_from_rfc3339(s) {
        Ok(d) => Some(d.timestamp()),
        Err(_) => None,
    }
}

/// A date: the longest run of characters other than `,`, space and `)`,
/// read as an RFC 3339 date no earlier than the Unix epoch.
pub fn p_date(c: &Vec<char>, pos: usize) -> (r: Option<(usize, Term)>)
    requires
        pos <= c.len(),
    ensures
        match r {
            Some((e, t)) => pos < e && date_end(c@, pos as int, e as int)
                && (rfc3339_seconds(c@.subrange(pos as int, e as int)) matches Some(secs)
                && secs >= 0 && t@ == NamedV::Date(secs as u64)),
            None => forall|e: int| pos < e && #[trigger] date_end(c@, pos as int, e) ==> !(
                rfc3339_seconds(c@.subrange(pos as int, e)) matches Some(secs) && secs >= 0),
        },
        term_result(r) == date_at(c@, pos as int),
{
    let mut i = pos;
    while i < c.len() && !(c[i] == ',' || c[i] == ' ' || c[i] == ')')
        invariant
            pos <= i <= c.len(),
            forall|k: int| pos <= k < i ==> !ends_date(#[trigger] c@[k]),
        decreases c.len() - i,
    {
        i = i + 1;
    }
    proof {
        lemma_longest_run_end(c@, pos as int, i as int, |ch: char| !ends_date(ch));
    }
    assert forall|e: int| pos < e && #[trigger] date_end(c@, pos as int, e) implies e == i by {
        if e < i {
            assert(!ends_date(c@[e]));
        }
        if e > i {
            assert(!ends_date(c@[i as int]));
        }
    }
    if i == pos {
        return None;
    }
    let text = text_between(c, pos, i);
    match parse_rfc3339(text.as_str()) {
        Some(secs) => if secs >= 0 {
            Some((i, Term::Date(secs as u64)))
        } else {
            None
        },
        None => None,
    }
}

/// The value of a hexadecimal digit.
pub open spec fn hex_value(ch: char) -> int {
    if is_digit(ch) {
        ch as u32 - '0' as u32
    } else if 'a' <= ch && ch <= 'f' {
        ch as u32 - 'a' as u32 + 10
    } else {
        ch as u32 - 'A' as u32 + 10
    }
}

/// The bytes that pairs of hexadecimal digits denote.
pub open spec fn hex_decoded(s: Seq<char>) -> Seq<u8> {
    Seq::new(s.len() / 2, |i: int| (hex_value(s[2 * i]) * 16 + hex_value(s[2 * i + 1])) as u8)
}

/// Relies on `hex::decode`: text of an even number of hexadecimal digits,
/// either case, gives one byte per pair, high digit first; other text fails.
#[verifier::external_body]
fn hex_decode(s: &str) -> (r: Option<Vec<u8>>)
    ensures
        r is Some <==> (s@.len() % 2 == 0 && forall|i: int| 0 <= i < s@.len() ==> is_hex_digit(#[trigger] s@[i])),
        r matches Some(v) ==> v@ == hex_decoded(s@),
{
    hex::decode(s).ok()
}

/// Bytes: `hex:` and an even number of hexadecimal digits.
pub fn p_bytes(c: &Vec<char>, pos: usize) -> (r: Option<(usize, Term)>)
    requires
        pos <= c.len(),
    ensures
        match r {
            Some((e, t)) => pos + 4 < e && c@.subrange(pos as int, pos + 4) == "hex:"@
                && longest_run(c@, pos + 4, e as int, |ch: char| is_hex_digit(ch))
                && (e - pos - 4) % 2 == 0
                && t@ == NamedV::Bytes(hex_decoded(c@.subrange(pos + 4, e as int))),
            None => true,
        },
        term_result(r) == bytes_at(c@, pos as int),
{
    if !looking_at(c, pos, "hex:") {
        return None;
    }
    proof { reveal_strlit("hex:"); }
    let start = pos + 4;
    let mut i = start;
    while i < c.len() && hex_char(c[i])
        invariant
            start <= i <= c.len(),
            forall|k: int| start <= k < i ==> is_hex_digit(#[trigger] c@[k]),
        decreases c.len() - i,
    {
        i = i + 1;
    }
    proof {
        lemma_longest_run_end(c@, start as int, i as int, |ch: char| is_hex_digit(ch));
    }
    if i == start {
        return None;
    }
    let text = text_between(c, start, i);
    match hex_decode(text.as_str()) {
        Some(v) => Some((i, Term::Bytes(v))),
        None => None,
    }
}

/// A boolean: `true` or `false`.
pub fn p_boolean(c: &Vec<char>, pos: usize) -> (r: Option<(usize, Term)>)
    requires
        pos <= c.len(),
    ensures
        match r {
            Some((e, t)) => e <= c.len() && ((e == pos + 4 && c@.subrange(pos as int, pos + 4) == "true"@ && t@ == NamedV::Bool(true))
                || (e == pos + 5 && c@.subrange(pos as int, pos + 5) == "false"@ && t@ == NamedV::Bool(false))),
            None => !(pos + 4 <= c.len() && c@.subrange(pos as int, pos + 4) == "true"@)
                && !(pos + 5 <= c.len() && c@.subrange(pos as int, pos + 5) == "false"@),
        },
        term_result(r) == boolean_at(c@, pos as int),
{
    proof {
        reveal_strlit("true");
        reveal_strlit("false");
    }
    if looking_at(c, pos, "true") {
        Some((pos + 4, Term::Bool(true)))
    } else if looking_at(c, pos, "false") {
        Some((pos + 5, Term::Bool(false)))
    } else {
        None
    }
}

/// A term that may stand in a set: a symbol, string, date, integer, bytes
/// or boolean, after layout.
fn p_term_in_set(c: &Vec<char>, pos: usize) -> (r: Option<(usize, Term)>)
    requires
        pos <= c.len(),
    ensures
        r matches Some((e, t)) ==> pos < e <= c.len() && !(t@ is Variable) && !(t@ is TermSet),
        term_result(r) == member_at(c@, pos as int),
{
    let p = skip_space(c, pos);
    if let Some(x) = p_symbol(c, p) {
        return Some(x);
    }
    if let Some(x) = p_string(c, p) {
        return Some(x);
    }
    if let Some(x) = p_date(c, p) {
        return Some(x);
    }
    if let Some(x) = p_integer(c, p) {
        return Some(x);
    }
    if let Some(x) = p_bytes(c, p) {
        return Some(x);
    }
    p_boolean(c, p)
}

/// A set: `[`, members separated by commas, `]`; the members must share one
/// variant.
fn p_set(c: &Vec<char>, pos: usize) -> (r: Option<(usize, Term)>)
    requires
        pos <= c.len(),
    ensures
        r matches Some((e, t)) ==> pos < e <= c.len() && t@ is TermSet && builder::valid_members(t@->TermSet_0),
        term_result(r) == set_at(c@, pos as int),
{
    let p = skip_space(c, pos);
    if p >= c.len() || c[p] != '[' {
        return None;
    }
    let (mut i, first) = match p_term_in_set(c, p + 1) {
        Some(x) => x,
        None => {
            return None;
        },
    };
    let ghost e0 = i as int;
    let ghost t0 = first@;
    let mut members: Vec<Term> = Vec::new();
    members.push(first);
    assert(members@.map_values(|t: Term| t@) =~= seq![t0]);
    loop
        invariant
            pos < i <= c.len(),
            members@.len() > 0,
            forall|k: int| 0 <= k < members@.len() ==> !((#[trigger] members@[k])@ is Variable) && !(members@[k]@ is TermSet),
            members_rest(c@, i as int, members@.map_values(|t: Term| t@)) == members_rest(c@, e0, seq![t0]),
        ensures
            pos < i <= c.len(),
            forall|k: int| 0 <= k < members@.len() ==> !((#[trigger] members@[k])@ is Variable) && !(members@[k]@ is TermSet),
            members_rest(c@, e0, seq![t0]) == (i as int, members@.map_values(|t: Term| t@)),
        decreases c.len() - i,
    {
        let ghost items = members@.map_values(|t: Term| t@);
        let q = skip_space(c, i);
        if q >= c.len() || c[q] != ',' {
            assert(members_rest(c@, i as int, items) == (i as int, items));
            break;
        }
        match p_term_in_set(c, q + 1) {
            Some((e, t)) => {
                assert(members_rest(c@, i as int, items) == members_rest(c@, e as int, items.push(t@)));
                members.push(t);
                assert(members@.map_values(|t: Term| t@) =~= items.push(t@));
                i = e;
            },
            None => {
                assert(members_rest(c@, i as int, items) == (i as int, items));
                break;
            },
        }
    }
    let ghost items = members@.map_values(|t: Term| t@);
    assert(members_rest(c@, e0, seq![t0]) == (i as int, items));
    let q = skip_space(c, i);
    if q >= c.len() || c[q] != ']' {
        return None;
    }
    match builder::set(members) {
        Ok(t) => {
            Some((q + 1, t))
        },
        Err(_) => None,
    }
}

/// A term after layout: a symbol, string, date, variable, integer, bytes,
/// boolean or set, tried in that order.
fn p_term(c: &Vec<char>, pos: usize) -> (r: Option<(usize, Term)>)
    requires
        pos <= c.len(),
    ensures
        r matches Some((e, t)) ==> pos < e <= c.len(),
        term_result(r) == term_at(c@, pos as int),
{
    let p = skip_space(c, pos);
    if let Some(x) = p_symbol(c, p) {
        return Some(x);
    }
    if let Some(x) = p_string(c, p) {
        return Some(x);
    }
    if let Some(x) = p_date(c, p) {
        return Some(x);
    }
    if let Some(x) = p_variable(c, p) {
        return Some(x);
    }
    if let Some(x) = p_integer(c, p) {
        return Some(x);
    }
    if let Some(x) = p_bytes(c, p) {
        return Some(x);
    }
    if let Some(x) = p_boolean(c, p) {
        return Some(x);
    }
    p_set(c, p)
}

/// Terms separated by commas and closed by `)`; with `allow_empty`, `)`
/// may come at once.
fn p_term_list(c: &Vec<char>, pos: usize, allow_empty: bool) -> (r: Option<(usize, Vec<Term>)>)
    requires
        pos <= c.len(),
    ensures
        r matches Some((e, ts)) ==> pos < e <= c.len() && (allow_empty || ts@.len() > 0),
        match r {
            Some((e, ts)) => term_list_at(c@, pos as int, allow_empty) == Some((e as int, ts@.map_values(|t: Term| t@))),
            None => term_list_at(c@, pos as int, allow_empty) is None,
        },
{
    let mut ids: Vec<Term> = Vec::new();
    let (mut i, first) = match p_term(c, pos) {
        Some(x) => x,
        None => {
            if allow_empty {
                let q = skip_space(c, pos);
                if q < c.len() && c[q] == ')' {
                    assert(ids@.map_values(|t: Term| t@) =~= Seq::<NamedV>::empty());
                    return Some((q + 1, ids));
                }
            }
            return None;
        },
    };
    let ghost e0 = i as int;
    let ghost t0 = first@;
    ids.push(first);
    assert(ids@.map_values(|t: Term| t@) =~= seq![t0]);
    loop
        invariant
            pos < i <= c.len(),
            ids@.len() > 0,
            terms_rest(c@, i as int, ids@.map_values(|t: Term| t@)) == terms_rest(c@, e0, seq![t0]),
        ensures
            pos < i <= c.len(),
            ids@.len() > 0,
            terms_rest(c@, e0, seq![t0]) == (i as int, ids@.map_values(|t: Term| t@)),
        decreases c.len() - i,
    {
        let ghost items = ids@.map_values(|t: Term| t@);
        let q = skip_space(c, i);
        if q >= c.len() || c[q] != ',' {
            assert(terms_rest(c@, i as int, items) == (i as int, items));
            break;
        }
        match p_term(c, q + 1) {
            Some((e, t)) => {
                assert(terms_rest(c@, i as int, items) == terms_rest(c@, e as int, items.push(t@)));
                ids.push(t);
                assert(ids@.map_values(|t: Term| t@) =~= items.push(t@));
                i = e;
            },
            None => {
                assert(terms_rest(c@, i as int, items) == (i as int, items));
                break;
            },
        }
    }
    assert(terms_rest(c@, e0, seq![t0]) == (i as int, ids@.map_values(|t: Term| t@)));
    let q = skip_space(c, i);
    if q >= c.len() || c[q] != ')' {
        return None;
    }
    Some((q + 1, ids))
}

/// A predicate: a name and one or more terms in parentheses; with
/// `allow_empty`, as in a rule head, the parentheses may be empty.
fn p_predicate(c: &Vec<char>, pos: usize, allow_empty: bool) -> (r: Option<(usize, Predicate)>)
    requires
        pos <= c.len(),
    ensures
        r matches Some((e, p)) ==> pos < e <= c.len() && (allow_empty || p@.terms.len() > 0),
        match r {
            Some((e, p)) => predicate_at(c@, pos as int, allow_empty) == Some((e as int, p@)),
            None => predicate_at(c@, pos as int, allow_empty) is None,
        },
{
    let p = skip_space(c, pos);
    let (i, name) = match p_name(c, p) {
        Some(x) => x,
        None => {
            return None;
        },
    };
    let q = skip_space(c, i);
    if q >= c.len() || c[q] != '(' {
        return None;
    }
    match p_term_list(c, q + 1, allow_empty) {
        Some((e, ids)) => {
            let r = Predicate { name, ids };
            assert(r@.terms.len() == ids@.len());
            Some((e, r))
        },
        None => None,
    }
}

/// An expression tree, before it is flattened into postfix instructions.
#[derive(Debug, PartialEq)]
pub enum Expr {
    Value(Term),
    Unary(Op, Box<Expr>),
    Binary(Op, Box<Expr>, Box<Expr>),
}

/// The postfix instructions of an expression tree: operands first.
pub open spec fn postfix(e: Expr) -> Seq<builder::NamedOpV>
    decreases e,
{
    match e {
        Expr::Value(t) => seq![builder::NamedOpV::Value(t@)],
        Expr::Unary(op, x) => postfix(*x) + seq![op@],
        Expr::Binary(op, l, r) => postfix(*l) + postfix(*r) + seq![op@],
    }
}

impl Expr {
    /// Flattens the tree into postfix instructions.
    pub fn opcodes(self) -> (r: Vec<Op>)
        ensures
            r@.map_values(|o: Op| o@) == postfix(self),
    {
        let mut v: Vec<Op> = Vec::new();
        self.into_opcodes(&mut v);
        assert(v@.map_values(|o: Op| o@) =~= postfix(self));
        v
    }

    fn into_opcodes(self, v: &mut Vec<Op>)
        ensures
            final(v)@.map_values(|o: Op| o@) == old(v)@.map_values(|o: Op| o@) + postfix(self),
        decreases self,
    {
        let ghost e = self;
        match self {
            Expr::Value(t) => {
                let ghost before = v@;
                v.push(Op::Value(t));
                assert(v@.map_values(|o: Op| o@) =~= before.map_values(|o: Op| o@) + postfix(e));
            },
            Expr::Unary(op, x) => {
                let ghost before = v@;
                x.into_opcodes(v);
                let ghost mid = v@;
                v.push(op);
                assert(v@.map_values(|o: Op| o@) =~= mid.map_values(|o: Op| o@).push(op@));
                assert(v@.map_values(|o: Op| o@) =~= before.map_values(|o: Op| o@) + postfix(e));
            },
            Expr::Binary(op, l, r) => {
                let ghost before = v@;
                l.into_opcodes(v);
                r.into_opcodes(v);
                let ghost mid = v@;
                v.push(op);
                assert(v@.map_values(|o: Op| o@) =~= mid.map_values(|o: Op| o@).push(op@));
                assert(v@.map_values(|o: Op| o@) =~= before.map_values(|o: Op| o@) + postfix(e));
            },
        }
    }
}

/// The characters of `w` stand at `p`.
pub open spec fn word_at(c: Seq<char>, p: int, w: Seq<char>) -> bool {
    0 <= p && p + w.len() <= c.len() && c.subrange(p, p + w.len()) == w
}

/// An operator of precedence `level` at `p` (0: `&&`; 1: `<=`, `>=`, `<`,
/// `>`, `==`; 2: `+`; 3: `in`, `not in`, `starts with`, `ends with`,
/// `matches`), tried in that order.
pub open spec fn level_op_at(c: Seq<char>, p: int, level: int) -> Option<(int, Binary)> {
    if level == 0 {
        if word_at(c, p, "&&"@) { Some((p + 2, Binary::And)) } else { None }
    } else if level == 1 {
        if word_at(c, p, "<="@) {
            Some((p + 2, Binary::LessOrEqual))
        } else if word_at(c, p, ">="@) {
            Some((p + 2, Binary::GreaterOrEqual))
        } else if word_at(c, p, "<"@) {
            Some((p + 1, Binary::LessThan))
        } else if word_at(c, p, ">"@) {
            Some((p + 1, Binary::GreaterThan))
        } else if word_at(c, p, "=="@) {
            Some((p + 2, Binary::Equal))
        } else {
            None
        }
    } else if level == 2 {
        if 0 <= p < c.len() && c[p] == '+' { Some((p + 1, Binary::Add)) } else { None }
    } else {
        if word_at(c, p, "in"@) {
            Some((p + 2, Binary::In))
        } else if word_at(c, p, "not in"@) {
            Some((p + 6, Binary::NotIn))
        } else if word_at(c, p, "starts with"@) {
            Some((p + 11, Binary::Prefix))
        } else if word_at(c, p, "ends with"@) {
            Some((p + 9, Binary::Suffix))
        } else if word_at(c, p, "matches"@) {
            Some((p + 7, Binary::Regex))
        } else {
            None
        }
    }
}

/// The postfix instructions of an expression at precedence `level` from
/// `pos` (4: a negation `-` of a whole expression, or else a term).
pub open spec fn expr_at(c: Seq<char>, pos: int, level: int) -> Option<(int, Seq<builder::NamedOpV>)>
    decreases c.len() - pos, 4 - level, 1int,
{
    if level >= 4 {
        let p = space_stop(c, pos);
        let q = space_stop(c, p + 1);
        let negated = if 0 <= p < c.len() && c[p] == '-' && pos < q <= c.len() {
            match expr_at(c, q, 0) {
                Some((e, ops)) => Some((e, ops + seq![builder::NamedOpV::Unary(Unary::Negate)])),
                None => None,
            }
        } else {
            None
        };
        if negated is Some {
            negated
        } else {
            match term_at(c, pos) {
                Some((e, t)) => Some((e, seq![builder::NamedOpV::Value(t)])),
                None => None,
            }
        }
    } else if level < 0 {
        None
    } else {
        match expr_at(c, pos, level + 1) {
            Some((e0, ops0)) => if pos < e0 <= c.len() {
                Some(level_rest(c, e0, level, ops0))
            } else {
                Some((e0, ops0))
            },
            None => None,
        }
    }
}

/// Operands of the next level joined to `acc` by operators of `level`,
/// left to right, from `i`.
pub open spec fn level_rest(c: Seq<char>, i: int, level: int, acc: Seq<builder::NamedOpV>) -> (int, Seq<builder::NamedOpV>)
    decreases c.len() - i, 4 - level, 0int,
{
    if 0 <= level < 4 {
        let q = space_stop(c, i);
        match level_op_at(c, q, level) {
            Some((o, op)) => if i < o <= c.len() {
                match expr_at(c, o, level + 1) {
                    Some((e, rhs)) => if o < e <= c.len() {
                        level_rest(c, e, level, acc + rhs + seq![builder::NamedOpV::Binary(op)])
                    } else {
                        (i, acc)
                    },
                    None => (i, acc),
                }
            } else {
                (i, acc)
            },
            None => (i, acc),
        }
    } else {
        (i, acc)
    }
}

/// The value of an operator parser's result.
pub open spec fn op_result(r: Option<(usize, Binary)>) -> Option<(int, Binary)> {
    match r {
        Some((e, b)) => Some((e as int, b)),
        None => None,
    }
}

/// `&&`.
fn p_and_op(c: &Vec<char>, pos: usize) -> (r: Option<(usize, Binary)>)
    requires
        pos <= c.len(),
    ensures
        r matches Some((e, _)) ==> pos < e <= c.len(),
        op_result(r) == level_op_at(c@, pos as int, 0),
{
    if looking_at(c, pos, "&&") {
        proof { reveal_strlit("&&"); }
        return Some((pos + 2, Binary::And));
    }
    None
}

/// Comparisons: `<=`, `>=`, `<`, `>`, `==`.
fn p_comparison_op(c: &Vec<char>, pos: usize) -> (r: Option<(usize, Binary)>)
    requires
        pos <= c.len(),
    ensures
        r matches Some((e, _)) ==> pos < e <= c.len(),
        op_result(r) == level_op_at(c@, pos as int, 1),
{
    proof {
        reveal_strlit("<=");
        reveal_strlit(">=");
        reveal_strlit("<");
        reveal_strlit(">");
        reveal_strlit("==");
    }
    if looking_at(c, pos, "<=") {
        Some((pos + 2, Binary::LessOrEqual))
    } else if looking_at(c, pos, ">=") {
        Some((pos + 2, Binary::GreaterOrEqual))
    } else if looking_at(c, pos, "<") {
        Some((pos + 1, Binary::LessThan))
    } else if looking_at(c, pos, ">") {
        Some((pos + 1, Binary::GreaterThan))
    } else if looking_at(c, pos, "==") {
        Some((pos + 2, Binary::Equal))
    } else {
        None
    }
}

/// `+`.
fn p_add_op(c: &Vec<char>, pos: usize) -> (r: Option<(usize, Binary)>)
    requires
        pos <= c.len(),
    ensures
        r matches Some((e, _)) ==> pos < e <= c.len(),
        op_result(r) == level_op_at(c@, pos as int, 2),
{
    if pos < c.len() && c[pos] == '+' {
        return Some((pos + 1, Binary::Add));
    }
    None
}

/// Set and string operators: `in`, `not in`, `starts with`, `ends with`,
/// `matches`.
fn p_text_op(c: &Vec<char>, pos: usize) -> (r: Option<(usize, Binary)>)
    requires
        pos <= c.len(),
    ensures
        r matches Some((e, _)) ==> pos < e <= c.len(),
        op_result(r) == level_op_at(c@, pos as int, 3),
{
    proof {
        reveal_strlit("in");
        reveal_strlit("not in");
        reveal_strlit("starts with");
        reveal_strlit("ends with");
        reveal_strlit("matches");
    }
    if looking_at(c, pos, "in") {
        Some((pos + 2, Binary::In))
    } else if looking_at(c, pos, "not in") {
        Some((pos + 6, Binary::NotIn))
    } else if looking_at(c, pos, "starts with") {
        Some((pos + 11, Binary::Prefix))
    } else if looking_at(c, pos, "ends with") {
        Some((pos + 9, Binary::Suffix))
    } else if looking_at(c, pos, "matches") {
        Some((pos + 7, Binary::Regex))
    } else {
        None
    }
}

/// The operators of one precedence level, loosest first.
fn p_level_op(c: &Vec<char>, pos: usize, level: u8) -> (r: Option<(usize, Binary)>)
    requires
        pos <= c.len(),
        level < 4,
    ensures
        r matches Some((e, _)) ==> pos < e <= c.len(),
        op_result(r) == level_op_at(c@, pos as int, level as int),
{
    if level == 0 {
        p_and_op(c, pos)
    } else if level == 1 {
        p_comparison_op(c, pos)
    } else if level == 2 {
        p_add_op(c, pos)
    } else {
        p_text_op(c, pos)
    }
}

/// An expression at precedence `level` (0: `&&`, 1: comparisons, 2: `+`,
/// 3: set and string operators, 4: a negation or a term): operands of the
/// next level joined left to right by this level's operators.
fn p_expr_level(c: &Vec<char>, pos: usize, level: u8) -> (r: Option<(usize, Expr)>)
    requires
        pos <= c.len(),
        level <= 4,
    ensures
        r matches Some((e, _)) ==> pos < e <= c.len(),
        match r {
            Some((e, x)) => expr_at(c@, pos as int, level as int) == Some((e as int, postfix(x))),
            None => expr_at(c@, pos as int, level as int) is None,
        },
    decreases c.len() - pos, 4 - level,
{
    if level == 4 {
        let p = skip_space(c, pos);
        if p < c.len() && c[p] == '-' {
            let q = skip_space(c, p + 1);
            match p_expr_level(c, q, 0) {
                Some((e, x)) => {
                    let r = Expr::Unary(Op::Unary(Unary::Negate), Box::new(x));
                    assert(postfix(r) == postfix(x) + seq![builder::NamedOpV::Unary(Unary::Negate)]);
                    return Some((e, r));
                },
                None => {},
            }
        }
        return match p_term(c, pos) {
            Some((e, t)) => {
                let r = Expr::Value(t);
                assert(postfix(r) == seq![builder::NamedOpV::Value(t@)]);
                Some((e, r))
            },
            None => None,
        };
    }
    let (mut i, mut acc) = match p_expr_level(c, pos, level + 1) {
        Some(x) => x,
        None => {
            return None;
        },
    };
    let ghost e0 = i as int;
    let ghost ops0 = postfix(acc);
    loop
        invariant
            pos < i <= c.len(),
            level < 4,
            level_rest(c@, i as int, level as int, postfix(acc)) == level_rest(c@, e0, level as int, ops0),
        ensures
            pos < i <= c.len(),
            level_rest(c@, e0, level as int, ops0) == (i as int, postfix(acc)),
        decreases c.len() - i,
    {
        let q = skip_space(c, i);
        let (o, op) = match p_level_op(c, q, level) {
            Some(x) => x,
            None => {
                break;
            },
        };
        match p_expr_level(c, o, level + 1) {
            Some((e, rhs)) => {
                let ghost before = postfix(acc);
                acc = Expr::Binary(Op::Binary(op), Box::new(acc), Box::new(rhs));
                assert(postfix(acc) == before + postfix(rhs) + seq![builder::NamedOpV::Binary(op)]);
                i = e;
            },
            None => {
                break;
            },
        }
    }
    Some((i, acc))
}

/// What an element of a rule body stands for.
pub enum BodyItemV {
    Pred(NamedPredV),
    Expr(Seq<builder::NamedOpV>),
}

/// The predicates and expressions of a rule body.
pub type BodyV = (Seq<NamedPredV>, Seq<Seq<builder::NamedOpV>>);

/// An element of a rule body at `pos`: a predicate, or else an expression.
pub open spec fn item_at(c: Seq<char>, pos: int) -> Option<(int, BodyItemV)> {
    match predicate_at(c, pos, false) {
        Some((e, p)) => Some((e, BodyItemV::Pred(p))),
        None => match expr_at(c, pos, 0) {
            Some((e, ops)) => Some((e, BodyItemV::Expr(ops))),
            None => None,
        },
    }
}

/// A body with one more element.
pub open spec fn add_item(b: BodyV, it: BodyItemV) -> BodyV {
    match it {
        BodyItemV::Pred(p) => (b.0.push(p), b.1),
        BodyItemV::Expr(ops) => (b.0, b.1.push(ops)),
    }
}

/// More body elements after `i`, each after a comma.
pub open spec fn body_rest(c: Seq<char>, i: int, acc: BodyV) -> (int, BodyV)
    decreases c.len() - i,
{
    let q = space_stop(c, i);
    if 0 <= q < c.len() && c[q] == ',' {
        match item_at(c, space_stop(c, q + 1)) {
            Some((e, it)) => if i < e <= c.len() {
                body_rest(c, e, add_item(acc, it))
            } else {
                (i, acc)
            },
            None => (i, acc),
        }
    } else {
        (i, acc)
    }
}

/// A rule body after layout: elements separated by commas.
pub open spec fn body_at(c: Seq<char>, pos: int) -> Option<(int, BodyV)> {
    match item_at(c, space_stop(c, pos)) {
        Some((e0, it)) => Some(body_rest(c, e0, add_item((Seq::empty(), Seq::empty()), it))),
        None => None,
    }
}

/// A rule: a head whose parentheses may be empty, `<-`, and a body.
pub open spec fn rule_at(c: Seq<char>, pos: int) -> Option<(int, builder::NamedRuleV)> {
    match predicate_at(c, pos, true) {
        Some((i, head)) => {
            let q = space_stop(c, i);
            if word_at(c, q, "<-"@) {
                match body_at(c, q + 2) {
                    Some((e, b)) => Some((e, builder::NamedRuleV { head, body: b.0, expressions: b.1 })),
                    None => None,
                }
            } else {
                None
            }
        },
        None => None,
    }
}

/// The characters of `w`, in lower case, stand at `p` in any case.
pub open spec fn word_no_case_at(c: Seq<char>, p: int, w: Seq<char>) -> bool {
    &&& 0 <= p && p + w.len() <= c.len()
    &&& forall|k: int| 0 <= k < w.len() ==> #[trigger] c[p + k] == w[k] || ('A' <= c[p + k] && c[p + k] <= 'Z' && (c[p + k] as u32) + 32 == (w[k] as u32))
}

/// A query made of a rule body: a rule with an empty `query` head.
pub open spec fn query_of(b: BodyV) -> builder::NamedRuleV {
    builder::NamedRuleV { head: NamedPredV { name: "query"@, terms: Seq::empty() }, body: b.0, expressions: b.1 }
}

/// More queries after `i`, each after `or`.
pub open spec fn queries_rest(c: Seq<char>, i: int, acc: Seq<builder::NamedRuleV>) -> (int, Seq<builder::NamedRuleV>)
    decreases c.len() - i,
{
    let q = space_stop(c, i);
    if word_no_case_at(c, q, "or"@) {
        match body_at(c, space_stop(c, q + 2)) {
            Some((e, b)) => if i < e <= c.len() {
                queries_rest(c, e, acc.push(query_of(b)))
            } else {
                (i, acc)
            },
            None => (i, acc),
        }
    } else {
        (i, acc)
    }
}

/// Rule bodies separated by `or`, each made a query.
pub open spec fn caveat_body_at(c: Seq<char>, pos: int) -> Option<(int, Seq<builder::NamedRuleV>)> {
    match body_at(c, space_stop(c, pos)) {
        Some((e0, b)) => Some(queries_rest(c, e0, seq![query_of(b)])),
        None => None,
    }
}

/// A keyword in any case after layout, then a caveat body.
pub open spec fn keyword_body_at(c: Seq<char>, pos: int, keyword: Seq<char>) -> Option<(int, Seq<builder::NamedRuleV>)> {
    let p = space_stop(c, pos);
    if word_no_case_at(c, p, keyword) {
        caveat_body_at(c, p + keyword.len())
    } else {
        None
    }
}

/// The value of a parsed body.
pub open spec fn body_view(b: (Vec<Predicate>, Vec<Expression>)) -> BodyV {
    (b.0@.map_values(|p: Predicate| p@), b.1@.map_values(|e: Expression| e@))
}

/// The values of parsed queries.
pub open spec fn rules_of(qs: Seq<Rule>) -> Seq<builder::NamedRuleV> {
    qs.map_values(|q: Rule| q@)
}

/// A predicate or an expression in a rule body.
enum PredOrExpr {
    P(Predicate),
    E(Expr),
}

/// What a parsed body element stands for.
spec fn item_view(x: PredOrExpr) -> BodyItemV {
    match x {
        PredOrExpr::P(p) => BodyItemV::Pred(p@),
        PredOrExpr::E(e) => BodyItemV::Expr(postfix(e)),
    }
}

/// A predicate, or else an expression.
fn p_predicate_or_expression(c: &Vec<char>, pos: usize) -> (r: Option<(usize, PredOrExpr)>)
    requires
        pos <= c.len(),
    ensures
        r matches Some((e, _)) ==> pos < e <= c.len(),
        match r {
            Some((e, x)) => item_at(c@, pos as int) == Some((e as int, item_view(x))),
            None => item_at(c@, pos as int) is None,
        },
{
    if let Some((e, p)) = p_predicate(c, pos, false) {
        return Some((e, PredOrExpr::P(p)));
    }
    match p_expr_level(c, pos, 0) {
        Some((e, x)) => Some((e, PredOrExpr::E(x))),
        None => None,
    }
}

/// A rule body: predicates and expressions separated by commas, split into
/// the predicates and the expressions, each in order.
fn p_rule_body(c: &Vec<char>, pos: usize) -> (r: Option<(usize, (Vec<Predicate>, Vec<Expression>))>)
    requires
        pos <= c.len(),
    ensures
        r matches Some((e, _)) ==> pos < e <= c.len(),
        match r {
            Some((e, b)) => body_at(c@, pos as int) == Some((e as int, body_view(b))),
            None => body_at(c@, pos as int) is None,
        },
{
    let mut predicates: Vec<Predicate> = Vec::new();
    let mut expressions: Vec<Expression> = Vec::new();
    let p = skip_space(c, pos);
    let (mut i, first) = match p_predicate_or_expression(c, p) {
        Some(x) => x,
        None => {
            return None;
        },
    };
    let ghost e0 = i as int;
    let ghost it0 = item_view(first);
    match first {
        PredOrExpr::P(pr) => predicates.push(pr),
        PredOrExpr::E(x) => expressions.push(Expression { ops: x.opcodes() }),
    }
    assert(body_view((predicates, expressions)) =~= add_item((Seq::empty(), Seq::empty()), it0));
    loop
        invariant
            pos < i <= c.len(),
            body_rest(c@, i as int, body_view((predicates, expressions))) == body_rest(c@, e0, add_item((Seq::empty(), Seq::empty()), it0)),
        ensures
            pos < i <= c.len(),
            body_rest(c@, e0, add_item((Seq::empty(), Seq::empty()), it0)) == (i as int, body_view((predicates, expressions))),
        decreases c.len() - i,
    {
        let ghost acc = body_view((predicates, expressions));
        let q = skip_space(c, i);
        if q >= c.len() || c[q] != ',' {
            break;
        }
        let p = skip_space(c, q + 1);
        match p_predicate_or_expression(c, p) {
            Some((e, el)) => {
                let ghost it = item_view(el);
                match el {
                    PredOrExpr::P(pr) => predicates.push(pr),
                    PredOrExpr::E(x) => expressions.push(Expression { ops: x.opcodes() }),
                }
                assert(body_view((predicates, expressions)) =~= add_item(acc, it));
                i = e;
            },
            None => {
                break;
            },
        }
    }
    Some((i, (predicates, expressions)))
}

/// A rule: a head, `<-`, and a body.
fn p_rule(c: &Vec<char>, pos: usize) -> (r: Option<(usize, Rule)>)
    requires
        pos <= c.len(),
    ensures
        r matches Some((e, _)) ==> pos < e <= c.len(),
        match r {
            Some((e, x)) => rule_at(c@, pos as int) == Some((e as int, x@)),
            None => rule_at(c@, pos as int) is None,
        },
{
    let (i, head) = match p_predicate(c, pos, true) {
        Some(x) => x,
        None => {
            return None;
        },
    };
    let q = skip_space(c, i);
    if !looking_at(c, q, "<-") {
        return None;
    }
    proof { reveal_strlit("<-"); }
    match p_rule_body(c, q + 2) {
        Some((e, (predicates, expressions))) => Some((e, Rule(head, predicates, expressions))),
        None => None,
    }
}

/// Whether `word`, in lower case, stands at `pos` in any case.
fn looking_at_no_case(c: &Vec<char>, pos: usize, word: &str) -> (r: bool)
    requires
        pos <= c.len(),
    ensures
        r == word_no_case_at(c@, pos as int, word@),
{
    let w = chars_of(word);
    if w.len() > c.len() - pos {
        return false;
    }
    let mut i: usize = 0;
    while i < w.len()
        invariant
            i <= w.len(),
            pos + w.len() <= c.len(),
            w@ == word@,
            forall|k: int| 0 <= k < i ==> #[trigger] c@[pos + k] == w@[k] || ('A' <= c@[pos + k] && c@[pos + k] <= 'Z' && (c@[pos + k] as u32) + 32 == (w@[k] as u32)),
        decreases w.len() - i,
    {
        let a = c[pos + i];
        let b = w[i];
        let same = a == b || ('A' <= a && a <= 'Z' && (a as u32) + 32 == (b as u32));
        if !same {
            assert(!(c@[pos + i as int] == w@[i as int] || ('A' <= c@[pos + i as int] && c@[pos + i as int] <= 'Z' && (c@[pos + i as int] as u32) + 32 == (w@[i as int] as u32))));
            return false;
        }
        i = i + 1;
    }
    true
}

/// Rule bodies separated by `or`, each made a query with an empty head.
fn p_caveat_body(c: &Vec<char>, pos: usize) -> (r: Option<(usize, Vec<Rule>)>)
    requires
        pos <= c.len(),
    ensures
        r matches Some((e, qs)) ==> pos < e <= c.len() && qs@.len() > 0,
        match r {
            Some((e, qs)) => caveat_body_at(c@, pos as int) == Some((e as int, rules_of(qs@))),
            None => caveat_body_at(c@, pos as int) is None,
        },
{
    let mut queries: Vec<Rule> = Vec::new();
    let p = skip_space(c, pos);
    let (mut i, (ps, es)) = match p_rule_body(c, p) {
        Some(x) => x,
        None => {
            return None;
        },
    };
    let ghost e0 = i as int;
    let ghost q0 = query_of(body_view((ps, es)));
    let head = Predicate { name: "query".to_owned(), ids: Vec::new() };
    assert(head@ == NamedPredV { name: "query"@, terms: Seq::empty() }) by {
        assert(head@.terms =~= Seq::<NamedV>::empty());
    }
    queries.push(Rule(head, ps, es));
    assert(rules_of(queries@) =~= seq![q0]);
    loop
        invariant
            pos < i <= c.len(),
            queries@.len() > 0,
            queries_rest(c@, i as int, rules_of(queries@)) == queries_rest(c@, e0, seq![q0]),
        ensures
            pos < i <= c.len(),
            queries@.len() > 0,
            queries_rest(c@, e0, seq![q0]) == (i as int, rules_of(queries@)),
        decreases c.len() - i,
    {
        let ghost acc = rules_of(queries@);
        let q = skip_space(c, i);
        if !looking_at_no_case(c, q, "or") {
            break;
        }
        proof { reveal_strlit("or"); }
        let p = skip_space(c, q + 2);
        match p_rule_body(c, p) {
            Some((e, (ps, es))) => {
                let ghost qn = query_of(body_view((ps, es)));
                let head = Predicate { name: "query".to_owned(), ids: Vec::new() };
                assert(head@ == NamedPredV { name: "query"@, terms: Seq::empty() }) by {
                    assert(head@.terms =~= Seq::<NamedV>::empty());
                }
                queries.push(Rule(head, ps, es));
                assert(rules_of(queries@) =~= acc.push(qn));
                i = e;
            },
            None => {
                break;
            },
        }
    }
    Some((i, queries))
}

/// A keyword in any case after layout, then a caveat body.
fn p_keyword_body(c: &Vec<char>, pos: usize, keyword: &str) -> (r: Option<(usize, Vec<Rule>)>)
    requires
        pos <= c.len(),
    ensures
        r matches Some((e, qs)) ==> pos < e <= c.len() && qs@.len() > 0,
        match r {
            Some((e, qs)) => keyword_body_at(c@, pos as int, keyword@) == Some((e as int, rules_of(qs@))),
            None => keyword_body_at(c@, pos as int, keyword@) is None,
        },
{
    let p = skip_space(c, pos);
    if !looking_at_no_case(c, p, keyword) {
        return None;
    }
    let w = chars_of(keyword);
    p_caveat_body(c, p + w.len())
}

/// Runs a parser over the whole text and gives what is left after it.
fn rest_after(c: &Vec<char>, e: usize) -> (r: String)
    requires
        e <= c.len(),
    ensures
        r@ == c@.subrange(e as int, c@.len() as int),
{
    text_between(c, e, c.len())
}

/// Parses a name.
pub fn name(i: &str) -> (r: Result<(String, String), Error>)
    ensures
        r matches Err(e) ==> e == Error::ParseError,
        r is Ok <==> name_stop(i@, 0) > 0,
        r matches Ok((rest, n)) ==> n@ == i@.subrange(0, name_stop(i@, 0)) && i@ == n@ + rest@,
{
    let c = chars_of(i);
    match p_name(&c, 0) {
        Some((e, n)) => {
            let rest = rest_after(&c, e);
            assert(i@ =~= n@ + rest@);
            Ok((rest, n))
        },
        None => Err(Error::ParseError),
    }
}

/// Parses a symbol such as `#read`.
pub fn symbol(i: &str) -> (r: Result<(String, Term), Error>)
    ensures
        r matches Err(e) ==> e == Error::ParseError,
        r is Ok <==> symbol_at(i@, 0) is Some,
        r matches Ok((rest, t)) ==> symbol_at(i@, 0) == Some((i@.len() - rest@.len(), t@)),
        r matches Ok((rest, t)) ==> i@.len() > 1 && i@[0] == '#' && t@ == NamedV::Symbol(
            i@.subrange(1, i@.len() - rest@.len()),
        ) && rest@ == i@.subrange(i@.len() - rest@.len(), i@.len() as int),
        r is Err <==> !(i@.len() > 1 && i@[0] == '#' && is_name_char(i@[1])),
{
    let c = chars_of(i);
    match p_symbol(&c, 0) {
        Some((e, t)) => Ok((rest_after(&c, e), t)),
        None => Err(Error::ParseError),
    }
}

/// Parses a variable such as `$0`.
pub fn variable(i: &str) -> (r: Result<(String, Term), Error>)
    ensures
        r matches Err(e) ==> e == Error::ParseError,
        r is Ok <==> variable_at(i@, 0) is Some,
        r matches Ok((rest, t)) ==> variable_at(i@, 0) == Some((i@.len() - rest@.len(), t@)),
        r matches Ok((rest, t)) ==> i@.len() > 1 && i@[0] == '$' && t@ == NamedV::Variable(
            i@.subrange(1, i@.len() - rest@.len()),
        ) && rest@ == i@.subrange(i@.len() - rest@.len(), i@.len() as int),
        r is Err <==> !(i@.len() > 1 && i@[0] == '$' && is_name_char(i@[1])),
{
    let c = chars_of(i);
    match p_variable(&c, 0) {
        Some((e, t)) => Ok((rest_after(&c, e), t)),
        None => Err(Error::ParseError),
    }
}

/// Parses a string literal such as `"file1"`.
pub fn string(i: &str) -> (r: Result<(String, Term), Error>)
    ensures
        r matches Err(e) ==> e == Error::ParseError,
        r is Ok <==> string_at(i@, 0) is Some,
        r matches Ok((rest, t)) ==> string_at(i@, 0) == Some((i@.len() - rest@.len(), t@)),
        r matches Ok((rest, t)) ==> i@.len() > 0 && i@[0] == '"' && t@ == NamedV::Str(literal_text(i@, 1))
            && rest@ == i@.subrange(literal_end(i@, 1) + 1, i@.len() as int),
        r is Err <==> !(i@.len() > 0 && i@[0] == '"' && unescape(i@, 1) is Some),
{
    let c = chars_of(i);
    match p_string(&c, 0) {
        Some((e, t)) => Ok((rest_after(&c, e), t)),
        None => Err(Error::ParseError),
    }
}

/// Parses an integer such as `-42`.
pub fn integer(i: &str) -> (r: Result<(String, Term), Error>)
    ensures
        r matches Err(e) ==> e == Error::ParseError,
        r is Ok <==> integer_at(i@, 0) is Some,
        r matches Ok((rest, t)) ==> integer_at(i@, 0) == Some((i@.len() - rest@.len(), t@)),
        r matches Ok((rest, t)) ==> rest@ == i@.subrange(i@.len() - rest@.len(), i@.len() as int)
            && t@ == NamedV::Integer(integer_value(i@, 0, i@.len() - rest@.len()) as i64),
        r is Err <==> (forall|e: int| digits_start(i@, 0) < e && #[trigger] digits_end(i@, digits_start(i@, 0), e) ==> !(
            i64::MIN <= integer_value(i@, 0, e) <= i64::MAX)),
{
    let c = chars_of(i);
    match p_integer(&c, 0) {
        Some((e, t)) => {
            let rest = rest_after(&c, e);
            let ghost start = digits_start(i@, 0);
            assert(c@ == i@);
            assert(digits_end(i@, start, e as int));
            assert(i@.len() - rest@.len() == e);
            Ok((rest, t))
        },
        None => {
            assert(c@ == i@);
            Err(Error::ParseError)
        },
    }
}

/// Parses an RFC 3339 date such as `2019-12-02T13:49:53Z`.
pub fn date(i: &str) -> (r: Result<(String, Term), Error>)
    ensures
        r matches Err(e) ==> e == Error::ParseError,
        r is Ok <==> date_at(i@, 0) is Some,
        r matches Ok((rest, t)) ==> date_at(i@, 0) == Some((i@.len() - rest@.len(), t@)),
        r matches Ok((rest, t)) ==> rest@ == i@.subrange(i@.len() - rest@.len(), i@.len() as int)
            && (rfc3339_seconds(i@.subrange(0, i@.len() - rest@.len())) matches Some(secs)
            && t@ == NamedV::Date(secs as u64)),
        r is Err <==> (forall|e: int| 0 < e && #[trigger] date_end(i@, 0, e) ==> !(
            rfc3339_seconds(i@.subrange(0, e)) matches Some(secs) && secs >= 0)),
{
    let c = chars_of(i);
    match p_date(&c, 0) {
        Some((e, t)) => {
            let rest = rest_after(&c, e);
            assert(date_end(i@, 0, e as int));
            assert(i@.len() - rest@.len() == e);
            Ok((rest, t))
        },
        None => Err(Error::ParseError),
    }
}

/// Parses a term.
pub fn term(i: &str) -> (r: Result<(String, Term), Error>)
    ensures
        r matches Err(e) ==> e == Error::ParseError,
        r is Ok <==> term_at(i@, 0) is Some,
        r matches Ok((rest, t)) ==> term_at(i@, 0) == Some((i@.len() - rest@.len(), t@))
            && rest@ == i@.subrange(i@.len() - rest@.len(), i@.len() as int),
{
    let c = chars_of(i);
    match p_term(&c, 0) {
        Some((e, t)) => Ok((rest_after(&c, e), t)),
        None => Err(Error::ParseError),
    }
}

/// Parses a fact such as `right(#authority, "file1", #read)`.
pub fn fact(i: &str) -> (r: Result<(String, Fact), Error>)
    ensures
        r matches Err(e) ==> e == Error::ParseError,
        r is Ok <==> ground_predicate_at(i@),
        r matches Ok((rest, f)) ==> predicate_at(i@, 0, false) == Some((i@.len() - rest@.len(), f.0@))
            && rest@ == i@.subrange(i@.len() - rest@.len(), i@.len() as int) && f.0@.terms.len() > 0,
{
    let c = chars_of(i);
    match p_predicate(&c, 0, false) {
        Some((e, p)) => {
            let mut k: usize = 0;
            while k < p.ids.len()
                invariant
                    k <= p.ids.len(),
                    c@ == i@,
                    predicate_at(i@, 0, false) == Some((e as int, p@)),
                    forall|j: int| 0 <= j < k ==> !(#[trigger] p@.terms[j] is Variable),
                decreases p.ids.len() - k,
            {
                if let Term::Variable(_) = &p.ids[k] {
                    assert(p@.terms[k as int] is Variable);
                    assert(!ground(p@));
                    return Err(Error::ParseError);
                }
                k = k + 1;
            }
            Ok((rest_after(&c, e), Fact(p)))
        },
        None => Err(Error::ParseError),
    }
}

/// Parses a predicate.
pub fn predicate(i: &str) -> (r: Result<(String, Predicate), Error>)
    ensures
        r matches Err(e) ==> e == Error::ParseError,
        r is Ok <==> predicate_at(i@, 0, false) is Some,
        r matches Ok((rest, p)) ==> predicate_at(i@, 0, false) == Some((i@.len() - rest@.len(), p@))
            && rest@ == i@.subrange(i@.len() - rest@.len(), i@.len() as int) && p@.terms.len() > 0,
{
    let c = chars_of(i);
    match p_predicate(&c, 0, false) {
        Some((e, p)) => Ok((rest_after(&c, e), p)),
        None => Err(Error::ParseError),
    }
}

/// Parses an expression such as `$0 <= 2019-12-04T09:46:41+00:00`.
pub fn expr(i: &str) -> (r: Result<(String, Expr), Error>)
    ensures
        r matches Err(e) ==> e == Error::ParseError,
        r is Ok <==> expr_at(i@, 0, 0) is Some,
        r matches Ok((rest, x)) ==> expr_at(i@, 0, 0) == Some((i@.len() - rest@.len(), postfix(x)))
            && rest@ == i@.subrange(i@.len() - rest@.len(), i@.len() as int),
{
    let c = chars_of(i);
    match p_expr_level(&c, 0, 0) {
        Some((e, x)) => Ok((rest_after(&c, e), x)),
        None => Err(Error::ParseError),
    }
}

/// Parses a rule body.
pub fn rule_body(i: &str) -> (r: Result<(String, (Vec<Predicate>, Vec<Expression>)), Error>)
    ensures
        r matches Err(e) ==> e == Error::ParseError,
        r is Ok <==> body_at(i@, 0) is Some,
        r matches Ok((rest, b)) ==> body_at(i@, 0) == Some((i@.len() - rest@.len(), body_view(b)))
            && rest@ == i@.subrange(i@.len() - rest@.len(), i@.len() as int),
{
    let c = chars_of(i);
    match p_rule_body(&c, 0) {
        Some((e, b)) => Ok((rest_after(&c, e), b)),
        None => Err(Error::ParseError),
    }
}

/// Parses a rule such as `right($0, #read) <- resource(#ambient, $0)`.
pub fn rule(i: &str) -> (r: Result<(String, Rule), Error>)
    ensures
        r matches Err(e) ==> e == Error::ParseError,
        r is Ok <==> rule_at(i@, 0) is Some,
        r matches Ok((rest, x)) ==> rule_at(i@, 0) == Some((i@.len() - rest@.len(), x@))
            && rest@ == i@.subrange(i@.len() - rest@.len(), i@.len() as int),
{
    let c = chars_of(i);
    match p_rule(&c, 0) {
        Some((e, x)) => Ok((rest_after(&c, e), x)),
        None => Err(Error::ParseError),
    }
}

/// Parses rule bodies separated by `or` into queries.
pub fn caveat_body(i: &str) -> (r: Result<(String, Vec<Rule>), Error>)
    ensures
        r matches Err(e) ==> e == Error::ParseError,
        r is Ok <==> caveat_body_at(i@, 0) is Some,
        r matches Ok((rest, qs)) ==> caveat_body_at(i@, 0) == Some((i@.len() - rest@.len(), rules_of(qs@)))
            && rest@ == i@.subrange(i@.len() - rest@.len(), i@.len() as int),
{
    let c = chars_of(i);
    match p_caveat_body(&c, 0) {
        Some((e, qs)) => Ok((rest_after(&c, e), qs)),
        None => Err(Error::ParseError),
    }
}

/// Parses a caveat such as `check if admin(#authority) or ...`.
pub fn caveat(i: &str) -> (r: Result<(String, Caveat), Error>)
    ensures
        r matches Err(e) ==> e == Error::ParseError,
        r is Ok <==> keyword_body_at(i@, 0, "check if"@) is Some,
        r matches Ok((rest, cv)) ==> keyword_body_at(i@, 0, "check if"@) == Some((i@.len() - rest@.len(), rules_of(cv.queries@)))
            && rest@ == i@.subrange(i@.len() - rest@.len(), i@.len() as int),
{
    let c = chars_of(i);
    match p_keyword_body(&c, 0, "check if") {
        Some((e, queries)) => Ok((rest_after(&c, e), Caveat { queries })),
        None => Err(Error::ParseError),
    }
}

/// Parses an allowing policy: `allow if` and a caveat body.
pub fn allow(i: &str) -> (r: Result<(String, Policy), Error>)
    ensures
        r matches Err(e) ==> e == Error::ParseError,
        r is Ok <==> keyword_body_at(i@, 0, "allow if"@) is Some,
        r matches Ok((rest, p)) ==> p.kind == PolicyKind::Allow
            && keyword_body_at(i@, 0, "allow if"@) == Some((i@.len() - rest@.len(), rules_of(p.queries@)))
            && rest@ == i@.subrange(i@.len() - rest@.len(), i@.len() as int),
{
    let c = chars_of(i);
    match p_keyword_body(&c, 0, "allow if") {
        Some((e, queries)) => Ok((rest_after(&c, e), Policy { queries, kind: PolicyKind::Allow })),
        None => Err(Error::ParseError),
    }
}

/// Parses a denying policy: `deny if` and a caveat body.
pub fn deny(i: &str) -> (r: Result<(String, Policy), Error>)
    ensures
        r matches Err(e) ==> e == Error::ParseError,
        r is Ok <==> keyword_body_at(i@, 0, "deny if"@) is Some,
        r matches Ok((rest, p)) ==> p.kind == PolicyKind::Deny
            && keyword_body_at(i@, 0, "deny if"@) == Some((i@.len() - rest@.len(), rules_of(p.queries@)))
            && rest@ == i@.subrange(i@.len() - rest@.len(), i@.len() as int),
{
    let c = chars_of(i);
    match p_keyword_body(&c, 0, "deny if") {
        Some((e, queries)) => Ok((rest_after(&c, e), Policy { queries, kind: PolicyKind::Deny })),
        None => Err(Error::ParseError),
    }
}

/// Parses a policy, allowing or denying.
pub fn policy(i: &str) -> (r: Result<(String, Policy), Error>)
    ensures
        r matches Err(e) ==> e == Error::ParseError,
        r is Ok <==> (keyword_body_at(i@, 0, "allow if"@) is Some || keyword_body_at(i@, 0, "deny if"@) is Some),
        r matches Ok((rest, p)) ==> rest@ == i@.subrange(i@.len() - rest@.len(), i@.len() as int)
            && (if keyword_body_at(i@, 0, "allow if"@) is Some {
                p.kind == PolicyKind::Allow && keyword_body_at(i@, 0, "allow if"@) == Some((i@.len() - rest@.len(), rules_of(p.queries@)))
            } else {
                p.kind == PolicyKind::Deny && keyword_body_at(i@, 0, "deny if"@) == Some((i@.len() - rest@.len(), rules_of(p.queries@)))
            }),
{
    match allow(i) {
        Ok(x) => Ok(x),
        Err(_) => deny(i),
    }
}

} // verus!
