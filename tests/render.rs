use biscuit_auth::builder::{self, BytesConstraint, Constraint, ConstraintKind, DateConstraint, IntConstraint, StrConstraint, SymbolConstraint};
use biscuit_auth::parser;

#[test]
fn terms_print_as_written() {
    assert_eq!(builder::s("read").print(), "#read");
    assert_eq!(builder::var("0").print(), "$0");
    assert_eq!(builder::integer(-42).print(), "-42");
    assert_eq!(builder::integer(i64::MIN).print(), "-9223372036854775808");
    assert_eq!(builder::integer(0).print(), "0");
    assert_eq!(builder::string("file1").print(), "\"file1\"");
    assert_eq!(builder::bytes(&[0x0a, 0xff]).print(), "hex:0aff");
    assert_eq!(builder::boolean(true).print(), "true");
    assert_eq!(builder::date(1575294593).print(), "2019-12-02T13:49:53+00:00");
    let set = builder::set(vec![builder::integer(1), builder::integer(2)]).unwrap();
    assert_eq!(set.print(), "[1, 2]");
}

#[test]
fn facts_and_rules_print_as_parsed() {
    let (_, f) = parser::fact("right(#authority, \"file1\", #read)").unwrap();
    assert_eq!(f.print(), "right(#authority, \"file1\", #read)");
    let text = "right($0, #read) <- resource(#ambient, $0), operation(#ambient, #read), $0 starts with \"file\"";
    let (_, r) = parser::rule(text).unwrap();
    assert_eq!(
        r.print().unwrap(),
        "right($0, #read) <- resource(#ambient, $0), operation(#ambient, #read) @ $0 starts with \"file\""
    );
    let (_, plain) = parser::rule("a($0) <- b($0)").unwrap();
    assert_eq!(plain.print().unwrap(), "a($0) <- b($0)");
    let (_, c) = parser::caveat("check if admin(#authority) or resource(#ambient, $0), $0 + 1 < 3").unwrap();
    assert_eq!(
        c.print().unwrap(),
        "query() <- admin(#authority) || query() <- resource(#ambient, $0) @ $0 + 1 < 3"
    );
    let broken = builder::Expression { ops: vec![builder::Op::Binary(biscuit_auth::datalog::Binary::Add)] };
    assert_eq!(broken.print(), None);
}

#[test]
fn constraints_print_as_comparisons() {
    let c = Constraint { id: "0".to_string(), kind: ConstraintKind::Integer(IntConstraint::In(vec![1, 2])) };
    assert_eq!(c.print(), "$0 in {1, 2}");
    let lower = Constraint { id: "0".to_string(), kind: ConstraintKind::Integer(IntConstraint::Lower(5)) };
    assert_eq!(lower.print(), "$0 < 5");
    let prefix = Constraint { id: "r".to_string(), kind: ConstraintKind::String(StrConstraint::Prefix("file".to_string())) };
    assert_eq!(prefix.print(), "$r matches file*");
    let suffix = Constraint { id: "r".to_string(), kind: ConstraintKind::String(StrConstraint::Suffix(".txt".to_string())) };
    assert_eq!(suffix.print(), "$r matches *.txt");
    let regex = Constraint { id: "r".to_string(), kind: ConstraintKind::String(StrConstraint::Regex("a[0-9]".to_string())) };
    assert_eq!(regex.print(), "$r matches /a[0-9]/");
    let names = Constraint { id: "s".to_string(), kind: ConstraintKind::Symbol(SymbolConstraint::In(vec!["abc".to_string()])) };
    assert_eq!(names.print(), "$s in {\"abc\"}");
    let before = Constraint { id: "d".to_string(), kind: ConstraintKind::Date(DateConstraint::Before(1575294593)) };
    assert_eq!(before.print(), "$d <= 2019-12-02T13:49:53+00:00");
    let bytes = Constraint { id: "b".to_string(), kind: ConstraintKind::Bytes(BytesConstraint::Equal(vec![0x0a])) };
    assert_eq!(bytes.print(), "$b == 0a");
    let n = parser::expr("-1 < $x").unwrap().1.opcodes();
    assert_eq!(builder::Expression { ops: n }.print().unwrap(), "-1 < $x");
}
