use biscuit_auth::builder;
use biscuit_auth::builder::{var, Expression, Op, Term};
use biscuit_auth::datalog::{Binary, Unary};
use biscuit_auth::parser;
use biscuit_auth::parser::Expr;
use biscuit_auth::symbols::SymbolTable;

fn ok<T>(rest: &str, value: T) -> Result<(String, T), biscuit_auth::error::Error> {
    Ok((rest.to_string(), value))
}

#[test]
fn name() {
    assert_eq!(
        parser::name("operation(#ambient, #read)"),
        ok("(#ambient, #read)", "operation".to_string())
    );
}

#[test]
fn symbol() {
    assert_eq!(parser::symbol("#ambient"), ok("", builder::s("ambient")));
}

#[test]
fn string() {
    assert_eq!(
        parser::string("\"file1 a hello - 123_\""),
        ok("", builder::string("file1 a hello - 123_"))
    );
}

#[test]
fn integer() {
    assert_eq!(parser::integer("123"), ok("", builder::integer(123)));
    assert_eq!(parser::integer("-42"), ok("", builder::integer(-42)));
}

#[test]
fn date() {
    assert_eq!(
        parser::date("2019-12-02T13:49:53Z"),
        ok("", builder::Term::Date(1575294593))
    );
}

#[test]
fn variable() {
    assert_eq!(parser::variable("$1"), ok("", builder::variable("1")));
}

fn ops_of(input: &str) -> Result<(String, Vec<builder::Op>), biscuit_auth::error::Error> {
    parser::expr(input).map(|(i, o)| (i, o.opcodes()))
}

#[test]
fn constraint() {

    assert_eq!(
        ops_of("$0 <= 2030-12-31T12:59:59+00:00"),
        ok("", vec![Op::Value(var("0")), Op::Value(builder::date(1924952399)), Op::Binary(Binary::LessOrEqual)])
    );
    assert_eq!(
        ops_of("$0 >= 2030-12-31T12:59:59+00:00"),
        ok("", vec![Op::Value(var("0")), Op::Value(builder::date(1924952399)), Op::Binary(Binary::GreaterOrEqual)])
    );
    assert_eq!(
        ops_of("$0 < 1234"),
        ok("", vec![Op::Value(var("0")), Op::Value(builder::integer(1234)), Op::Binary(Binary::LessThan)])
    );
    assert_eq!(
        ops_of("$0 > 1234"),
        ok("", vec![Op::Value(var("0")), Op::Value(builder::integer(1234)), Op::Binary(Binary::GreaterThan)])
    );
    assert_eq!(
        ops_of("$0 <= 1234"),
        ok("", vec![Op::Value(var("0")), Op::Value(builder::integer(1234)), Op::Binary(Binary::LessOrEqual)])
    );
    assert_eq!(
        ops_of("$0 >= -1234"),
        ok(
            "",
            vec![
                Op::Value(var("0")),
                Op::Value(builder::integer(1234)),
                Op::Unary(Unary::Negate),
                Op::Binary(Binary::GreaterOrEqual),
            ]
        )
    );
    assert_eq!(
        ops_of("$0 == 1"),
        ok("", vec![Op::Value(var("0")), Op::Value(builder::integer(1)), Op::Binary(Binary::Equal)])
    );
    let h = builder::set(vec![builder::integer(1), builder::integer(2)]).unwrap();
    assert_eq!(
        ops_of("$0 in [1, 2]"),
        ok("", vec![Op::Value(var("0")), Op::Value(h.clone()), Op::Binary(Binary::In)])
    );
    assert_eq!(
        ops_of("$0 not in [1, 2]"),
        ok("", vec![Op::Value(var("0")), Op::Value(h), Op::Binary(Binary::NotIn)])
    );
    assert_eq!(
        ops_of("$0 == \"abc\""),
        ok("", vec![Op::Value(var("0")), Op::Value(builder::string("abc")), Op::Binary(Binary::Equal)])
    );
    assert_eq!(
        ops_of("$0 ends with \"abc\""),
        ok("", vec![Op::Value(var("0")), Op::Value(builder::string("abc")), Op::Binary(Binary::Suffix)])
    );
    assert_eq!(
        ops_of("$0 starts with \"abc\""),
        ok("", vec![Op::Value(var("0")), Op::Value(builder::string("abc")), Op::Binary(Binary::Prefix)])
    );
    assert_eq!(
        ops_of("$0 matches \"abc[0-9]+\""),
        ok("", vec![Op::Value(var("0")), Op::Value(builder::string("abc[0-9]+")), Op::Binary(Binary::Regex)])
    );
    let h = builder::set(vec![builder::string("abc"), builder::string("def")]).unwrap();
    assert_eq!(
        ops_of("$0 in [\"abc\", \"def\"]"),
        ok("", vec![Op::Value(var("0")), Op::Value(h.clone()), Op::Binary(Binary::In)])
    );
    assert_eq!(
        ops_of("$0 not in [\"abc\", \"def\"]"),
        ok("", vec![Op::Value(var("0")), Op::Value(h), Op::Binary(Binary::NotIn)])
    );
    let h = builder::set(vec![builder::symbol("abc"), builder::symbol("def")]).unwrap();
    assert_eq!(
        ops_of("$0 in [#abc, #def]"),
        ok("", vec![Op::Value(var("0")), Op::Value(h.clone()), Op::Binary(Binary::In)])
    );
    assert_eq!(
        ops_of("$0 not in [#abc, #def]"),
        ok("", vec![Op::Value(var("0")), Op::Value(h), Op::Binary(Binary::NotIn)])
    );
}

#[test]
fn fact() {
    assert_eq!(
        parser::fact("right( #authority, \"file1\", #read )"),
        ok(
            "",
            builder::fact(
                "right",
                &[builder::s("authority"), builder::string("file1"), builder::s("read")]
            )
        )
    );
}

#[test]
fn fact_with_date() {
    assert_eq!(
        parser::fact("date(#ambient,2019-12-02T13:49:53Z)"),
        ok(
            "",
            builder::fact("date", &[builder::s("ambient"), builder::Term::Date(1575294593)])
        )
    );
}

#[test]
fn rule() {
    assert_eq!(
        parser::rule("right(#authority, $0, #read) <- resource( #ambient, $0), operation(#ambient, #read)"),
        ok(
            "",
            builder::rule(
                "right",
                &[builder::s("authority"), builder::variable("0"), builder::s("read")],
                &[
                    builder::pred("resource", &[builder::s("ambient"), builder::variable("0")]),
                    builder::pred("operation", &[builder::s("ambient"), builder::s("read")]),
                ]
            )
        )
    );
}

#[test]
fn constrained_rule() {

    assert_eq!(
        parser::rule("valid_date(\"file1\") <- time(#ambient, $0 ), resource( #ambient, \"file1\"), $0 <= 2019-12-04T09:46:41+00:00"),
        ok(
            "",
            builder::constrained_rule(
                "valid_date",
                &[builder::string("file1")],
                &[
                    builder::pred("time", &[builder::s("ambient"), builder::variable("0")]),
                    builder::pred("resource", &[builder::s("ambient"), builder::string("file1")]),
                ],
                &[Expression {
                    ops: vec![
                        Op::Value(var("0")),
                        Op::Value(builder::date(1575452801)),
                        Op::Binary(Binary::LessOrEqual),
                    ]
                }],
            )
        )
    );
}

#[test]
fn constrained_rule_ordering() {

    assert_eq!(
        parser::rule("valid_date(\"file1\") <- time(#ambient, $0 ), $0 <= 2019-12-04T09:46:41+00:00, resource(#ambient, \"file1\")"),
        ok(
            "",
            builder::constrained_rule(
                "valid_date",
                &[builder::string("file1")],
                &[
                    builder::pred("time", &[builder::s("ambient"), builder::variable("0")]),
                    builder::pred("resource", &[builder::s("ambient"), builder::string("file1")]),
                ],
                &[Expression {
                    ops: vec![
                        Op::Value(var("0")),
                        Op::Value(builder::date(1575452801)),
                        Op::Binary(Binary::LessOrEqual),
                    ]
                }],
            )
        )
    );
}

#[test]
fn caveat() {
    let empty: &[builder::Term] = &[];
    assert_eq!(
        parser::caveat("check if resource(#ambient, $0), operation(#ambient, #read) or admin(#authority)"),
        ok(
            "",
            builder::Caveat {
                queries: vec![
                    builder::rule(
                        "query",
                        empty,
                        &[
                            builder::pred("resource", &[builder::s("ambient"), builder::variable("0")]),
                            builder::pred("operation", &[builder::s("ambient"), builder::s("read")]),
                        ]
                    ),
                    builder::rule("query", empty, &[builder::pred("admin", &[builder::s("authority")])]),
                ]
            }
        )
    );
}

#[test]
fn expression() {

    let mut syms = SymbolTable::new();

    let res = parser::expr(" - 1 ");
    assert_eq!(
        res,
        ok(" ", Expr::Unary(Op::Unary(Unary::Negate), Box::new(Expr::Value(Term::Integer(1)))))
    );
    let ops = res.unwrap().1.opcodes();
    let e = builder::Expression { ops }.convert(&mut syms).unwrap();
    let back = builder::Expression::convert_from(&e, &syms).unwrap();
    assert_eq!(back.print(), Some("-1".to_string()));

    let res = parser::expr(" $0 <= 2019-12-04T09:46:41+00:00");
    assert_eq!(
        res,
        ok(
            "",
            Expr::Binary(
                Op::Binary(Binary::LessOrEqual),
                Box::new(Expr::Value(var("0"))),
                Box::new(Expr::Value(builder::date(1575452801)))
            )
        )
    );
    let ops = res.unwrap().1.opcodes();
    let e = builder::Expression { ops }.convert(&mut syms).unwrap();
    let back = builder::Expression::convert_from(&e, &syms).unwrap();
    assert_eq!(back.print(), Some("$0 <= 2019-12-04T09:46:41+00:00".to_string()));

    let res = parser::expr(" 1 < $test + 2 ");
    assert_eq!(
        res,
        ok(
            " ",
            Expr::Binary(
                Op::Binary(Binary::LessThan),
                Box::new(Expr::Value(builder::integer(1))),
                Box::new(Expr::Binary(
                    Op::Binary(Binary::Add),
                    Box::new(Expr::Value(var("test"))),
                    Box::new(Expr::Value(builder::integer(2))),
                ))
            )
        )
    );
    let ops = res.unwrap().1.opcodes();
    let e = builder::Expression { ops }.convert(&mut syms).unwrap();
    let back = builder::Expression::convert_from(&e, &syms).unwrap();
    assert_eq!(back.print(), Some("1 < $test + 2".to_string()));

    let res = parser::expr(" 2 < $test && $var2 starts with \"test\" && true ");
    assert_eq!(
        res,
        ok(
            " ",
            Expr::Binary(
                Op::Binary(Binary::And),
                Box::new(Expr::Binary(
                    Op::Binary(Binary::And),
                    Box::new(Expr::Binary(
                        Op::Binary(Binary::LessThan),
                        Box::new(Expr::Value(builder::integer(2))),
                        Box::new(Expr::Value(var("test"))),
                    )),
                    Box::new(Expr::Binary(
                        Op::Binary(Binary::Prefix),
                        Box::new(Expr::Value(var("var2"))),
                        Box::new(Expr::Value(builder::string("test"))),
                    )),
                )),
                Box::new(Expr::Value(Term::Bool(true))),
            )
        )
    );
    let ops = res.unwrap().1.opcodes();
    let e = builder::Expression { ops }.convert(&mut syms).unwrap();
    let back = builder::Expression::convert_from(&e, &syms).unwrap();
    assert_eq!(back.print(), Some("2 < $test && $var2 starts with \"test\" && true".to_string()));
}
