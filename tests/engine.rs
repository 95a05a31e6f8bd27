use biscuit_auth::authorizer::{Authorizer, Policy, PolicyKind};
use biscuit_auth::builder::{self, BiscuitBuilder, BlockBuilder};
use biscuit_auth::builder::{Constraint, ConstraintKind, DateConstraint, IntConstraint, StrConstraint, SymbolConstraint};
use biscuit_auth::datalog::{self, Predicate, Rule};
use biscuit_auth::error::{Error, FailedCaveat};
use biscuit_auth::expr;
use biscuit_auth::parser;
use biscuit_auth::solver::{self, RunLimits};
use biscuit_auth::symbols::SymbolTable;
use biscuit_auth::token::{Biscuit, Block, MAX_SCHEMA_VERSION};
use std::collections::HashSet;

fn fact_in(syms: &mut SymbolTable, text: &str) -> Predicate {
    parser::fact(text).unwrap().1.convert(syms).unwrap()
}

fn rule_in(syms: &mut SymbolTable, text: &str) -> Rule {
    parser::rule(text).unwrap().1.convert(syms).unwrap()
}

fn caveat_in(syms: &mut SymbolTable, text: &str) -> datalog::Caveat {
    parser::caveat(text).unwrap().1.convert(syms).unwrap()
}

fn policy_in(syms: &mut SymbolTable, text: &str) -> Policy {
    parser::policy(text).unwrap().1.convert(syms).unwrap()
}

fn as_set(facts: &[Predicate]) -> HashSet<Predicate> {
    facts.iter().cloned().collect()
}

fn limits() -> RunLimits {
    RunLimits::default_limits()
}

fn chain_facts(syms: &mut SymbolTable, n: usize) -> Vec<Predicate> {
    (0..n).map(|i| fact_in(syms, &format!("edge({}, {})", i, i + 1))).collect()
}

#[test]
fn scenario_rule_derives_right() {
    let mut syms = SymbolTable::new();
    let facts = vec![
        fact_in(&mut syms, "resource(#ambient, \"file1\")"),
        fact_in(&mut syms, "operation(#ambient, #read)"),
    ];
    let rules = vec![rule_in(
        &mut syms,
        "right($0, #read) <- resource(#ambient, $0), operation(#ambient, #read)",
    )];
    let out = solver::solve(&facts, &rules, limits()).unwrap();
    let expected = fact_in(&mut syms, "right(\"file1\", #read)");
    assert!(out.contains(&expected));
    assert_eq!(out.len(), 3);
}

#[test]
fn solver_keeps_initial_facts() {
    let mut syms = SymbolTable::new();
    let facts = chain_facts(&mut syms, 4);
    let rules = vec![
        rule_in(&mut syms, "path($x, $y) <- edge($x, $y)"),
        rule_in(&mut syms, "path($x, $z) <- path($x, $y), edge($y, $z)"),
    ];
    let out = solver::solve(&facts, &rules, limits()).unwrap();
    let out_set = as_set(&out);
    for f in &facts {
        assert!(out_set.contains(f));
    }
    assert_eq!(out.len(), 4 + 10);
}

#[test]
fn solver_rerun_is_unchanged() {
    let mut syms = SymbolTable::new();
    let facts = chain_facts(&mut syms, 5);
    let rules = vec![
        rule_in(&mut syms, "path($x, $y) <- edge($x, $y)"),
        rule_in(&mut syms, "path($x, $z) <- path($x, $y), edge($y, $z)"),
    ];
    let once = solver::solve(&facts, &rules, limits()).unwrap();
    let twice = solver::solve(&once, &rules, limits()).unwrap();
    assert_eq!(as_set(&once), as_set(&twice));
    assert_eq!(once.len(), twice.len());
}

#[test]
fn solver_ignores_rule_and_body_order() {
    let mut syms = SymbolTable::new();
    let facts = chain_facts(&mut syms, 5);
    let r1 = rule_in(&mut syms, "path($x, $y) <- edge($x, $y)");
    let r2 = rule_in(&mut syms, "path($x, $z) <- path($x, $y), edge($y, $z)");
    let r2_swapped = rule_in(&mut syms, "path($x, $z) <- edge($y, $z), path($x, $y)");
    let a = solver::solve(&facts, &vec![r1.clone(), r2.clone()], limits()).unwrap();
    let b = solver::solve(&facts, &vec![r2, r1.clone()], limits()).unwrap();
    let c = solver::solve(&facts, &vec![r2_swapped, r1], limits()).unwrap();
    assert_eq!(as_set(&a), as_set(&b));
    assert_eq!(as_set(&a), as_set(&c));
}

#[test]
fn solver_stops_at_iteration_bound() {
    let mut syms = SymbolTable::new();
    let facts = chain_facts(&mut syms, 30);
    let rules = vec![
        rule_in(&mut syms, "path($x, $y) <- edge($x, $y)"),
        rule_in(&mut syms, "path($x, $z) <- path($x, $y), edge($y, $z)"),
    ];
    let tight = RunLimits { max_facts: 100_000, max_iterations: 3 };
    assert_eq!(solver::solve(&facts, &rules, tight), Err(Error::EvaluationLimitExceeded));
}

#[test]
fn solver_stops_at_fact_bound() {
    let mut syms = SymbolTable::new();
    let facts = chain_facts(&mut syms, 30);
    let rules = vec![
        rule_in(&mut syms, "path($x, $y) <- edge($x, $y)"),
        rule_in(&mut syms, "path($x, $z) <- path($x, $y), edge($y, $z)"),
    ];
    let tight = RunLimits { max_facts: 50, max_iterations: 1000 };
    assert_eq!(solver::solve(&facts, &rules, tight), Err(Error::EvaluationLimitExceeded));
}

#[test]
fn solver_zero_iterations_on_fixpoint() {
    let mut syms = SymbolTable::new();
    let facts = vec![fact_in(&mut syms, "a(1)"), fact_in(&mut syms, "a(1)")];
    let rules = vec![rule_in(&mut syms, "a($x) <- a($x)")];
    let none = RunLimits { max_facts: 0, max_iterations: 0 };
    let out = solver::solve(&facts, &rules, none).unwrap();
    assert_eq!(out.len(), 1);
}

#[test]
fn solver_expression_filters_bindings() {
    let mut syms = SymbolTable::new();
    let facts = vec![
        fact_in(&mut syms, "age(#alice, 30)"),
        fact_in(&mut syms, "age(#bob, 12)"),
    ];
    let rules = vec![rule_in(&mut syms, "adult($p) <- age($p, $a), $a >= 18")];
    let out = solver::solve(&facts, &rules, limits()).unwrap();
    assert!(out.contains(&fact_in(&mut syms, "adult(#alice)")));
    assert!(!out.contains(&fact_in(&mut syms, "adult(#bob)")));
}

fn expression_in(syms: &mut SymbolTable, text: &str) -> datalog::Expression {
    let (_, e) = parser::expr(text).unwrap();
    builder::Expression { ops: e.opcodes() }.convert(syms).unwrap()
}

fn var_id(syms: &mut SymbolTable, name: &str) -> u32 {
    syms.insert(name) as u32
}

#[test]
fn scenario_set_membership() {
    let mut syms = SymbolTable::new();
    let e = expression_in(&mut syms, "$0 in [1, 2, 3]");
    let v = var_id(&mut syms, "0");
    let two = vec![(v, datalog::Term::Integer(2))];
    let five = vec![(v, datalog::Term::Integer(5))];
    assert_eq!(expr::evaluate(&e, &two), Some(datalog::Term::Bool(true)));
    assert_eq!(expr::evaluate(&e, &five), Some(datalog::Term::Bool(false)));
}

#[test]
fn expression_type_mismatch_is_false() {
    let mut syms = SymbolTable::new();
    let e = expression_in(&mut syms, "$0 + 1 < 3");
    let v = var_id(&mut syms, "0");
    let text = vec![(v, datalog::Term::Str("x".to_string()))];
    assert_eq!(expr::evaluate(&e, &text), None);
    assert!(!expr::expression_holds(&e, &text));
    let unbound: Vec<(u32, datalog::Term)> = vec![];
    assert_eq!(expr::evaluate(&e, &unbound), None);
    let one = vec![(v, datalog::Term::Integer(1))];
    assert!(expr::expression_holds(&e, &one));
}

#[test]
fn expression_arithmetic_and_negation() {
    let mut syms = SymbolTable::new();
    let e = expression_in(&mut syms, "$0 + 2");
    let v = var_id(&mut syms, "0");
    assert_eq!(expr::evaluate(&e, &vec![(v, datalog::Term::Integer(40))]), Some(datalog::Term::Integer(42)));
    assert_eq!(expr::evaluate(&e, &vec![(v, datalog::Term::Integer(i64::MAX))]), None);
    let n = expression_in(&mut syms, "-5");
    assert_eq!(expr::evaluate(&n, &vec![]), Some(datalog::Term::Integer(-5)));
}

#[test]
fn expression_string_operators() {
    let mut syms = SymbolTable::new();
    let v = var_id(&mut syms, "0");
    let env = vec![(v, datalog::Term::Str("abc123".to_string()))];
    let prefix = expression_in(&mut syms, "$0 starts with \"abc\"");
    let suffix = expression_in(&mut syms, "$0 ends with \"123\"");
    let not_suffix = expression_in(&mut syms, "$0 ends with \"abc\"");
    let regex = expression_in(&mut syms, "$0 matches \"^abc[0-9]+$\"");
    let regex_no = expression_in(&mut syms, "$0 matches \"^[0-9]+$\"");
    let bad_regex = expression_in(&mut syms, "$0 matches \"(\"");
    assert!(expr::expression_holds(&prefix, &env));
    assert!(expr::expression_holds(&suffix, &env));
    assert!(!expr::expression_holds(&not_suffix, &env));
    assert!(expr::expression_holds(&regex, &env));
    assert!(!expr::expression_holds(&regex_no, &env));
    assert_eq!(expr::evaluate(&bad_regex, &env), None);
}

#[test]
fn expression_dates_compare() {
    let mut syms = SymbolTable::new();
    let v = var_id(&mut syms, "0");
    let e = expression_in(&mut syms, "$0 <= 2019-12-04T09:46:41+00:00");
    assert!(expr::expression_holds(&e, &vec![(v, datalog::Term::Date(1575452801))]));
    assert!(!expr::expression_holds(&e, &vec![(v, datalog::Term::Date(1575452802))]));
}

#[test]
fn scenario_caveat_fails_without_facts() {
    let mut syms = SymbolTable::new();
    let mut a = Authorizer::new();
    a.add_caveat(caveat_in(
        &mut syms,
        "check if resource(#ambient, $0), operation(#ambient, #read) or admin(#authority)",
    ));
    a.add_policy(policy_in(&mut syms, "allow if true"));
    a.add_fact(fact_in(&mut syms, "unrelated(#ambient)"));
    let r = a.authorize(&vec![], limits());
    assert_eq!(
        r,
        Err(Error::FailedCaveats(vec![FailedCaveat { block: None, index: 0 }]))
    );
}

#[test]
fn caveat_or_takes_the_satisfiable_query() {
    let mut syms = SymbolTable::new();
    let mut a = Authorizer::new();
    a.add_fact(fact_in(&mut syms, "admin(#authority)"));
    a.add_caveat(caveat_in(
        &mut syms,
        "check if resource(#ambient, $0), operation(#ambient, #read) or admin(#authority)",
    ));
    a.add_policy(policy_in(&mut syms, "allow if true"));
    assert_eq!(a.authorize(&vec![], limits()), Ok(0));
    let facts = vec![fact_in(&mut syms, "admin(#authority)")];
    let c = caveat_in(&mut syms, "check if nothing(#here) or admin(#authority)");
    assert!(biscuit_auth::authorizer::check_caveat(&facts, &c));
}

#[test]
fn scenario_first_policy_denies() {
    let mut syms = SymbolTable::new();
    let mut a = Authorizer::new();
    a.add_fact(fact_in(&mut syms, "resource(#ambient, \"secret\")"));
    a.add_policy(policy_in(&mut syms, "deny if resource(#ambient, \"secret\")"));
    a.add_policy(policy_in(&mut syms, "allow if true"));
    assert_eq!(a.authorize(&vec![], limits()), Err(Error::DeniedByPolicy(0)));
}

#[test]
fn policy_order_decides() {
    let mut syms = SymbolTable::new();
    let mut a = Authorizer::new();
    a.add_fact(fact_in(&mut syms, "resource(#ambient, \"public\")"));
    a.add_policy(policy_in(&mut syms, "allow if resource(#ambient, \"public\")"));
    a.add_policy(policy_in(&mut syms, "deny if true"));
    assert_eq!(a.authorize(&vec![], limits()), Ok(0));
    let mut b = Authorizer::new();
    b.add_fact(fact_in(&mut syms, "resource(#ambient, \"public\")"));
    b.add_policy(policy_in(&mut syms, "deny if resource(#ambient, \"secret\")"));
    b.add_policy(policy_in(&mut syms, "allow if resource(#ambient, \"public\")"));
    assert_eq!(b.authorize(&vec![], limits()), Ok(1));
}

#[test]
fn no_policy_matches() {
    let mut syms = SymbolTable::new();
    let mut a = Authorizer::new();
    a.add_policy(policy_in(&mut syms, "allow if admin(#authority)"));
    assert_eq!(a.authorize(&vec![], limits()), Err(Error::NoMatchingPolicy));
    let empty = Authorizer::new();
    assert_eq!(empty.authorize(&vec![], limits()), Err(Error::NoMatchingPolicy));
}

#[test]
fn authorizer_reports_limit() {
    let mut syms = SymbolTable::new();
    let mut a = Authorizer::new();
    for f in chain_facts(&mut syms, 20) {
        a.add_fact(f);
    }
    a.add_rule(rule_in(&mut syms, "path($x, $y) <- edge($x, $y)"));
    a.add_rule(rule_in(&mut syms, "path($x, $z) <- path($x, $y), edge($y, $z)"));
    a.add_policy(policy_in(&mut syms, "allow if true"));
    let tight = RunLimits { max_facts: 30, max_iterations: 100 };
    assert_eq!(a.authorize(&vec![], tight), Err(Error::EvaluationLimitExceeded));
}

fn block_with_caveat(syms: &mut SymbolTable, index: u32, caveat: &str) -> Block {
    Block {
        index,
        symbols: SymbolTable::new(),
        facts: vec![],
        rules: vec![],
        caveats: vec![caveat_in(syms, caveat)],
        context: None,
        version: MAX_SCHEMA_VERSION,
    }
}

#[test]
fn block_caveat_failure_names_the_block() {
    let mut syms = SymbolTable::new();
    let blocks = vec![
        block_with_caveat(&mut syms, 0, "check if operation(#ambient, #read)"),
        block_with_caveat(&mut syms, 1, "check if operation(#ambient, #write)"),
    ];
    let mut a = Authorizer::new();
    a.add_fact(fact_in(&mut syms, "operation(#ambient, #read)"));
    a.add_policy(policy_in(&mut syms, "allow if true"));
    assert_eq!(
        a.authorize(&blocks, limits()),
        Err(Error::FailedCaveats(vec![FailedCaveat { block: Some(1), index: 0 }]))
    );
}

const ROOT: [u8; 32] = [7u8; 32];
const NEXT1: [u8; 32] = [8u8; 32];
const NEXT2: [u8; 32] = [9u8; 32];

fn two_block_token() -> Biscuit {
    let b0 = Block {
        index: 0,
        symbols: SymbolTable::new(),
        facts: vec![],
        rules: vec![],
        caveats: vec![],
        context: None,
        version: MAX_SCHEMA_VERSION,
    };
    let mut t = Biscuit::new(&ROOT, NEXT1, b0).unwrap();
    let b1 = Block {
        index: 1,
        symbols: SymbolTable::new(),
        facts: vec![],
        rules: vec![],
        caveats: vec![],
        context: Some("attenuation".to_string()),
        version: MAX_SCHEMA_VERSION,
    };
    t.append(b1, NEXT2).unwrap();
    t
}

#[test]
fn signature_chain_verifies() {
    let t = two_block_token();
    assert_eq!(t.signed.len(), 2);
    assert_eq!(t.root_key.len(), 32);
    assert_eq!(t.signed[0].signature.len(), 64);
    assert_eq!(
        biscuit_auth::token::verify_chain(&t.root_key, &t.signed, &t.ending),
        Ok(())
    );
}

#[test]
fn signature_chain_detects_tampering() {
    for block in 0..2 {
        for byte in [0usize, 5] {
            let mut t = two_block_token();
            t.signed[block].content[byte] ^= 1;
            assert_eq!(
                biscuit_auth::token::verify_chain(&t.root_key, &t.signed, &t.ending),
                Err(Error::InvalidSignature(block))
            );
        }
    }
    let mut t = two_block_token();
    t.signed[0].next_key[0] ^= 0x80;
    assert!(biscuit_auth::token::verify_chain(&t.root_key, &t.signed, &t.ending).is_err());
    let mut t = two_block_token();
    t.root_key[3] ^= 4;
    assert_eq!(
        biscuit_auth::token::verify_chain(&t.root_key, &t.signed, &t.ending),
        Err(Error::InvalidSignature(0))
    );
}

#[test]
fn sealed_token_refuses_blocks() {
    let mut t = two_block_token();
    t.seal().unwrap();
    assert_eq!(
        biscuit_auth::token::verify_chain(&t.root_key, &t.signed, &t.ending),
        Ok(())
    );
    let b2 = Block {
        index: 2,
        symbols: SymbolTable::new(),
        facts: vec![],
        rules: vec![],
        caveats: vec![],
        context: None,
        version: MAX_SCHEMA_VERSION,
    };
    assert_eq!(t.append(b2, [3u8; 32]), Err(Error::AlreadySealed));
    assert_eq!(t.seal(), Err(Error::AlreadySealed));
    t.signed[1].signature[0] ^= 1;
    assert!(biscuit_auth::token::verify_chain(&t.root_key, &t.signed, &t.ending).is_err());
}

#[test]
fn block_index_must_follow() {
    let b = Block {
        index: 1,
        symbols: SymbolTable::new(),
        facts: vec![],
        rules: vec![],
        caveats: vec![],
        context: None,
        version: MAX_SCHEMA_VERSION,
    };
    assert!(matches!(Biscuit::new(&ROOT, NEXT1, b), Err(Error::InvalidBlockIndex)));
    let mut t = two_block_token();
    let wrong = Block {
        index: 5,
        symbols: SymbolTable::new(),
        facts: vec![],
        rules: vec![],
        caveats: vec![],
        context: None,
        version: MAX_SCHEMA_VERSION,
    };
    assert_eq!(t.append(wrong, NEXT2), Err(Error::InvalidBlockIndex));
    assert_eq!(
        biscuit_auth::token::verify_chain(&t.root_key, &vec![], &t.ending),
        Err(Error::InvalidBlockIndex)
    );
}

#[test]
fn issue_attenuate_and_verify() {
    let mut builder = BiscuitBuilder::new(SymbolTable::new());
    builder.add_right("file1", "read");
    builder.add_right("file2", "write");
    builder.set_context("issuer".to_string());
    let mut token = builder.build(&ROOT, NEXT1).unwrap();
    assert_eq!(token.blocks[0].facts.len(), 2);

    let mut table = SymbolTable::new();
    table.extend(&token.blocks[0].symbols);
    let mut attenuation = BlockBuilder::new(1);
    attenuation.check_resource("file1");
    attenuation.check_operation("read");
    let block = attenuation.build(table.clone()).unwrap();
    table.extend(&block.symbols);
    token.append(block, NEXT2).unwrap();

    let mut authorizer = Authorizer::new();
    authorizer.add_fact(fact_in(&mut table, "resource(#ambient, \"file1\")"));
    authorizer.add_fact(fact_in(&mut table, "operation(#ambient, #read)"));
    authorizer.add_policy(policy_in(&mut table, "allow if right(#authority, \"file1\", #read)"));
    assert_eq!(token.verify(&authorizer, limits()), Ok(0));

    let mut other = Authorizer::new();
    other.add_fact(fact_in(&mut table, "resource(#ambient, \"file2\")"));
    other.add_fact(fact_in(&mut table, "operation(#ambient, #write)"));
    other.add_policy(policy_in(&mut table, "allow if true"));
    assert_eq!(
        token.verify(&other, limits()),
        Err(Error::FailedCaveats(vec![
            FailedCaveat { block: Some(1), index: 0 },
            FailedCaveat { block: Some(1), index: 1 },
        ]))
    );

    token.signed[1].content[0] ^= 1;
    assert_eq!(token.verify(&authorizer, limits()), Err(Error::InvalidSignature(1)));
}

#[test]
fn check_right_requires_matching_right() {
    let mut builder = BiscuitBuilder::new(SymbolTable::new());
    builder.add_right("file1", "read");
    let mut token = builder.build(&ROOT, NEXT1).unwrap();
    let mut table = SymbolTable::new();
    table.extend(&token.blocks[0].symbols);
    let mut attenuation = BlockBuilder::new(1);
    attenuation.check_right("read");
    attenuation.resource_prefix("file");
    attenuation.resource_suffix("1");
    attenuation.expiration_date(2_000_000_000);
    attenuation.revocation_id(42);
    assert_eq!(attenuation.caveats.len(), 4);
    assert_eq!(attenuation.facts.len(), 1);
    let block = attenuation.build(table.clone()).unwrap();
    table.extend(&block.symbols);
    token.append(block, NEXT2).unwrap();

    let mut ok = Authorizer::new();
    ok.add_fact(fact_in(&mut table, "resource(#ambient, \"file1\")"));
    ok.add_fact(fact_in(&mut table, "operation(#ambient, #read)"));
    ok.add_fact(parser::fact("time(#ambient, 2019-12-04T09:46:41Z)").unwrap().1.convert(&mut table).unwrap());
    ok.add_policy(policy_in(&mut table, "allow if true"));
    assert_eq!(token.verify(&ok, limits()), Ok(0));

    let mut late = Authorizer::new();
    late.add_fact(fact_in(&mut table, "resource(#ambient, \"file1\")"));
    late.add_fact(fact_in(&mut table, "operation(#ambient, #read)"));
    late.add_fact(parser::fact("time(#ambient, 2040-01-01T00:00:00Z)").unwrap().1.convert(&mut table).unwrap());
    late.add_policy(policy_in(&mut table, "allow if true"));
    assert_eq!(
        token.verify(&late, limits()),
        Err(Error::FailedCaveats(vec![FailedCaveat { block: Some(1), index: 3 }]))
    );
}

#[test]
fn sets_must_be_homogeneous() {
    assert_eq!(
        builder::set(vec![builder::integer(1), builder::string("a")]),
        Err(Error::InvalidSet)
    );
    assert_eq!(builder::set(vec![builder::var("x")]), Err(Error::InvalidSet));
    assert!(builder::set(vec![]).is_ok());
    assert!(parser::term("[1, \"a\"]").is_err());
}

#[test]
fn unknown_symbols_are_reported() {
    let table = SymbolTable::new();
    assert_eq!(
        builder::Term::convert_from(&datalog::Term::Symbol(5), &table),
        Err(Error::UnknownSymbol(5))
    );
    assert!(table.resolve(0).is_err());
}

#[test]
fn conversion_round_trip() {
    let mut table = SymbolTable::new();
    let (_, r) = parser::rule("right($0, #read) <- resource(#ambient, $0), $0 starts with \"file\"").unwrap();
    let d = r.convert(&mut table).unwrap();
    let back = builder::Rule::convert_from(&d, &table).unwrap();
    assert_eq!(back, r);
    let (_, f) = parser::fact("data(hex:0aff, true, [#a, #b], -3)").unwrap();
    let df = f.convert(&mut table).unwrap();
    assert_eq!(builder::Fact::convert_from(&df, &table).unwrap(), f);
}

#[test]
fn symbol_table_interns_once() {
    let mut table = SymbolTable::new();
    let a = table.insert("alpha");
    let b = table.insert("beta");
    let a2 = table.insert("alpha");
    assert_eq!(a, 0);
    assert_eq!(b, 1);
    assert_eq!(a2, 0);
    assert_eq!(table.len(), 2);
    assert_eq!(table.get("beta"), Some(1));
    assert_eq!(table.get("gamma"), None);
    assert_eq!(table.resolve(1), Ok("beta".to_string()));
    let tail = table.split_off(1);
    assert_eq!(table.len(), 1);
    assert_eq!(tail.symbols, vec!["beta".to_string()]);
}

#[test]
fn parser_reads_bytes_and_rejects_garbage() {
    assert_eq!(parser::term("hex:0aFF"), Ok((String::new(), builder::Term::Bytes(vec![0x0a, 0xff]))));
    assert!(parser::term("hex:abc").is_err());
    assert_eq!(parser::fact("("), Err(Error::ParseError));
    assert_eq!(parser::integer("99999999999999999999"), Err(Error::ParseError));
    assert_eq!(parser::string("\"a\\\"b\\nc\""), Ok((String::new(), builder::Term::Str("a\"b\nc".to_string()))));
    assert!(parser::date("1969-12-31T23:59:59Z").is_err());
}

#[test]
fn policy_parsing_is_case_insensitive() {
    let (_, p) = parser::policy("DENY IF admin(#authority)").unwrap();
    assert_eq!(p.kind, PolicyKind::Deny);
    let (_, c) = parser::caveat("Check If a(1) OR b(2)").unwrap();
    assert_eq!(c.queries.len(), 2);
}

#[test]
fn constraints_are_comparison_expressions() {
    let lower = Constraint { id: "0".to_string(), kind: ConstraintKind::Integer(IntConstraint::Lower(1234)) };
    assert_eq!(lower.to_expression().ops, parser::expr("$0 < 1234").unwrap().1.opcodes());
    let before = Constraint { id: "0".to_string(), kind: ConstraintKind::Date(DateConstraint::Before(1575452801)) };
    assert_eq!(
        before.to_expression().ops,
        parser::expr("$0 <= 2019-12-04T09:46:41+00:00").unwrap().1.opcodes()
    );
    let prefix = Constraint { id: "r".to_string(), kind: ConstraintKind::String(StrConstraint::Prefix("file".to_string())) };
    assert_eq!(prefix.to_expression().ops, parser::expr("$r starts with \"file\"").unwrap().1.opcodes());
    let within = Constraint {
        id: "0".to_string(),
        kind: ConstraintKind::Symbol(SymbolConstraint::In(vec!["abc".to_string(), "def".to_string()])),
    };
    assert_eq!(within.to_expression().ops, parser::expr("$0 in [#abc, #def]").unwrap().1.opcodes());

    let mut table = SymbolTable::new();
    for c in [lower, before, prefix, within] {
        let d = c.convert(&mut table).unwrap();
        assert_eq!(Constraint::convert_from(&d, &table).unwrap(), c);
    }
    let not_constraint = parser::expr("1 + 2").unwrap().1.opcodes();
    let d = builder::Expression { ops: not_constraint }.convert(&mut table).unwrap();
    assert_eq!(Constraint::convert_from(&d, &table), Err(Error::InvalidConstraint));
}

#[test]
fn empty_inputs() {
    let out = solver::solve(&vec![], &vec![], limits()).unwrap();
    assert!(out.is_empty());
    assert_eq!(parser::fact(""), Err(Error::ParseError));
    assert_eq!(parser::symbol("#"), Err(Error::ParseError));
    assert_eq!(parser::string("\"unclosed"), Err(Error::ParseError));
    let mut syms = SymbolTable::new();
    let facts: Vec<Predicate> = vec![];
    let c = caveat_in(&mut syms, "check if a(1)");
    assert!(!biscuit_auth::authorizer::check_caveat(&facts, &c));
}

#[test]
fn overlapping_symbol_slices_are_refused() {
    let names = |n: &[&str]| SymbolTable { symbols: n.iter().map(|s| s.to_string()).collect() };
    let block = |index: u32, table: SymbolTable| Block {
        index,
        symbols: table,
        facts: vec![],
        rules: vec![],
        caveats: vec![],
        context: None,
        version: MAX_SCHEMA_VERSION,
    };
    let mut t = Biscuit::new(&ROOT, NEXT1, block(0, names(&["read", "write"]))).unwrap();
    t.append(block(1, names(&["file"])), NEXT2).unwrap();
    let merged = biscuit_auth::token::merge_symbols(&t.blocks);
    assert_eq!(merged.symbols, vec!["read".to_string(), "write".to_string(), "file".to_string()]);
    let mut a = Authorizer::new();
    let mut syms = merged.clone();
    a.add_policy(policy_in(&mut syms, "allow if true"));
    assert_eq!(t.verify(&a, limits()), Ok(0));

    let mut bad = Biscuit::new(&ROOT, NEXT1, block(0, names(&["read"]))).unwrap();
    bad.append(block(1, names(&["read"])), NEXT2).unwrap();
    assert_eq!(bad.verify(&a, limits()), Err(Error::DuplicateSymbols));
}

#[test]
fn sets_are_sorted_without_duplicates() {
    let a = builder::set(vec![builder::integer(2), builder::integer(1), builder::integer(2)]).unwrap();
    let b = builder::set(vec![builder::integer(1), builder::integer(2)]).unwrap();
    assert_eq!(a, b);
    assert_eq!(a, builder::Term::TermSet(vec![builder::integer(1), builder::integer(2)]));
    let s = builder::set(vec![builder::string("b"), builder::string("a"), builder::string("ab")]).unwrap();
    assert_eq!(s, builder::Term::TermSet(vec![builder::string("a"), builder::string("ab"), builder::string("b")]));
    let parsed = parser::term("[2, 1, 2]").unwrap().1;
    assert_eq!(parsed, b);
}

#[test]
fn facts_must_be_ground() {
    assert_eq!(parser::fact("a($x)"), Err(Error::ParseError));
    assert!(parser::fact("a(#x, 1)").is_ok());
    assert!(parser::predicate("a($x)").is_ok());
}

#[test]
fn rewritten_block_is_refused() {
    let mut builder = BiscuitBuilder::new(SymbolTable::new());
    builder.add_right("file1", "read");
    let mut token = builder.build(&ROOT, NEXT1).unwrap();
    let mut table = SymbolTable::new();
    table.extend(&token.blocks[0].symbols);
    let mut authorizer = Authorizer::new();
    authorizer.add_policy(policy_in(&mut table, "allow if right(#authority, \"file2\", #read)"));
    assert_eq!(token.verify(&authorizer, limits()), Err(Error::NoMatchingPolicy));
    let forged = fact_in(&mut table, "right(#authority, \"file2\", #read)");
    token.blocks[0].facts.push(forged);
    assert_eq!(token.verify(&authorizer, limits()), Err(Error::BlockMismatch(0)));
    assert_eq!(token.signed[0].content, biscuit_auth::codec::encode_block(&{
        let mut b = token.blocks[0].facts.clone();
        b.pop();
        Block {
            index: 0,
            symbols: token.blocks[0].symbols.clone(),
            facts: b,
            rules: vec![],
            caveats: vec![],
            context: None,
            version: MAX_SCHEMA_VERSION,
        }
    }));
}

#[test]
fn block_encoding_is_exact() {
    let b = Block {
        index: 1,
        symbols: SymbolTable { symbols: vec!["ab".to_string()] },
        facts: vec![],
        rules: vec![],
        caveats: vec![],
        context: None,
        version: 1,
    };
    let bytes = biscuit_auth::codec::encode_block(&b);
    let mut expected = vec![0, 0, 0, 1];
    expected.extend([0, 0, 0, 0, 0, 0, 0, 1]);
    expected.extend([0, 0, 0, 0, 0, 0, 0, 2, b'a', b'b']);
    expected.extend([0u8; 8]);
    expected.extend([0u8; 8]);
    expected.extend([0u8; 8]);
    expected.push(0);
    expected.extend([0, 0, 0, 1]);
    assert_eq!(bytes, expected);
}

#[test]
fn regex_classes_compile() {
    let mut syms = SymbolTable::new();
    let v = var_id(&mut syms, "0");
    let e = expression_in(&mut syms, "$0 matches \"^file\\\\d+$\"");
    assert!(expr::expression_holds(&e, &vec![(v, datalog::Term::Str("file12".to_string()))]));
    assert!(!expr::expression_holds(&e, &vec![(v, datalog::Term::Str("fileX".to_string()))]));
}

#[test]
fn empty_membership_lists_are_refused() {
    let mut table = SymbolTable::new();
    let empty = ConstraintKind::String(StrConstraint::In(vec![]));
    assert_eq!(empty.convert(&mut table), Err(Error::InvalidConstraint));
    let c = Constraint { id: "0".to_string(), kind: ConstraintKind::Symbol(SymbolConstraint::NotIn(vec![])) };
    assert_eq!(c.convert(&mut table), Err(Error::InvalidConstraint));
    assert_eq!(table.len(), 0);
    let names = ConstraintKind::String(StrConstraint::In(vec!["a".to_string(), "b".to_string()]));
    let (d, op) = names.convert(&mut table).unwrap();
    assert_eq!(ConstraintKind::convert_from(&d, op, &table), Ok(names));
}

#[test]
fn malformed_hand_built_sets_are_refused() {
    let mut table = SymbolTable::new();
    let mixed = builder::Term::TermSet(vec![builder::integer(1), builder::string("a")]);
    assert_eq!(mixed.convert(&mut table), Err(Error::InvalidSet));
    let nested = builder::Term::TermSet(vec![builder::Term::TermSet(vec![])]);
    assert_eq!(nested.convert(&mut table), Err(Error::InvalidSet));
    let with_var = builder::Term::TermSet(vec![builder::var("x")]);
    assert_eq!(with_var.convert(&mut table), Err(Error::InvalidSet));
    assert_eq!(table.len(), 0);
    let mut block = BlockBuilder::new(0);
    block.add_fact(builder::fact("f", &[mixed]));
    assert!(matches!(block.build(SymbolTable::new()), Err(Error::InvalidSet)));
}
