use abac::rule::{Context, Error, Rule};

fn s(v: &str) -> Rule {
    Rule::String(String::from(v))
}

fn empty() -> Context {
    Context::from_str("").unwrap()
}

fn eval(text: &str, ctx: &str) -> Result<Rule, Error> {
    Rule::from_str(text).unwrap().eval(&Context::from_str(ctx).unwrap())
}

#[test]
fn test_parse_context_ok() {
    assert_eq!(
        Context::from_str("name:John,age:20,weight:70.5,active:true"),
        Ok(Context(vec![
            (String::from("name"), Rule::String(String::from("John"))),
            (String::from("age"), Rule::Integer(20)),
            (String::from("weight"), Rule::Float(String::from("70.5"))),
            (String::from("active"), Rule::Bool(true)),
        ]))
    );
}

#[test]
fn test_parse_literal_ok() {
    assert_eq!(Rule::from_literal("John"), Ok(Rule::String(String::from("John"))));
    assert_eq!(Rule::from_literal("20"), Ok(Rule::Integer(20)));
    assert_eq!(Rule::from_literal("70.5"), Ok(Rule::Float(String::from("70.5"))));
    assert_eq!(Rule::from_literal("true"), Ok(Rule::Bool(true)));
    assert_eq!(Rule::from_literal(""), Ok(Rule::String(String::new())));
    assert_eq!(Rule::from_literal("0d!"), Ok(Rule::String(String::from("0d!"))));
}

#[test]
fn test_parse_rule_ok() {
    assert_eq!(Rule::from_str("()"), Ok(Rule::Tuple(vec![])));
    assert_eq!(
        Rule::from_str("(if)"),
        Ok(Rule::Tuple(vec![Rule::If(String::from("if")),]))
    );
    assert_eq!(
        Rule::from_str("(or true true)"),
        Ok(Rule::Tuple(vec![
            Rule::Or(String::from("or")),
            Rule::Bool(true),
            Rule::Bool(true),
        ]))
    );
    assert_eq!(
        Rule::from_str("(and true true)"),
        Ok(Rule::Tuple(vec![
            Rule::And(String::from("and")),
            Rule::Bool(true),
            Rule::Bool(true),
        ]))
    );
    let expected = || {
        Rule::Tuple(vec![
            Rule::If(String::from("if")),
            Rule::Tuple(vec![
                Rule::Eq(String::from("eq")),
                Rule::String(String::from("$name")),
                Rule::Bool(true),
            ]),
            Rule::Tuple(vec![
                Rule::List(String::from("list")),
                Rule::String(String::from("create")),
            ]),
            Rule::Tuple(vec![Rule::List(String::from("list")),]),
        ])
    };
    assert_eq!(
        Rule::from_str("(if (eq $name true) (list create) (list))"),
        Ok(expected())
    );
    assert_eq!(
        Rule::from_str("(if (eq $name true) (list create) (list))"),
        Ok(expected())
    );
}

#[test]
fn test_parse_rule_err() {
    assert_eq!(Rule::from_str(""), Err(Error::CannotParse(String::from(""))));
    assert_eq!(
        Rule::from_str("(if (eq )) (list create) (list))"),
        Err(Error::CannotParse(
            "(if (eq )) (list create) (list))".to_string()
        ))
    );
}

#[test]
fn test_eval_rule_in_ok() {
    assert_eq!(eval("(in john (list))", ""), Ok(Rule::Bool(false)));
    assert_eq!(eval("(in 10 (list))", ""), Ok(Rule::Bool(false)));
    assert_eq!(eval("(in john (list john jane))", ""), Ok(Rule::Bool(true)));
    assert_eq!(eval("(in john (list jane))", ""), Ok(Rule::Bool(false)));
    assert_eq!(eval("(in john (list 10))", ""), Ok(Rule::Bool(false)));
    assert_eq!(eval("(in john (list 10 john))", ""), Ok(Rule::Bool(true)));
}

#[test]
fn test_eval_rule_in_err() {
    assert_eq!(
        eval("(in john jane)", ""),
        Err(Error::InvalidInStatement(Rule::Tuple(vec![
            Rule::In(String::from("in")),
            s("john"),
            s("jane"),
        ])))
    );
    assert_eq!(
        eval("(in (list john) jane)", ""),
        Err(Error::InvalidInStatement(Rule::Tuple(vec![
            Rule::In(String::from("in")),
            Rule::Tuple(vec![Rule::List(String::from("list")), s("john")]),
            s("jane"),
        ])))
    );
}

#[test]
fn test_eval_rule_and_ok() {
    assert_eq!(eval("(and true true)", ""), Ok(Rule::Bool(true)));
    assert_eq!(eval("(and true false)", ""), Ok(Rule::Bool(false)));
    assert_eq!(eval("(and false true)", ""), Ok(Rule::Bool(false)));
    assert_eq!(eval("(and false false)", ""), Ok(Rule::Bool(false)));
}

#[test]
fn test_eval_rule_and_err() {
    assert_eq!(
        eval("(and true)", ""),
        Err(Error::InvalidAndStatement(Rule::Tuple(vec![
            Rule::And(String::from("and")),
            Rule::Bool(true),
        ])))
    );
}

#[test]
fn test_eval_rule_or_ok() {
    assert_eq!(eval("(or true true)", ""), Ok(Rule::Bool(true)));
    assert_eq!(eval("(or true false)", ""), Ok(Rule::Bool(true)));
    assert_eq!(eval("(or false true)", ""), Ok(Rule::Bool(true)));
    assert_eq!(eval("(or false false)", ""), Ok(Rule::Bool(false)));
}

#[test]
fn test_eval_rule_or_err() {
    assert_eq!(
        eval("(or true)", ""),
        Err(Error::InvalidOrStatement(Rule::Tuple(vec![
            Rule::Or(String::from("or")),
            Rule::Bool(true),
        ])))
    );
}

#[test]
fn test_eval_rule_eq_ok() {
    assert_eq!(eval("(eq $a $b)", "a:10,b:10"), Ok(Rule::Bool(true)));
    assert_eq!(eval("(eq john john)", ""), Ok(Rule::Bool(true)));
    assert_eq!(eval("(eq john jane)", ""), Ok(Rule::Bool(false)));
    assert_eq!(eval("(eq 10 10)", ""), Ok(Rule::Bool(true)));
    assert_eq!(eval("(eq 10 20)", ""), Ok(Rule::Bool(false)));
    assert_eq!(eval("(eq 10.0 10.0)", ""), Ok(Rule::Bool(true)));
    assert_eq!(eval("(eq 10.0 20.0)", ""), Ok(Rule::Bool(false)));
    assert_eq!(eval("(eq true true)", ""), Ok(Rule::Bool(true)));
    assert_eq!(eval("(eq true false)", ""), Ok(Rule::Bool(false)));
}

#[test]
fn test_eval_rule_eq_err() {
    assert_eq!(
        eval("(eq)", ""),
        Err(Error::InvalidEqStatement(Rule::Tuple(vec![
            Rule::Eq(String::from("eq")),
        ])))
    );
    assert_eq!(
        eval("(eq john)", ""),
        Err(Error::InvalidEqStatement(Rule::Tuple(vec![
            Rule::Eq(String::from("eq")),
            s("john"),
        ])))
    );
}

#[test]
fn test_eval_rule_if_ok() {
    assert_eq!(eval("(if true true false", ""), Ok(Rule::Bool(true)));
    assert_eq!(eval("(if false true 10)", ""), Ok(Rule::Integer(10)));
}

#[test]
fn test_eval_rule_if_err() {
    assert_eq!(
        eval("(if)", ""),
        Err(Error::InvalidIfStatement(Rule::Tuple(vec![
            Rule::If(String::from("if")),
        ])))
    );
}

#[test]
fn test_eval_rule_ok() {
    assert_eq!(
        eval("(if (eq $name john) (list create) (list))", "name:john,role:admin"),
        Ok(Rule::Tuple(vec![s("create")]))
    );
    let policy = "(if (eq $role admin) (list create read update delete list) (if (eq $role user) (list read list) (list)))";
    assert_eq!(
        eval(policy, "name:john,role:admin"),
        Ok(Rule::Tuple(vec![
            s("create"),
            s("read"),
            s("update"),
            s("delete"),
            s("list"),
        ]))
    );
    assert_eq!(
        eval(policy, "name:john,role:user"),
        Ok(Rule::Tuple(vec![s("read"), s("list")]))
    );
}

#[test]
fn policy_admin_gets_everything() {
    let value = eval("(if (eq $role admin) (list all) (list))", "role:admin").unwrap();
    assert_eq!(value, Rule::Tuple(vec![s("all")]));
    assert_eq!(abac::permission::Permission::from(value), 0b11111);
}

#[test]
fn literal_forms() {
    assert_eq!(Rule::from_literal("-7"), Ok(Rule::Integer(-7)));
    assert_eq!(Rule::from_literal("+7"), Ok(Rule::Integer(7)));
    assert_eq!(Rule::from_literal("2147483647"), Ok(Rule::Integer(2147483647)));
    assert_eq!(Rule::from_literal("-2147483648"), Ok(Rule::Integer(-2147483648)));
    assert_eq!(Rule::from_literal("2147483648"), Ok(Rule::Float(String::from("2147483648"))));
    assert_eq!(Rule::from_literal("1e5"), Ok(Rule::Float(String::from("1e5"))));
    assert_eq!(Rule::from_literal("-.5"), Ok(Rule::Float(String::from("-.5"))));
    assert_eq!(Rule::from_literal("3."), Ok(Rule::Float(String::from("3."))));
    assert_eq!(Rule::from_literal("2.5E-3"), Ok(Rule::Float(String::from("2.5E-3"))));
    assert_eq!(Rule::from_literal("inf"), Ok(Rule::Float(String::from("inf"))));
    assert_eq!(Rule::from_literal("-Infinity"), Ok(Rule::Float(String::from("-Infinity"))));
    assert_eq!(Rule::from_literal("NaN"), Ok(Rule::Float(String::from("NaN"))));
    assert_eq!(Rule::from_literal("."), Ok(s(".")));
    assert_eq!(Rule::from_literal("1.2.3"), Ok(s("1.2.3")));
    assert_eq!(Rule::from_literal("1e"), Ok(s("1e")));
    assert_eq!(Rule::from_literal("e5"), Ok(s("e5")));
    assert_eq!(Rule::from_literal("-"), Ok(s("-")));
    assert_eq!(Rule::from_literal("false"), Ok(Rule::Bool(false)));
    assert_eq!(Rule::from_literal("True"), Ok(s("True")));
    assert_eq!(Rule::from_literal("infinite"), Ok(s("infinite")));
}

#[test]
fn parse_bare_scalar_and_whitespace() {
    assert_eq!(Rule::from_str("true"), Ok(Rule::Bool(true)));
    assert_eq!(Rule::from_str("john"), Ok(s("john")));
    assert_eq!(
        Rule::from_str("(\n    list create\n)"),
        Rule::from_str("(list create)")
    );
    assert_eq!(
        Rule::from_str("(list\tread)"),
        Ok(Rule::Tuple(vec![Rule::List(String::from("list")), s("read")]))
    );
    // a keyword that does not open its tuple is a string
    assert_eq!(
        Rule::from_str("(list if)"),
        Ok(Rule::Tuple(vec![Rule::List(String::from("list")), s("if")]))
    );
    // only the outermost tuple may be left open
    assert_eq!(
        Rule::from_str("(list (list a)"),
        Ok(Rule::Tuple(vec![
            Rule::List(String::from("list")),
            Rule::Tuple(vec![Rule::List(String::from("list")), s("a")]),
        ]))
    );
    assert_eq!(
        Rule::from_str("(list (list a"),
        Err(Error::CannotParse(String::from("(list (list a")))
    );
    // a keyword standing alone is a string
    for word in ["if", "eq", "and", "or", "in", "list"] {
        assert_eq!(Rule::from_str(word), Ok(s(word)));
    }
    assert_eq!(
        Rule::from_str("(if)"),
        Ok(Rule::Tuple(vec![Rule::If(String::from("if"))]))
    );
    assert_eq!(Rule::from_str(")"), Err(Error::CannotParse(String::from(")"))));
    assert_eq!(Rule::from_str("   "), Err(Error::CannotParse(String::from("   "))));
}

#[test]
fn eval_reference_and_data() {
    assert_eq!(eval("$missing", ""), Ok(s("")));
    assert_eq!(eval("$role", "role:admin"), Ok(s("admin")));
    assert_eq!(eval("$$role", "role:admin"), Ok(s("admin")));
    assert_eq!(eval("$k", "k:1,k:2"), Ok(Rule::Integer(1)));
    assert_eq!(eval("(a b)", ""), Ok(Rule::Tuple(vec![])));
    assert_eq!(eval("7", ""), Ok(Rule::Integer(7)));
}

#[test]
fn eval_idempotent_on_plain_values() {
    let ctx = empty();
    for text in ["(list)", "john", "10", "2.5", "true"] {
        let once = Rule::from_str(text).unwrap().eval(&ctx).unwrap();
        let twice = once.eval(&ctx).unwrap();
        assert_eq!(once, twice);
    }
}

#[test]
fn eval_errors() {
    assert_eq!(
        eval("(if 1 a b)", ""),
        Err(Error::InvalidIfCondition(Rule::Integer(1)))
    );
    assert_eq!(
        eval("(eq 1 a)", ""),
        Err(Error::CannotCompare(Rule::Integer(1), s("a")))
    );
    assert_eq!(
        eval("(and true 1)", ""),
        Err(Error::CannotCompare(Rule::Bool(true), Rule::Integer(1)))
    );
    // branches are evaluated before the choice
    assert_eq!(
        eval("(if true a (eq))", ""),
        Err(Error::InvalidEqStatement(Rule::Tuple(vec![Rule::Eq(String::from("eq"))])))
    );
    // the first failing item of a list is the result
    assert_eq!(
        eval("(list (or) (and))", ""),
        Err(Error::InvalidOrStatement(Rule::Tuple(vec![Rule::Or(String::from("or"))])))
    );
}

#[test]
fn context_forms() {
    assert_eq!(Context::from_str(",a:1,,"), Ok(Context(vec![(String::from("a"), Rule::Integer(1))])));
    assert_eq!(
        Context::from_str("a:b:c"),
        Ok(Context(vec![(String::from("a"), s("b:c"))]))
    );
    assert_eq!(Context::from_str("a:1,b"), Err(Error::CannotParse(String::from("a:1,b"))));
    let ctx = Context::from_str("a:1,a:2").unwrap();
    assert_eq!(ctx.get(&String::from("a")), Ok(&Rule::Integer(1)));
    assert_eq!(
        ctx.get(&String::from("b")),
        Err(Error::KeyNotInContext(String::from("b")))
    );
}

#[test]
fn policy_check() {
    assert_eq!(Rule::from_policy("(list read)"), Rule::from_str("(list read)"));
    assert_eq!(
        Rule::from_policy("(eq)"),
        Err(Error::InvalidEqStatement(Rule::Tuple(vec![Rule::Eq(String::from("eq"))])))
    );
    assert_eq!(Rule::from_policy(""), Err(Error::CannotParse(String::new())));
}

#[test]
fn integer_literal_edges() {
    assert_eq!(Rule::from_literal("-0"), Ok(Rule::Integer(0)));
    assert_eq!(Rule::from_literal("007"), Ok(Rule::Integer(7)));
    assert_eq!(Rule::from_literal("+"), Ok(s("+")));
    assert_eq!(Rule::from_literal("-2147483649"), Ok(Rule::Float(String::from("-2147483649"))));
    assert_eq!(Rule::from_literal("99999999999"), Ok(Rule::Float(String::from("99999999999"))));
    assert_eq!(Rule::from_literal("12a"), Ok(s("12a")));
}
