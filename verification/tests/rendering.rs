use vsa_synth::ast::AST;
use vsa_synth::fun::Fun;
use vsa_synth::lit::Lit;
use vsa_synth::lit::Typ;

fn text(s: &str) -> AST {
    AST::Lit(Lit::StringConst(s.to_string()))
}

fn loc(n: usize) -> AST {
    AST::Lit(Lit::LocConst(n))
}

fn app(fun: Fun, args: Vec<AST>) -> AST {
    AST::App { fun, args }
}

#[test]
fn literals_are_written() {
    assert_eq!(text("a b").render(), "'a b'");
    assert_eq!(loc(0).render(), "0");
    assert_eq!(loc(1207).render(), "1207");
    assert_eq!(AST::Lit(Lit::BoolConst(true)).render(), "true");
    assert_eq!(AST::Lit(Lit::BoolConst(false)).render(), "false");
    assert_eq!(AST::Lit(Lit::LocEnd).render(), "$");
    assert_eq!(AST::Lit(Lit::Input).render(), "X");
    assert_eq!(Lit::LocConst(18446744073709551615).render(), "18446744073709551615");
}

#[test]
fn operators_are_written() {
    let x = || AST::Lit(Lit::Input);
    assert_eq!(app(Fun::Concat, vec![text("a"), x()]).render(), "('a' <> X)");
    assert_eq!(app(Fun::Slice, vec![loc(0), AST::Lit(Lit::LocEnd)]).render(), "(X[0..$])");
    assert_eq!(app(Fun::Find, vec![x(), text("foo"), loc(1)]).render(), "X.find('foo', 1)");
    assert_eq!(
        app(Fun::FindEnd, vec![x(), text("foo"), loc(1)]).render(),
        "X.find_end('foo', 1)"
    );
    assert_eq!(app(Fun::LocAdd, vec![loc(1), loc(2)]).render(), "(1 + 2)");
    assert_eq!(app(Fun::LocSub, vec![loc(1), loc(2)]).render(), "(1 - 2)");
    assert_eq!(app(Fun::Equal, vec![loc(1), loc(2)]).render(), "(1 == 2)");
    assert_eq!(app(Fun::Lowercase, vec![x()]).render(), "X.lower()");
    assert_eq!(app(Fun::Uppercase, vec![x()]).render(), "X.upper()");
    assert_eq!(
        app(Fun::ConcatMap, vec![text(","), x()]).render(),
        "X.split(',').concat_map(\u{3bb}X.X)"
    );
}

#[test]
fn concatenation_with_the_empty_string_is_elided() {
    let x = || AST::Lit(Lit::Input);
    assert_eq!(app(Fun::Concat, vec![text(""), x()]).render(), "X");
    assert_eq!(app(Fun::Concat, vec![x(), text("")]).render(), "X");
    assert_eq!(app(Fun::Concat, vec![text(""), text("")]).render(), "''");
    let nested = app(Fun::Concat, vec![text(""), app(Fun::Concat, vec![x(), text(" World")])]);
    assert_eq!(nested.render(), "(X <> ' World')");
}

#[test]
fn nested_programs_are_written() {
    let x = || AST::Lit(Lit::Input);
    let start = app(Fun::Find, vec![x(), text("\\d"), loc(0)]);
    let end = app(Fun::FindEnd, vec![x(), text("\\d"), loc(1)]);
    assert_eq!(
        app(Fun::Slice, vec![start, end]).render(),
        "(X[X.find('\\d', 0)..X.find_end('\\d', 1)])"
    );
    let call = AST::ForeignCall { code: "X.upper()".to_string(), input: Box::new(x()), typ: Typ::Str };
    assert_eq!(call.render(), "(lambda X: X.upper())(X)");
}

#[test]
fn programs_with_all_their_arguments() {
    let x = || AST::Lit(Lit::Input);
    assert!(x().is_well_built());
    assert!(app(Fun::Concat, vec![x(), text("a")]).is_well_built());
    assert!(!app(Fun::Concat, vec![x()]).is_well_built());
    assert!(!app(Fun::Find, vec![x(), x()]).is_well_built());
    assert!(app(Fun::Find, vec![x(), x(), loc(0)]).is_well_built());
    assert!(!app(Fun::Lowercase, vec![]).is_well_built());
    assert!(!app(Fun::Slice, vec![loc(0), app(Fun::Uppercase, vec![x(), x()])]).is_well_built());
    let call = |inner: AST| AST::ForeignCall {
        code: "c".to_string(),
        input: Box::new(inner),
        typ: Typ::Bool,
    };
    assert!(call(x()).is_well_built());
    assert!(!call(app(Fun::Equal, vec![])).is_well_built());
}
