use vsa_synth::ast::AST;
use vsa_synth::eval::Delegate;
use vsa_synth::eval::Echo;
use vsa_synth::fun::Fun;
use vsa_synth::fun::Language;
use vsa_synth::lit::Cost;
use vsa_synth::lit::InputLit;
use vsa_synth::lit::Lit;
use vsa_synth::lit::Typ;
use vsa_synth::pattern::regex;
use vsa_synth::pattern::RegexCache;

fn text(s: &str) -> Lit {
    Lit::StringConst(s.to_string())
}

fn lit(l: Lit) -> AST {
    AST::Lit(l)
}

fn loc(n: usize) -> AST {
    AST::Lit(Lit::LocConst(n))
}

fn app(fun: Fun, args: Vec<AST>) -> AST {
    AST::App { fun, args }
}

fn eval(program: &AST, input: &Lit) -> Lit {
    let mut regexes = RegexCache::new(16);
    program.eval(input, &mut regexes, &Echo)
}

fn try_eval(program: &AST, input: &Lit) -> Option<Lit> {
    let mut regexes = RegexCache::new(16);
    program.try_eval(input, &mut regexes, &Echo)
}

#[test]
fn slice_to_end_gives_whole_input() {
    let prog = app(Fun::Slice, vec![loc(0), lit(Lit::LocEnd)]);
    assert_eq!(eval(&prog, &text("abc")), text("abc"));
}

#[test]
fn find_second_match_and_out_of_range() {
    let find = |i: usize| {
        app(Fun::Find, vec![lit(text("foo bar baz foo")), lit(text("foo")), loc(i)])
    };
    assert_eq!(eval(&find(1), &Lit::Input), Lit::LocConst(12));
    assert_eq!(eval(&find(5), &Lit::Input), Lit::LocEnd);
}

#[test]
fn find_end_gives_end_of_match() {
    let prog = app(Fun::FindEnd, vec![lit(Lit::Input), lit(text("foo")), loc(1)]);
    assert_eq!(eval(&prog, &text("foo bar baz foo")), Lit::LocConst(15));
    let first = app(Fun::FindEnd, vec![lit(Lit::Input), lit(text("foo")), loc(0)]);
    assert_eq!(eval(&first, &text("foo bar baz foo")), Lit::LocConst(3));
}

#[test]
fn find_with_end_index_gives_end() {
    let prog = app(Fun::Find, vec![lit(Lit::Input), lit(text("o")), lit(Lit::LocEnd)]);
    assert_eq!(eval(&prog, &text("foo")), Lit::LocEnd);
}

#[test]
fn find_uses_regular_expressions() {
    let prog = app(Fun::Find, vec![lit(Lit::Input), lit(text("[A-Z]")), loc(1)]);
    assert_eq!(eval(&prog, &text("First Last")), Lit::LocConst(6));
    let digits = app(Fun::Find, vec![lit(Lit::Input), lit(text("\\d")), loc(0)]);
    assert_eq!(eval(&digits, &text("I have 17 cookies")), Lit::LocConst(7));
}

#[test]
fn pattern_that_does_not_compile_matches_any_character() {
    let prog = app(Fun::Find, vec![lit(text("abc")), lit(text("(")), loc(1)]);
    assert_eq!(eval(&prog, &Lit::Input), Lit::LocConst(1));
    let last = app(Fun::FindEnd, vec![lit(text("abc")), lit(text("(")), loc(2)]);
    assert_eq!(eval(&last, &Lit::Input), Lit::LocConst(3));
    let none = app(Fun::Find, vec![lit(text("abc")), lit(text("(")), loc(3)]);
    assert_eq!(eval(&none, &Lit::Input), Lit::LocEnd);
}

#[test]
fn slice_inside_input() {
    let prog = app(Fun::Slice, vec![loc(7), loc(9)]);
    assert_eq!(eval(&prog, &text("I have 17 cookies")), text("17"));
    let empty = app(Fun::Slice, vec![loc(2), loc(2)]);
    assert_eq!(eval(&empty, &text("abc")), text(""));
    let whole = app(Fun::Slice, vec![loc(0), loc(3)]);
    assert_eq!(eval(&whole, &text("abc")), text("abc"));
}

#[test]
fn slice_out_of_range_is_empty() {
    assert_eq!(eval(&app(Fun::Slice, vec![loc(1), loc(4)]), &text("abc")), text(""));
    assert_eq!(eval(&app(Fun::Slice, vec![loc(2), loc(1)]), &text("abc")), text(""));
    assert_eq!(eval(&app(Fun::Slice, vec![loc(4), lit(Lit::LocEnd)]), &text("abc")), text(""));
    assert_eq!(eval(&app(Fun::Slice, vec![loc(3), lit(Lit::LocEnd)]), &text("abc")), text(""));
    assert_eq!(eval(&app(Fun::Slice, vec![lit(Lit::LocEnd), loc(1)]), &text("abc")), text(""));
    assert_eq!(eval(&app(Fun::Slice, vec![loc(0), loc(1)]), &Lit::LocConst(3)), text(""));
}

#[test]
fn slice_that_cuts_a_character_is_empty() {
    let input = text("h\u{e9}llo");
    assert_eq!(eval(&app(Fun::Slice, vec![loc(0), loc(2)]), &input), text(""));
    assert_eq!(eval(&app(Fun::Slice, vec![loc(2), loc(4)]), &input), text(""));
    assert_eq!(eval(&app(Fun::Slice, vec![loc(0), loc(3)]), &input), text("h\u{e9}"));
    assert_eq!(eval(&app(Fun::Slice, vec![loc(1), lit(Lit::LocEnd)]), &input), text("\u{e9}llo"));
}

#[test]
fn difference_stops_at_zero() {
    assert_eq!(eval(&app(Fun::LocSub, vec![loc(3), loc(5)]), &Lit::Input), Lit::LocConst(0));
    assert_eq!(eval(&app(Fun::LocSub, vec![loc(5), loc(3)]), &Lit::Input), Lit::LocConst(2));
    assert_eq!(eval(&app(Fun::LocSub, vec![loc(4), loc(4)]), &Lit::Input), Lit::LocConst(0));
}

#[test]
fn sum_of_locations() {
    assert_eq!(eval(&app(Fun::LocAdd, vec![loc(2), loc(3)]), &Lit::Input), Lit::LocConst(5));
    assert_eq!(try_eval(&app(Fun::LocAdd, vec![loc(usize::MAX), loc(1)]), &Lit::Input), None);
    assert_eq!(
        try_eval(&app(Fun::LocAdd, vec![loc(usize::MAX), loc(0)]), &Lit::Input),
        Some(Lit::LocConst(usize::MAX))
    );
}

#[test]
fn end_location_absorbs() {
    let end = || lit(Lit::LocEnd);
    assert_eq!(eval(&app(Fun::LocAdd, vec![end(), loc(3)]), &Lit::Input), Lit::LocEnd);
    assert_eq!(eval(&app(Fun::LocAdd, vec![loc(3), end()]), &Lit::Input), Lit::LocEnd);
    assert_eq!(eval(&app(Fun::LocSub, vec![end(), loc(3)]), &Lit::Input), Lit::LocEnd);
    assert_eq!(eval(&app(Fun::LocSub, vec![loc(3), end()]), &Lit::Input), Lit::LocEnd);
    assert_eq!(eval(&app(Fun::LocAdd, vec![end(), end()]), &Lit::Input), Lit::LocEnd);
    assert_eq!(eval(&app(Fun::LocAdd, vec![end(), lit(text("x"))]), &Lit::Input), Lit::LocEnd);
}

#[test]
fn concat_joins_strings() {
    let prog = app(Fun::Concat, vec![lit(Lit::Input), lit(text(" World"))]);
    assert_eq!(eval(&prog, &text("Hello")), text("Hello World"));
}

#[test]
fn case_changes() {
    assert_eq!(eval(&app(Fun::Lowercase, vec![lit(Lit::Input)]), &text("AbC d")), text("abc d"));
    assert_eq!(eval(&app(Fun::Uppercase, vec![lit(Lit::Input)]), &text("AbC d")), text("ABC D"));
}

#[test]
fn equal_compares() {
    let eq = |a: AST, b: AST| app(Fun::Equal, vec![a, b]);
    assert_eq!(eval(&eq(loc(3), loc(3)), &Lit::Input), Lit::BoolConst(true));
    assert_eq!(eval(&eq(loc(3), loc(4)), &Lit::Input), Lit::BoolConst(false));
    assert_eq!(eval(&eq(loc(3), lit(Lit::LocEnd)), &text("abc")), Lit::BoolConst(true));
    assert_eq!(eval(&eq(lit(Lit::LocEnd), loc(2)), &text("abc")), Lit::BoolConst(false));
    assert_eq!(eval(&eq(loc(3), lit(Lit::LocEnd)), &Lit::LocConst(3)), Lit::BoolConst(false));
    assert_eq!(eval(&eq(lit(text("a")), lit(text("a"))), &Lit::Input), Lit::BoolConst(true));
    assert_eq!(eval(&eq(lit(Lit::Input), lit(text("abc"))), &text("abc")), Lit::BoolConst(true));
    assert_eq!(eval(&eq(lit(text("a")), loc(1)), &text("abc")), Lit::BoolConst(false));
    assert_eq!(
        eval(&eq(lit(Lit::BoolConst(true)), lit(Lit::BoolConst(true))), &text("abc")),
        Lit::BoolConst(false)
    );
    assert_eq!(eval(&app(Fun::Equal, vec![loc(1)]), &text("abc")), Lit::BoolConst(false));
}

#[test]
fn operator_applied_to_values() {
    let mut regexes = RegexCache::new(4);
    let args = vec![Lit::Input, text("abc")];
    assert_eq!(Fun::Equal.eval(&args, &text("abc"), &mut regexes), Lit::BoolConst(true));
    assert_eq!(Fun::Equal.eval(&args, &text("abd"), &mut regexes), Lit::BoolConst(false));
    let both = vec![text("a"), text("b")];
    assert!(Fun::Concat.accepts(&both, &Lit::Input));
    assert_eq!(Fun::Concat.eval(&both, &Lit::Input, &mut regexes), text("ab"));
    assert!(!Fun::Concat.accepts(&args, &Lit::Input));
    assert!(!Fun::ConcatMap.accepts(&both, &Lit::Input));
    assert!(!Fun::Lowercase.accepts(&both, &Lit::Input));
    assert!(Fun::Slice.accepts(&both, &Lit::Input));
}

#[test]
fn programs_without_a_value() {
    assert_eq!(try_eval(&app(Fun::Concat, vec![loc(1), lit(text("a"))]), &Lit::Input), None);
    assert_eq!(try_eval(&app(Fun::Concat, vec![lit(text("a"))]), &Lit::Input), None);
    assert_eq!(
        try_eval(&app(Fun::ConcatMap, vec![lit(text("a")), lit(text("b"))]), &Lit::Input),
        None
    );
    assert_eq!(
        try_eval(&app(Fun::Find, vec![lit(Lit::Input), lit(text("a")), loc(0)]), &Lit::LocConst(1)),
        None
    );
    assert_eq!(try_eval(&app(Fun::Lowercase, vec![loc(1)]), &Lit::Input), None);
    assert_eq!(try_eval(&app(Fun::LocAdd, vec![loc(1), lit(text("a"))]), &Lit::Input), None);
    let inner = app(Fun::Concat, vec![loc(1), loc(2)]);
    assert_eq!(try_eval(&app(Fun::Slice, vec![inner, loc(2)]), &text("abc")), None);
    assert_eq!(
        try_eval(&app(Fun::Concat, vec![lit(text("a")), lit(Lit::Input)]), &text("b")),
        Some(text("ab"))
    );
}

#[test]
fn literals_evaluate_to_themselves() {
    assert_eq!(eval(&lit(Lit::Input), &text("in")), text("in"));
    assert_eq!(eval(&lit(text("x")), &text("in")), text("x"));
    assert_eq!(eval(&loc(4), &text("in")), Lit::LocConst(4));
    assert_eq!(eval(&lit(Lit::LocEnd), &text("in")), Lit::LocEnd);
    assert_eq!(eval(&lit(Lit::BoolConst(true)), &text("in")), Lit::BoolConst(true));
    assert!(Lit::Input.is_input());
    assert!(!Lit::LocEnd.is_input());
}

fn shout(code: &str, input: &Lit) -> Lit {
    match input {
        Lit::StringConst(s) => Lit::StringConst(format!("{}:{}", code, s.to_uppercase())),
        other => other.clone(),
    }
}

#[test]
fn foreign_calls_are_handed_to_the_evaluator() {
    let call = AST::ForeignCall {
        code: "up".to_string(),
        input: Box::new(app(Fun::Slice, vec![loc(0), loc(2)])),
        typ: Typ::Str,
    };
    let mut regexes = RegexCache::new(4);
    assert_eq!(call.eval(&text("abc"), &mut regexes, &Delegate(shout)), text("up:AB"));
    assert_eq!(call.eval(&text("abc"), &mut regexes, &Echo), text("ab"));
    let broken = AST::ForeignCall {
        code: "up".to_string(),
        input: Box::new(app(Fun::Concat, vec![loc(0), loc(2)])),
        typ: Typ::Str,
    };
    assert_eq!(broken.try_eval(&text("abc"), &mut regexes, &Delegate(shout)), None);
}

#[test]
fn sizes_and_costs() {
    let slice = app(Fun::Slice, vec![loc(0), loc(1)]);
    let prog = app(Fun::Concat, vec![lit(text("a")), slice.clone()]);
    assert_eq!(slice.size(), 3);
    assert_eq!(prog.size(), 5);
    assert_eq!(slice.cost(), 3);
    assert_eq!(prog.cost(), 6);
    assert_eq!(lit(Lit::Input).cost(), 1);
    assert_eq!(lit(Lit::LocEnd).cost(), 1);
    assert_eq!(lit(text("a")).cost(), 2);
    assert_eq!(loc(7).cost(), 2);
    assert_eq!(lit(Lit::BoolConst(false)).cost(), 2);
    assert_eq!(Lit::Input.cost(), 1);
    assert_eq!(Fun::Concat.cost(), 2);
    assert_eq!(Fun::Find.cost(), 1);
    assert_eq!(Fun::Equal.cost(), 1);
    let call = AST::ForeignCall { code: "c".to_string(), input: Box::new(slice), typ: Typ::Int };
    assert_eq!(call.size(), 4);
    assert_eq!(call.cost(), 4);
    assert_eq!(app(Fun::Lowercase, vec![lit(Lit::Input)]).cost(), 2);
}

#[test]
fn programs_compare_and_copy() {
    let prog = app(Fun::Find, vec![lit(Lit::Input), lit(text("a")), loc(0)]);
    let same = app(Fun::Find, vec![lit(Lit::Input), lit(text("a")), loc(0)]);
    let other = app(Fun::FindEnd, vec![lit(Lit::Input), lit(text("a")), loc(0)]);
    let shorter = app(Fun::Find, vec![lit(Lit::Input), lit(text("a"))]);
    assert!(prog.same(&same));
    assert_eq!(prog, prog.clone());
    assert_ne!(prog, other);
    assert_ne!(prog, shorter);
    assert_ne!(lit(text("a")), lit(text("b")));
    assert_ne!(lit(Lit::LocEnd), loc(0));
}

#[test]
fn compiled_patterns_come_from_the_cache() {
    let mut regexes = RegexCache::new(1);
    assert_eq!(regex(&mut regexes, &"a+".to_string()).as_str(), "a+");
    assert_eq!(regex(&mut regexes, &"a+".to_string()).as_str(), "a+");
    assert_eq!(regex(&mut regexes, &"(".to_string()).as_str(), ".");
    assert_eq!(regex(&mut regexes, &"a+".to_string()).as_str(), "a+");
    let mut standard = RegexCache::with_default_capacity();
    assert_eq!(regex(&mut standard, &"[".to_string()).as_str(), ".");
    assert_eq!(regex(&mut standard, &"[".to_string()).as_str(), ".");
}
