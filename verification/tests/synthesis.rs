use vsa_synth::ast::AST;
use vsa_synth::driver::agrees;
use vsa_synth::driver::synthesize;
use vsa_synth::driver::top_down;
use vsa_synth::driver::top_down_vsa;
use vsa_synth::eval::Delegate;
use vsa_synth::eval::Echo;
use vsa_synth::fun::Fun;
use vsa_synth::lit::Cost;
use vsa_synth::lit::Lit;
use vsa_synth::pattern::RegexCache;
use vsa_synth::seed::common;
use vsa_synth::seed::marks;

fn text(s: &str) -> Lit {
    Lit::StringConst(s.to_string())
}

fn run(program: &AST, input: &str) -> Lit {
    let mut regexes = RegexCache::new(64);
    program.eval(&text(input), &mut regexes, &Echo)
}

#[test]
fn initials_of_two_names() {
    let examples = vec![(text("First Last"), text("F L")), (text("Another Name"), text("A N"))];
    let (_, best) = top_down(&examples);
    let best = best.unwrap();
    assert_eq!(run(&best, "First Last"), text("F L"));
    assert_eq!(run(&best, "Another Name"), text("A N"));
}

#[test]
fn digits_of_a_sentence() {
    let examples = vec![(text("I have 17 cookies"), text("17"))];
    let (_, best) = top_down(&examples);
    assert_eq!(run(&best.unwrap(), "I have 17 cookies"), text("17"));
}

#[test]
fn appended_word() {
    let examples = vec![(text("Hello"), text("Hello World")), (text("Goodbye"), text("Goodbye World"))];
    let (_, best) = top_down(&examples);
    let best = best.unwrap();
    assert_eq!(run(&best, "Hello"), text("Hello World"));
    assert_eq!(run(&best, "Goodbye"), text("Goodbye World"));
}

#[test]
fn found_programs_are_written_as_expected() {
    let names = vec![(text("First Last"), text("F L")), (text("Another Name"), text("A N"))];
    let (space, best) = top_down(&names);
    let best = best.unwrap();
    assert_eq!(best.render(), "((X[0..1]) <> (X[X.find(' ', 0)..X.find_end('[A-Z]', 1)]))");
    assert!(space.contains(&best));
    assert!(space.is_well_formed());
    assert!(best.is_well_built());
    assert_eq!(space.pick_best(|p: &AST| p.cost()), Some(best.clone()));
    let hello = vec![(text("Hello"), text("Hello World")), (text("Goodbye"), text("Goodbye World"))];
    let (_, best) = top_down(&hello);
    assert_eq!(best.unwrap().render(), "(X <> ' World')");
    let cookies = vec![(text("I have 17 cookies"), text("17"))];
    let (space, best) = top_down(&cookies);
    assert_eq!(best, Some(AST::Lit(text("17"))));
    let slice = AST::App {
        fun: Fun::Slice,
        args: vec![AST::Lit(Lit::LocConst(7)), AST::Lit(Lit::LocConst(9))],
    };
    assert!(space.contains(&slice));
    assert_eq!(run(&slice, "I have 17 cookies"), text("17"));
}

#[test]
fn upper_case_with_a_word_is_out_of_reach() {
    let examples = vec![(text("hi"), text("HI WO")), (text("abc"), text("ABC WO"))];
    let (space, best) = top_down(&examples);
    assert_eq!(best, None);
    if let Some(program) = space.pick_one() {
        assert_eq!(run(&program, "hi"), text("HI WO"));
        assert_eq!(run(&program, "abc"), text("ABC WO"));
    }
}

#[test]
fn examples_that_contradict_each_other_have_no_program() {
    let examples = vec![(text("a"), text("b")), (text("a"), text("c"))];
    let (space, best) = top_down_vsa(&examples);
    assert_eq!(best, None);
    assert!(space.is_empty());
    assert_eq!(space.pick_one(), None);
}

#[test]
fn synthesis_with_a_cache_and_an_evaluator_of_ones_own() {
    let examples = vec![(text("Hello"), text("Hello World")), (text("Goodbye"), text("Goodbye World"))];
    let mut regexes = RegexCache::new(8);
    let same = |_: &str, input: &Lit| input.clone();
    let (space, best) = synthesize(&examples, &mut regexes, &Delegate(same));
    let (expected_space, expected_best) = top_down(&examples);
    assert_eq!(best, expected_best);
    assert_eq!(space, expected_space);
    assert!(agrees(&best.unwrap(), &examples, &mut regexes, &Echo));
}

#[test]
fn agreement_of_a_program_with_examples() {
    let examples = vec![(text("ab"), text("a")), (text("cd"), text("c"))];
    let mut regexes = RegexCache::new(8);
    let first = AST::App {
        fun: Fun::Slice,
        args: vec![AST::Lit(Lit::LocConst(0)), AST::Lit(Lit::LocConst(1))],
    };
    assert!(agrees(&first, &examples, &mut regexes, &Echo));
    assert!(!agrees(&AST::Lit(text("a")), &examples, &mut regexes, &Echo));
    let broken = AST::App { fun: Fun::Concat, args: vec![AST::Lit(Lit::LocConst(0))] };
    assert!(!agrees(&broken, &examples, &mut regexes, &Echo));
    assert!(agrees(&broken, &[], &mut regexes, &Echo));
}

#[test]
fn marks_that_every_example_has() {
    let examples = vec![(text("a.b c"), text("x-y")), (text("q. w-"), text("{}"))];
    assert_eq!(marks(&examples[0]), vec![text("\\."), text(" "), text("-")]);
    assert_eq!(marks(&examples[1]), vec![text("\\."), text(" "), text("-"), text("\\{")]);
    assert_eq!(common(&examples), vec![text("\\."), text(" "), text("-")]);
    let fewer = vec![(text("a.b c"), text("x-y")), (text("q w"), text(""))];
    assert_eq!(common(&fewer), vec![text(" ")]);
    let mixed = vec![(text("a.b"), text("x-y")), (text("a.b"), Lit::LocConst(1))];
    assert_eq!(common(&mixed), Vec::<Lit>::new());
    assert_eq!(marks(&mixed[1]), Vec::<Lit>::new());
    assert_eq!(common(&[]), Vec::<Lit>::new());
    let accents = vec![(text("\u{e9}t\u{e9} 9!"), text("\u{df}"))];
    assert_eq!(common(&accents), vec![text(" "), text("!")]);
}

#[test]
fn marks_of_the_examples_can_be_searched_for() {
    let examples = vec![(text("one-two"), text("two")), (text("three-four"), text("four"))];
    let (_, best) = top_down(&examples);
    let best = best.unwrap();
    assert_eq!(run(&best, "one-two"), text("two"));
    assert_eq!(run(&best, "three-four"), text("four"));
    assert_eq!(run(&best, "x-y"), text("y"));
}
