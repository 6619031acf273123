use std::rc::Rc;
use vsa_synth::ast::AST;
use vsa_synth::bank::Bank;
use vsa_synth::cache::GoalCache;
use vsa_synth::fun::Fun;
use vsa_synth::learn::learn;
use vsa_synth::learn::learn_to_depth;
use vsa_synth::lit::Lit;
use vsa_synth::pattern::RegexCache;
use vsa_synth::vsa::VSA;

fn text(s: &str) -> Lit {
    Lit::StringConst(s.to_string())
}

fn lit(l: Lit) -> AST {
    AST::Lit(l)
}

fn loc(n: usize) -> AST {
    AST::Lit(Lit::LocConst(n))
}

fn app(fun: Fun, args: Vec<AST>) -> AST {
    AST::App { fun, args }
}

fn leaf(programs: Vec<AST>) -> VSA {
    VSA::Leaf(programs.into_iter().map(Rc::new).collect())
}

fn learn_at(input: &str, goal: Lit, depth: usize) -> VSA {
    let mut regexes = RegexCache::new(16);
    let space = learn_to_depth(
        &text(input),
        &goal,
        &GoalCache::new(),
        &Bank::new(),
        depth,
        &mut regexes,
    );
    (*space).clone()
}

#[test]
fn depth_zero_leaves_the_goal_open() {
    assert_eq!(
        learn_at("abc", text("b"), 0),
        VSA::Unlearned { start: text("abc"), goal: text("b") }
    );
    assert_eq!(
        learn_at("abc", Lit::LocConst(3), 0),
        VSA::Unlearned { start: text("abc"), goal: Lit::LocConst(3) }
    );
}

#[test]
fn location_goals() {
    assert_eq!(learn_at("abc", Lit::LocConst(1), 1), leaf(vec![loc(1)]));
    assert_eq!(learn_at("abc", Lit::LocConst(3), 1), leaf(vec![loc(3), lit(Lit::LocEnd)]));
    assert_eq!(learn_at("abc", Lit::LocEnd, 1), leaf(vec![]));
    assert_eq!(learn_at("abc", Lit::Input, 3), leaf(vec![]));
}

#[test]
fn cached_space_is_taken_in() {
    let mut cache = GoalCache::new();
    cache.insert(Lit::LocConst(1), Rc::new(leaf(vec![app(
        Fun::Find,
        vec![lit(Lit::Input), lit(text("b")), loc(0)],
    )])));
    cache.insert(Lit::Input, Rc::new(leaf(vec![lit(Lit::Input)])));
    let mut regexes = RegexCache::new(16);
    let space = learn_to_depth(
        &text("abc"),
        &Lit::LocConst(1),
        &cache,
        &Bank::new(),
        1,
        &mut regexes,
    );
    let find = app(Fun::Find, vec![lit(Lit::Input), lit(text("b")), loc(0)]);
    assert_eq!(*space, leaf(vec![find, loc(1)]));
    let same = learn_to_depth(&text("abc"), &Lit::Input, &cache, &Bank::new(), 1, &mut regexes);
    assert_eq!(*same, leaf(vec![lit(Lit::Input)]));
}

#[test]
fn goal_inside_the_input_is_cut_out() {
    let space = learn_at("I have 17 cookies", text("17"), 2);
    let slice = VSA::Join {
        op: Fun::Slice,
        children: vec![Rc::new(leaf(vec![loc(7)])), Rc::new(leaf(vec![loc(9)]))],
        children_goals: vec![Lit::LocConst(7), Lit::LocConst(9)],
    };
    assert_eq!(
        space,
        VSA::Union(vec![Rc::new(leaf(vec![lit(text("17"))])), Rc::new(slice)])
    );
    assert!(space.contains(&app(Fun::Slice, vec![loc(7), loc(9)])));
    assert!(space.contains(&lit(text("17"))));
    assert!(!space.contains(&app(Fun::Slice, vec![loc(9), loc(7)])));
}

#[test]
fn goal_at_the_end_of_the_input_may_use_the_end_location() {
    let space = learn_at("abc", text("bc"), 2);
    assert!(space.contains(&app(Fun::Slice, vec![loc(1), loc(3)])));
    assert!(space.contains(&app(Fun::Slice, vec![loc(1), lit(Lit::LocEnd)])));
    assert!(!space.contains(&app(Fun::Slice, vec![lit(Lit::LocEnd), loc(3)])));
}

#[test]
fn first_place_of_the_goal_is_used() {
    let space = learn_at("abcabc", text("bc"), 2);
    assert!(space.contains(&app(Fun::Slice, vec![loc(1), loc(3)])));
    assert!(!space.contains(&app(Fun::Slice, vec![loc(4), loc(6)])));
}

#[test]
fn goal_around_the_input() {
    let mut cache = GoalCache::new();
    cache.insert(Lit::Input, Rc::new(leaf(vec![lit(Lit::Input)])));
    let mut regexes = RegexCache::new(16);
    let space = learn_to_depth(
        &text("Hello"),
        &text("Hello World"),
        &cache,
        &Bank::new(),
        2,
        &mut regexes,
    );
    let inner = app(Fun::Concat, vec![lit(Lit::Input), lit(text(" World"))]);
    assert!(space.contains(&app(Fun::Concat, vec![lit(text("")), inner])));
    assert!(space.contains(&lit(text("Hello World"))));
    match &*space {
        VSA::Union(members) => match &*members[1] {
            VSA::Join { op, children, children_goals } => {
                assert_eq!(*op, Fun::Concat);
                assert_eq!(*children_goals, vec![text(""), text(" World")]);
                match &*children[1] {
                    VSA::Join { op, children: _, children_goals } => {
                        assert_eq!(*op, Fun::Concat);
                        assert_eq!(*children_goals, vec![Lit::Input, text(" World")]);
                    },
                    other => panic!("no join: {:?}", other),
                }
            },
            other => panic!("no join: {:?}", other),
        },
        other => panic!("no union: {:?}", other),
    }
}

#[test]
fn unrelated_goal_is_cut_in_two() {
    let space = learn_at("xyz", text("ab"), 2);
    let one = |s: &str| Rc::new(VSA::Union(vec![Rc::new(leaf(vec![lit(text(s))]))]));
    let split = VSA::Join {
        op: Fun::Concat,
        children: vec![one("a"), one("b")],
        children_goals: vec![text("a"), text("b")],
    };
    let expected = VSA::Union(vec![Rc::new(split), Rc::new(leaf(vec![lit(text("ab"))]))]);
    assert_eq!(space, expected);
    assert_eq!(learn_at("xyz", text("a"), 2), *one("a"));
    assert!(space.contains(&app(Fun::Concat, vec![lit(text("a")), lit(text("b"))])));
    assert!(!space.contains(&app(Fun::Concat, vec![lit(text("b")), lit(text("a"))])));
}

#[test]
fn goal_is_cut_between_characters_only() {
    let space = learn_at("xyz", text("\u{e9}b"), 2);
    let cut = app(Fun::Concat, vec![lit(text("\u{e9}")), lit(text("b"))]);
    assert!(space.contains(&cut));
    match &space {
        VSA::Union(members) => {
            assert_eq!(members.len(), 2);
            assert!(matches!(&*members[0], VSA::Join { .. }));
            assert_eq!(*members[1], leaf(vec![lit(text("\u{e9}b"))]));
        },
        other => panic!("no union: {:?}", other),
    }
}

#[test]
fn truth_goals_take_the_comparisons_of_the_bank() {
    let mut bank = Bank::new();
    bank.grow_to(2);
    bank.push(1, loc(0));
    bank.push(1, lit(text("a")));
    bank.push(1, lit(Lit::LocEnd));
    bank.push(1, loc(0));
    bank.push(2, app(Fun::FindEnd, vec![]));
    let mut regexes = RegexCache::new(4);
    let space = learn_to_depth(
        &text("abc"),
        &Lit::BoolConst(true),
        &GoalCache::new(),
        &bank,
        1,
        &mut regexes,
    );
    let end = || lit(Lit::LocEnd);
    let eq = |a: AST, b: AST| app(Fun::Equal, vec![a, b]);
    let expected = leaf(vec![
        lit(Lit::BoolConst(true)),
        eq(loc(0), loc(0)),
        eq(loc(0), end()),
        eq(end(), loc(0)),
        eq(end(), end()),
    ]);
    assert_eq!(*space, expected);
}

#[test]
fn deeper_learning_holds_more() {
    let probes = [
        lit(text("ab")),
        app(Fun::Concat, vec![lit(text("a")), lit(text("b"))]),
        app(Fun::Concat, vec![
            app(Fun::Slice, vec![loc(0), loc(1)]),
            lit(text("b")),
        ]),
        app(Fun::Concat, vec![
            app(Fun::Slice, vec![loc(0), loc(1)]),
            app(Fun::Slice, vec![loc(2), loc(3)]),
        ]),
    ];
    let spaces: Vec<VSA> = (0..5).map(|d| learn_at("a-b", text("ab"), d)).collect();
    for d in 0..4 {
        for p in probes.iter() {
            assert!(!spaces[d].contains(p) || spaces[d + 1].contains(p));
        }
    }
    assert!(!spaces[0].contains(&probes[0]));
    assert!(spaces[1].contains(&probes[0]));
    assert!(!spaces[1].contains(&probes[1]));
    assert!(spaces[2].contains(&probes[1]));
    assert!(!spaces[2].contains(&probes[2]));
    assert!(spaces[3].contains(&probes[2]));
    assert!(spaces[3].contains(&probes[3]));
}

#[test]
fn learning_without_a_depth_goes_as_deep_as_the_goal_needs() {
    let mut regexes = RegexCache::new(16);
    let cache = GoalCache::new();
    let bank = Bank::new();
    let full = learn(&text("a-b"), &text("ab"), &cache, &bank, &mut regexes);
    let bounded = learn_to_depth(&text("a-b"), &text("ab"), &cache, &bank, 4, &mut regexes);
    assert_eq!(*full, *bounded);
    assert!(full.is_well_formed());
    let shallow = learn_to_depth(&text("a-b"), &text("ab"), &cache, &bank, 2, &mut regexes);
    assert_ne!(*full, *shallow);
    let number = learn(&text("abc"), &Lit::LocConst(3), &cache, &bank, &mut regexes);
    assert_eq!(*number, leaf(vec![loc(3), lit(Lit::LocEnd)]));
}
