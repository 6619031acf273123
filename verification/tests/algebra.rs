use std::rc::Rc;
use vsa_synth::ast::AST;
use vsa_synth::eval::Echo;
use vsa_synth::fun::Fun;
use vsa_synth::lit::Cost;
use vsa_synth::lit::Lit;
use vsa_synth::pattern::RegexCache;
use vsa_synth::vsa::VSA;

fn text(s: &str) -> AST {
    AST::Lit(Lit::StringConst(s.to_string()))
}

fn loc(n: usize) -> AST {
    AST::Lit(Lit::LocConst(n))
}

fn input() -> AST {
    AST::Lit(Lit::Input)
}

fn app(fun: Fun, args: Vec<AST>) -> AST {
    AST::App { fun, args }
}

fn leaf(programs: Vec<AST>) -> VSA {
    VSA::Leaf(programs.into_iter().map(Rc::new).collect())
}

fn union(members: Vec<VSA>) -> VSA {
    VSA::Union(members.into_iter().map(Rc::new).collect())
}

fn join(op: Fun, children: Vec<VSA>) -> VSA {
    let children_goals = children.iter().map(|_| Lit::Input).collect();
    VSA::Join { op, children: children.into_iter().map(Rc::new).collect(), children_goals }
}

fn open_goal() -> VSA {
    VSA::Unlearned { start: Lit::Input, goal: Lit::LocEnd }
}

fn unify(left: VSA, right: VSA) -> VSA {
    VSA::unify(Rc::new(left), Rc::new(right))
}

fn flatten(v: VSA) -> VSA {
    (*VSA::flatten(Rc::new(v))).clone()
}

fn cost(program: &AST) -> usize {
    program.cost()
}

#[test]
fn empty_and_singleton() {
    assert_eq!(VSA::empty(), leaf(vec![]));
    assert_eq!(VSA::default(), VSA::empty());
    assert_eq!(VSA::singleton(text("a")), leaf(vec![text("a")]));
    assert!(VSA::empty().is_empty());
    assert!(!VSA::singleton(input()).is_empty());
    assert_eq!(VSA::empty().pick_one(), None);
    assert_eq!(VSA::empty().pick_best(cost), None);
}

#[test]
fn unify_merges_leaves() {
    let merged = unify(leaf(vec![text("a"), text("b")]), leaf(vec![text("b"), text("c")]));
    assert_eq!(merged, leaf(vec![text("a"), text("b"), text("c")]));
    assert_eq!(unify(VSA::empty(), leaf(vec![input()])), leaf(vec![input()]));
}

#[test]
fn unify_extends_unions() {
    let x = || leaf(vec![text("x")]);
    let y = || join(Fun::Lowercase, vec![leaf(vec![input()])]);
    assert_eq!(unify(union(vec![x()]), y()), union(vec![x(), y()]));
    assert_eq!(unify(y(), union(vec![x()])), union(vec![x(), y()]));
    assert_eq!(unify(union(vec![x()]), union(vec![y()])), union(vec![x(), union(vec![y()])]));
    assert_eq!(unify(x(), y()), union(vec![x(), y()]));
    assert_eq!(unify(open_goal(), x()), union(vec![open_goal(), x()]));
    assert_eq!(unify(union(vec![]), x()), union(vec![x()]));
}

#[test]
fn unify_holds_what_either_holds() {
    let left = join(Fun::Lowercase, vec![leaf(vec![input()])]);
    let right = leaf(vec![text("a"), loc(1)]);
    let both = unify(left.clone(), right.clone());
    let held = [app(Fun::Lowercase, vec![input()]), text("a"), loc(1)];
    for program in held.iter() {
        assert!(both.contains(program));
        assert!(left.contains(program) || right.contains(program));
    }
    assert!(!both.contains(&text("b")));
    assert!(!both.contains(&app(Fun::Uppercase, vec![input()])));
}

#[test]
fn contains_is_by_position() {
    let space = join(Fun::Concat, vec![leaf(vec![text("a")]), leaf(vec![text("b")])]);
    assert!(space.contains(&app(Fun::Concat, vec![text("a"), text("b")])));
    assert!(!space.contains(&app(Fun::Concat, vec![text("b"), text("a")])));
    assert!(!space.contains(&app(Fun::Concat, vec![text("a")])));
    assert!(!space.contains(&app(Fun::Slice, vec![text("a"), text("b")])));
    assert!(!space.contains(&text("a")));
    assert!(!open_goal().contains(&text("a")));
    assert!(union(vec![leaf(vec![]), leaf(vec![input()])]).contains(&input()));
    assert!(!union(vec![]).contains(&input()));
}

#[test]
fn intersect_of_leaves() {
    let left = leaf(vec![text("a"), text("b"), text("c")]);
    let right = leaf(vec![text("c"), text("a")]);
    assert_eq!(left.intersect(&right), leaf(vec![text("a"), text("c")]));
    assert_eq!(right.intersect(&left), leaf(vec![text("c"), text("a")]));
    assert_eq!(left.intersect(&leaf(vec![])), leaf(vec![]));
}

#[test]
fn intersect_of_joins() {
    let a = join(Fun::Concat, vec![leaf(vec![text("a"), text("b")]), leaf(vec![text("c")])]);
    let b = join(Fun::Concat, vec![leaf(vec![text("b")]), leaf(vec![text("c"), text("d")])]);
    let both = join(Fun::Concat, vec![leaf(vec![text("b")]), leaf(vec![text("c")])]);
    assert_eq!(a.intersect(&b), both);
    let other = join(Fun::Slice, vec![leaf(vec![loc(0)]), leaf(vec![loc(1)])]);
    assert_eq!(a.intersect(&other), VSA::empty());
    assert_eq!(other.intersect(&a), VSA::empty());
}

#[test]
fn intersect_of_join_and_leaf() {
    let space = join(Fun::Concat, vec![leaf(vec![text("a"), text("b")]), leaf(vec![text("c")])]);
    let listed = leaf(vec![
        app(Fun::Concat, vec![text("b"), text("c")]),
        app(Fun::Concat, vec![text("c"), text("b")]),
        text("bc"),
        app(Fun::Slice, vec![text("a"), text("c")]),
        app(Fun::Concat, vec![text("a"), text("c")]),
    ]);
    let kept = leaf(vec![
        app(Fun::Concat, vec![text("b"), text("c")]),
        app(Fun::Concat, vec![text("a"), text("c")]),
    ]);
    assert_eq!(space.intersect(&listed), kept);
    assert_eq!(listed.intersect(&space), kept);
}

#[test]
fn intersect_with_open_goal_is_empty() {
    assert_eq!(open_goal().intersect(&leaf(vec![input()])), VSA::empty());
    assert_eq!(leaf(vec![input()]).intersect(&open_goal()), VSA::empty());
    assert_eq!(open_goal().intersect(&open_goal()), VSA::empty());
    let space = join(Fun::Lowercase, vec![leaf(vec![input()])]);
    assert_eq!(space.intersect(&open_goal()), VSA::empty());
}

#[test]
fn intersect_goes_through_unions() {
    let members = union(vec![leaf(vec![text("a"), text("b")]), leaf(vec![text("c")])]);
    let other = leaf(vec![text("b"), text("c")]);
    let expected = union(vec![leaf(vec![text("b")]), leaf(vec![text("c")])]);
    assert_eq!(members.intersect(&other), expected);
    assert_eq!(other.intersect(&members), expected);
    let nested = union(vec![leaf(vec![text("a")])]).intersect(&union(vec![leaf(vec![text("a")])]));
    assert_eq!(nested, union(vec![union(vec![leaf(vec![text("a")])])]));
}

#[test]
fn intersect_commutes_and_is_idempotent_in_what_it_holds() {
    let a = union(vec![
        leaf(vec![text("a"), app(Fun::Lowercase, vec![input()])]),
        join(Fun::Lowercase, vec![leaf(vec![input(), text("x")])]),
    ]);
    let b = union(vec![
        join(Fun::Lowercase, vec![leaf(vec![text("x")])]),
        leaf(vec![app(Fun::Lowercase, vec![input()]), text("b")]),
    ]);
    let probes = [
        text("a"),
        text("b"),
        app(Fun::Lowercase, vec![input()]),
        app(Fun::Lowercase, vec![text("x")]),
        app(Fun::Uppercase, vec![text("x")]),
    ];
    let ab = a.intersect(&b);
    let ba = b.intersect(&a);
    let aa = a.intersect(&a);
    for p in probes.iter() {
        assert_eq!(ab.contains(p), a.contains(p) && b.contains(p));
        assert_eq!(ab.contains(p), ba.contains(p));
        assert_eq!(aa.contains(p), a.contains(p));
        assert_eq!(flatten(aa.clone()).contains(p), flatten(a.clone()).contains(p));
    }
    assert!(ab.contains(&app(Fun::Lowercase, vec![input()])));
    assert!(ab.contains(&app(Fun::Lowercase, vec![text("x")])));
    assert!(!ab.contains(&text("a")));
}

#[test]
fn empty_absorbs_under_intersection() {
    let spaces = [
        leaf(vec![text("a")]),
        union(vec![leaf(vec![text("a")]), open_goal()]),
        join(Fun::Lowercase, vec![leaf(vec![input()])]),
        open_goal(),
        union(vec![]),
    ];
    for x in spaces.iter() {
        let left = VSA::empty().intersect(x);
        let right = x.intersect(&VSA::empty());
        assert!(left.is_empty());
        assert!(right.is_empty());
        assert_eq!(left.pick_one(), None);
        assert!(!left.contains(&text("a")));
        assert!(!right.contains(&text("a")));
    }
}

#[test]
fn pick_one_takes_the_first() {
    assert_eq!(leaf(vec![text("b"), text("a")]).pick_one(), Some(text("b")));
    let members = union(vec![leaf(vec![]), open_goal(), leaf(vec![loc(1)]), leaf(vec![loc(2)])]);
    assert_eq!(members.pick_one(), Some(loc(1)));
    let space = join(Fun::Concat, vec![leaf(vec![text("a"), text("b")]), leaf(vec![input()])]);
    assert_eq!(space.pick_one(), Some(app(Fun::Concat, vec![text("a"), input()])));
    let stuck = join(Fun::Concat, vec![leaf(vec![text("a")]), leaf(vec![])]);
    assert_eq!(stuck.pick_one(), None);
    assert_eq!(open_goal().pick_one(), None);
}

#[test]
fn picked_programs_are_held() {
    let space = join(
        Fun::Concat,
        vec![
            union(vec![leaf(vec![]), leaf(vec![text("a"), input()])]),
            join(Fun::Lowercase, vec![leaf(vec![text("B"), input()])]),
        ],
    );
    let one = space.pick_one().unwrap();
    let best = space.pick_best(cost).unwrap();
    assert!(space.contains(&one));
    assert!(space.contains(&best));
    assert_eq!(one, app(Fun::Concat, vec![text("a"), app(Fun::Lowercase, vec![text("B")])]));
    assert_eq!(best, app(Fun::Concat, vec![input(), app(Fun::Lowercase, vec![input()])]));
}

#[test]
fn pick_best_takes_the_first_of_least_rank() {
    let listed = leaf(vec![text("abc"), input(), AST::Lit(Lit::LocEnd), loc(0)]);
    assert_eq!(listed.pick_best(cost), Some(input()));
    assert_eq!(listed.pick_best(|p: &AST| 10 - p.cost()), Some(text("abc")));
    let members = union(vec![
        leaf(vec![text("a")]),
        leaf(vec![]),
        leaf(vec![app(Fun::Lowercase, vec![input()]), AST::Lit(Lit::LocEnd)]),
        leaf(vec![input()]),
    ]);
    assert_eq!(members.pick_best(cost), Some(AST::Lit(Lit::LocEnd)));
    assert_eq!(members.pick_best(|p: &AST| p.size()), Some(text("a")));
    assert_eq!(open_goal().pick_best(cost), None);
    assert_eq!(union(vec![open_goal(), leaf(vec![])]).pick_best(cost), None);
}

#[test]
fn no_held_program_is_cheaper_than_the_best_without_joins() {
    let space = union(vec![
        leaf(vec![app(Fun::Slice, vec![loc(0), loc(1)]), text("a")]),
        union(vec![leaf(vec![loc(3), app(Fun::Lowercase, vec![input()])]), open_goal()]),
    ]);
    let best = space.pick_best(cost).unwrap();
    assert_eq!(best, text("a"));
    let held = [
        app(Fun::Slice, vec![loc(0), loc(1)]),
        text("a"),
        loc(3),
        app(Fun::Lowercase, vec![input()]),
    ];
    for p in held.iter() {
        assert!(space.contains(p));
        assert!(best.cost() <= p.cost());
    }
}

#[test]
fn best_of_a_join_is_least_in_size() {
    let space = join(
        Fun::Concat,
        vec![
            leaf(vec![app(Fun::Lowercase, vec![input()]), text("a")]),
            leaf(vec![app(Fun::Slice, vec![loc(0), loc(1)]), input()]),
        ],
    );
    let best = space.pick_best(|p: &AST| p.size()).unwrap();
    assert_eq!(best, app(Fun::Concat, vec![text("a"), input()]));
    assert_eq!(best.size(), 3);
}

#[test]
fn best_of_a_join_applies_the_operator_to_the_best_arguments() {
    let space = join(
        Fun::Lowercase,
        vec![leaf(vec![app(Fun::Lowercase, vec![input()]), text("a")])],
    );
    let best = space.pick_best(cost).unwrap();
    assert_eq!(best, app(Fun::Lowercase, vec![app(Fun::Lowercase, vec![input()])]));
    assert_eq!(best.cost(), 3);
    assert!(space.contains(&app(Fun::Lowercase, vec![text("a")])));
    assert_eq!(app(Fun::Lowercase, vec![text("a")]).cost(), 2);
}

#[test]
fn emptiness() {
    assert!(leaf(vec![]).is_empty());
    assert!(!open_goal().is_empty());
    assert!(union(vec![]).is_empty());
    assert!(union(vec![open_goal()]).is_empty());
    assert!(join(Fun::Concat, vec![leaf(vec![input()]), leaf(vec![])]).is_empty());
    assert!(!join(Fun::Concat, vec![leaf(vec![input()]), leaf(vec![input()])]).is_empty());
}

#[test]
fn space_evaluates_its_first_program() {
    let space = union(vec![
        leaf(vec![]),
        join(Fun::Slice, vec![leaf(vec![loc(0)]), leaf(vec![loc(2), loc(1)])]),
    ]);
    let mut regexes = RegexCache::new(4);
    let value = space.eval(&Lit::StringConst("abc".to_string()), &mut regexes, &Echo);
    assert_eq!(value, Lit::StringConst("ab".to_string()));
}

#[test]
fn flatten_collapses_nested_unions() {
    let a = || leaf(vec![text("a")]);
    let b = || leaf(vec![text("b")]);
    let c = || leaf(vec![text("c")]);
    let d = || leaf(vec![text("d")]);
    assert_eq!(flatten(union(vec![union(vec![a(), b()]), c()])), union(vec![a(), b(), c()]));
    let deep = union(vec![union(vec![union(vec![a(), b()]), c()]), d()]);
    assert_eq!(flatten(deep), union(vec![a(), b(), c(), d()]));
}

#[test]
fn flatten_replaces_a_union_by_its_only_full_member() {
    let a = || leaf(vec![text("a")]);
    assert_eq!(flatten(union(vec![a(), leaf(vec![])])), a());
    assert_eq!(flatten(union(vec![leaf(vec![]), union(vec![leaf(vec![]), a()])])), a());
    assert_eq!(flatten(union(vec![open_goal()])), open_goal());
    assert_eq!(flatten(union(vec![])), union(vec![]));
    assert_eq!(flatten(union(vec![leaf(vec![])])), union(vec![leaf(vec![])]));
}

#[test]
fn flatten_removes_repeated_neighbours() {
    let a = || leaf(vec![text("a")]);
    let b = || leaf(vec![text("b")]);
    assert_eq!(flatten(union(vec![a(), a(), b(), a()])), union(vec![a(), b(), a()]));
    assert_eq!(flatten(union(vec![a(), a()])), a());
    assert_eq!(flatten(union(vec![a(), union(vec![a(), b()])])), union(vec![a(), b()]));
}

#[test]
fn flatten_goes_into_joins_and_keeps_the_rest() {
    let a = || leaf(vec![text("a")]);
    let nested = join(Fun::Concat, vec![union(vec![a()]), union(vec![a(), leaf(vec![])])]);
    assert_eq!(flatten(nested), join(Fun::Concat, vec![a(), a()]));
    assert_eq!(flatten(a()), a());
    assert_eq!(flatten(open_goal()), open_goal());
}

#[test]
fn flatten_is_idempotent_and_keeps_what_is_held() {
    let a = || leaf(vec![text("a")]);
    let b = || leaf(vec![text("b"), text("a")]);
    let spaces = [
        union(vec![union(vec![union(vec![a(), b()]), a()]), a(), a()]),
        union(vec![a(), a()]),
        join(Fun::Lowercase, vec![union(vec![union(vec![a()]), leaf(vec![])])]),
        union(vec![open_goal(), union(vec![leaf(vec![]), b()])]),
    ];
    let probes = [text("a"), text("b"), text("c"), app(Fun::Lowercase, vec![text("a")])];
    for v in spaces.iter() {
        let once = flatten(v.clone());
        let twice = flatten(once.clone());
        assert_eq!(once, twice);
        for p in probes.iter() {
            assert_eq!(once.contains(p), v.contains(p));
        }
    }
}

#[test]
fn spaces_compare_and_copy() {
    let v = union(vec![leaf(vec![text("a")]), join(Fun::Lowercase, vec![open_goal()])]);
    assert_eq!(v.clone(), v);
    assert!(v.same(&v.clone()));
    assert_ne!(v, union(vec![leaf(vec![text("a")])]));
    assert_ne!(leaf(vec![text("a"), text("b")]), leaf(vec![text("b"), text("a")]));
    assert_ne!(open_goal(), VSA::Unlearned { start: Lit::Input, goal: Lit::Input });
}

#[test]
fn well_formed_spaces() {
    assert!(VSA::empty().is_well_formed());
    assert!(leaf(vec![text("a"), text("b")]).is_well_formed());
    assert!(!leaf(vec![text("a"), text("b"), text("a")]).is_well_formed());
    assert!(open_goal().is_well_formed());
    assert!(join(Fun::Concat, vec![leaf(vec![]), open_goal()]).is_well_formed());
    assert!(!join(Fun::Concat, vec![leaf(vec![])]).is_well_formed());
    assert!(!join(Fun::Find, vec![leaf(vec![]), leaf(vec![])]).is_well_formed());
    assert!(join(Fun::Lowercase, vec![leaf(vec![])]).is_well_formed());
    let short = VSA::Join {
        op: Fun::Concat,
        children: vec![Rc::new(leaf(vec![])), Rc::new(leaf(vec![]))],
        children_goals: vec![Lit::Input],
    };
    assert!(!short.is_well_formed());
    assert!(union(vec![leaf(vec![]), union(vec![])]).is_well_formed());
    assert!(!union(vec![leaf(vec![]), leaf(vec![input(), input()])]).is_well_formed());
    assert_eq!(Fun::Concat.arity(), 2);
    assert_eq!(Fun::Find.arity(), 3);
    assert_eq!(Fun::FindEnd.arity(), 3);
    assert_eq!(Fun::Uppercase.arity(), 1);
    assert_eq!(Fun::Equal.arity(), 2);
}

#[test]
fn operations_keep_spaces_well_formed() {
    let a = union(vec![
        leaf(vec![text("a"), app(Fun::Lowercase, vec![input()])]),
        join(Fun::Lowercase, vec![leaf(vec![input(), text("x")])]),
    ]);
    let b = union(vec![
        join(Fun::Lowercase, vec![leaf(vec![text("x")])]),
        leaf(vec![app(Fun::Lowercase, vec![input()]), text("b"), text("a")]),
    ]);
    assert!(a.is_well_formed() && b.is_well_formed());
    assert!(a.intersect(&b).is_well_formed());
    assert!(unify(a.clone(), b.clone()).is_well_formed());
    assert!(unify(leaf(vec![text("a")]), leaf(vec![text("b"), text("a")])).is_well_formed());
    assert!(flatten(unify(a.clone(), b.clone())).is_well_formed());
    assert!(flatten(a.intersect(&b)).is_well_formed());
}
