use std::rc::Rc;
use vsa_synth::ast::AST;
use vsa_synth::eval::Echo;
use vsa_synth::fun::Fun;
use vsa_synth::lit::Lit;
use vsa_synth::pattern::RegexCache;
use vsa_synth::vsa::VSA;

fn text(s: &str) -> Lit {
    Lit::StringConst(s.to_string())
}

fn lit(l: Lit) -> AST {
    AST::Lit(l)
}

fn loc(n: usize) -> AST {
    AST::Lit(Lit::LocConst(n))
}

fn app(fun: Fun, args: Vec<AST>) -> AST {
    AST::App { fun, args }
}

fn leaf(programs: Vec<AST>) -> VSA {
    VSA::Leaf(programs.into_iter().map(Rc::new).collect())
}

fn join(op: Fun, children: Vec<VSA>) -> VSA {
    let children_goals: Vec<Lit> = children.iter().map(|_| Lit::Input).collect();
    VSA::Join { op, children: children.into_iter().map(Rc::new).collect(), children_goals }
}

#[test]
fn leaf_is_sorted_by_value() {
    let slice = |a: usize, b: usize| app(Fun::Slice, vec![loc(a), loc(b)]);
    let space = leaf(vec![
        slice(0, 1),
        lit(text("a")),
        slice(1, 2),
        app(Fun::Concat, vec![loc(1), loc(2)]),
    ]);
    let mut regexes = RegexCache::new(4);
    let sorted = VSA::cluster(Rc::new(space), &text("ab"), &mut regexes, &Echo);
    assert_eq!(sorted.len(), 2);
    assert_eq!(*sorted.get(&text("a")).unwrap(), leaf(vec![lit(text("a")), slice(0, 1)]));
    assert_eq!(*sorted.get(&text("b")).unwrap(), leaf(vec![slice(1, 2)]));
    assert!(sorted.get(&text("ab")).is_none());
}

#[test]
fn join_is_sorted_by_the_value_of_the_operator() {
    let first = leaf(vec![lit(text("x")), lit(Lit::Input), lit(text("z"))]);
    let second = leaf(vec![lit(text("y")), loc(3)]);
    let space = join(Fun::Concat, vec![first, second]);
    let mut regexes = RegexCache::new(4);
    let sorted = VSA::cluster(Rc::new(space.clone()), &text("x"), &mut regexes, &Echo);
    assert_eq!(sorted.len(), 2);
    let xy = sorted.get(&text("xy")).unwrap();
    let zy = sorted.get(&text("zy")).unwrap();
    let concat = |a: AST, b: AST| app(Fun::Concat, vec![a, b]);
    assert!(xy.contains(&concat(lit(text("x")), lit(text("y")))));
    assert!(xy.contains(&concat(lit(Lit::Input), lit(text("y")))));
    assert!(!xy.contains(&concat(lit(text("z")), lit(text("y")))));
    assert!(zy.contains(&concat(lit(text("z")), lit(text("y")))));
    assert!(!zy.contains(&concat(lit(text("x")), lit(text("y")))));
    assert!(!xy.contains(&concat(lit(text("x")), loc(3))));
    assert!(space.contains(&concat(lit(text("x")), loc(3))));
}

#[test]
fn union_and_open_goals() {
    let slice = |a: usize, b: usize| app(Fun::Slice, vec![loc(a), loc(b)]);
    let space = VSA::Union(vec![
        Rc::new(leaf(vec![slice(0, 1)])),
        Rc::new(VSA::Unlearned { start: text("ab"), goal: text("a") }),
        Rc::new(join(Fun::Lowercase, vec![leaf(vec![lit(text("A")), lit(text("B"))])])),
        Rc::new(leaf(vec![])),
    ]);
    let mut regexes = RegexCache::new(4);
    let sorted = VSA::cluster(Rc::new(space.clone()), &text("ab"), &mut regexes, &Echo);
    assert_eq!(sorted.len(), 2);
    let lower = |s: &str| app(Fun::Lowercase, vec![lit(text(s))]);
    let a = sorted.get(&text("a")).unwrap();
    let b = sorted.get(&text("b")).unwrap();
    assert!(a.contains(&slice(0, 1)));
    assert!(a.contains(&lower("A")));
    assert!(!a.contains(&lower("B")));
    assert!(b.contains(&lower("B")));
    for k in 0..sorted.len() {
        let picked = sorted.space(k).pick_one().unwrap();
        assert!(space.contains(&picked));
        assert_eq!(picked.eval(&text("ab"), &mut regexes, &Echo), *sorted.goal(k));
    }
    let open = Rc::new(VSA::Unlearned { start: text("ab"), goal: text("a") });
    assert_eq!(VSA::cluster(open, &text("ab"), &mut regexes, &Echo).len(), 0);
}
