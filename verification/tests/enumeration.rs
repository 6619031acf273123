use std::rc::Rc;
use vsa_synth::ast::AST;
use vsa_synth::bank::Bank;
use vsa_synth::bottom_up::bottom_up;
use vsa_synth::bottom_up::outputs;
use vsa_synth::cache::GoalCache;
use vsa_synth::cache::OutputCache;
use vsa_synth::enumerate::candidates_of;
use vsa_synth::enumerate::Category;
use vsa_synth::eval::Echo;
use vsa_synth::fun::Fun;
use vsa_synth::lit::Lit;
use vsa_synth::lit::Typ;
use vsa_synth::pattern::RegexCache;
use vsa_synth::vsa::VSA;

fn text(s: &str) -> Lit {
    Lit::StringConst(s.to_string())
}

fn lit(l: Lit) -> AST {
    AST::Lit(l)
}

fn loc(n: usize) -> AST {
    AST::Lit(Lit::LocConst(n))
}

fn end() -> AST {
    AST::Lit(Lit::LocEnd)
}

fn input() -> AST {
    AST::Lit(Lit::Input)
}

fn app(fun: Fun, args: Vec<AST>) -> AST {
    AST::App { fun, args }
}

fn leaf(programs: Vec<AST>) -> VSA {
    VSA::Leaf(programs.into_iter().map(Rc::new).collect())
}

fn small_banks() -> (Bank, Bank) {
    let mut bank = Bank::new();
    bank.grow_to(1);
    for p in [input(), loc(0), loc(1), end()] {
        bank.push(1, p);
    }
    let mut regex_bank = Bank::new();
    regex_bank.grow_to(1);
    regex_bank.push(1, lit(text("a")));
    (bank, regex_bank)
}

#[test]
fn bank_keeps_programs_by_size() {
    let mut bank = Bank::new();
    assert_eq!(bank.len(), 0);
    assert_eq!(bank.total_entries(), 0);
    bank.grow_to(3);
    assert_eq!(bank.len(), 3);
    bank.grow_to(2);
    assert_eq!(bank.len(), 3);
    bank.grow_to(3);
    assert_eq!(bank.len(), 3);
    bank.push(1, input());
    bank.push(3, app(Fun::Slice, vec![loc(0), loc(1)]));
    bank.push(1, loc(0));
    bank.size_mut(1).push(end());
    assert_eq!(*bank.size(1), vec![input(), loc(0), end()]);
    assert_eq!(*bank.size(2), Vec::<AST>::new());
    assert_eq!(*bank.size(3), vec![app(Fun::Slice, vec![loc(0), loc(1)])]);
    assert_eq!(bank.total_entries(), 4);
    bank.grow_to(5);
    assert_eq!(bank.len(), 5);
    assert_eq!(*bank.size(1), vec![input(), loc(0), end()]);
    assert_eq!(bank.total_entries(), 4);
}

#[test]
fn categories() {
    let find = app(Fun::Find, vec![input(), lit(text("a")), loc(0)]);
    let find_end = app(Fun::FindEnd, vec![input(), lit(text("a")), loc(0)]);
    let call = |typ: Typ| AST::ForeignCall { code: "c".to_string(), input: Box::new(input()), typ };
    assert!(input().is_string());
    assert!(lit(text("a")).is_string());
    assert!(app(Fun::Concat, vec![]).is_string());
    assert!(app(Fun::Slice, vec![]).is_string());
    assert!(call(Typ::Str).is_string());
    assert!(!call(Typ::Int).is_string());
    assert!(!call(Typ::Bool).is_string());
    assert!(!app(Fun::Lowercase, vec![input()]).is_string());
    assert!(!loc(0).is_string());
    assert!(loc(0).is_location());
    assert!(end().is_location());
    assert!(find.is_location());
    assert!(!find_end.is_location());
    assert!(app(Fun::LocAdd, vec![]).is_location());
    assert!(app(Fun::LocSub, vec![]).is_location());
    assert!(!input().is_location());
    assert!(!call(Typ::Int).is_location());
    assert!(lit(Lit::BoolConst(true)).is_boolean());
    assert!(app(Fun::Equal, vec![]).is_boolean());
    assert!(!loc(0).is_boolean());
    assert!(find.is_of(Category::Location));
    assert!(!find.is_of(Category::String));
    assert!(!find.is_of(Category::Boolean));
}

#[test]
fn candidates_of_size_three() {
    let (bank, regex_bank) = small_banks();
    let slices: Vec<AST> = [loc(0), loc(1), end()]
        .iter()
        .flat_map(|a| [loc(0), loc(1), end()].map(|b| app(Fun::Slice, vec![a.clone(), b])))
        .collect();
    let mut expected = vec![app(Fun::Concat, vec![lit(text("a")), lit(text("a"))])];
    expected.extend(slices.clone());
    expected.push(app(Fun::Concat, vec![input(), lit(text("+"))]));
    assert_eq!(candidates_of(&bank, &regex_bank, 3, false), expected);
    let with_bools = candidates_of(&bank, &regex_bank, 3, true);
    assert_eq!(with_bools.len(), expected.len() + 9);
    assert_eq!(with_bools[..expected.len()], expected[..]);
    assert_eq!(with_bools[expected.len()], app(Fun::Equal, vec![loc(0), loc(0)]));
    assert_eq!(with_bools[expected.len() + 8], app(Fun::Equal, vec![end(), end()]));
    assert_eq!(candidates_of(&bank, &regex_bank, 1, true), Vec::<AST>::new());
    assert_eq!(candidates_of(&bank, &regex_bank, 2, true), Vec::<AST>::new());
}

#[test]
fn candidates_of_size_four_are_searches() {
    let (bank, regex_bank) = small_banks();
    let found = candidates_of(&bank, &regex_bank, 4, false);
    let mut expected = Vec::new();
    for pattern in [input(), lit(text("a"))] {
        for index in [loc(0), loc(1), end()] {
            expected.push(app(Fun::Find, vec![input(), pattern.clone(), index.clone()]));
            expected.push(app(Fun::FindEnd, vec![input(), pattern.clone(), index.clone()]));
        }
    }
    assert_eq!(found, expected);
    for p in found.iter() {
        assert_eq!(p.size(), 4);
    }
}

#[test]
fn bottom_up_keeps_what_can_be_told_apart() {
    let (mut bank, mut regex_bank) = small_banks();
    let mut cache = OutputCache::new();
    let mut regexes = RegexCache::new(16);
    let inputs = vec![text("ab")];
    bottom_up(&inputs, 3, &mut cache, &mut bank, &mut regex_bank, false, &mut regexes, &Echo);
    let slice = |a: AST, b: AST| app(Fun::Slice, vec![a, b]);
    let kept = vec![
        app(Fun::Concat, vec![lit(text("a")), lit(text("a"))]),
        slice(loc(0), loc(0)),
        slice(loc(0), loc(1)),
        slice(loc(0), end()),
        slice(loc(1), end()),
        app(Fun::Concat, vec![input(), lit(text("+"))]),
    ];
    assert_eq!(bank.len(), 3);
    assert_eq!(regex_bank.len(), 3);
    assert_eq!(*bank.size(2), Vec::<AST>::new());
    assert_eq!(*bank.size(3), kept);
    assert_eq!(*bank.size(1), vec![input(), loc(0), loc(1), end()]);
    assert_eq!(*regex_bank.size(1), vec![lit(text("a"))]);
    assert_eq!(*regex_bank.size(3), Vec::<AST>::new());
    assert_eq!(cache.len(), 6);
    let keys: Vec<Vec<Lit>> = (0..cache.len()).map(|k| cache.outputs(k).clone()).collect();
    let expected_keys: Vec<Vec<Lit>> =
        ["aa", "", "a", "ab", "b", "ab+"].iter().map(|s| vec![text(s)]).collect();
    assert_eq!(keys, expected_keys);
    let empties = leaf(vec![
        slice(loc(0), loc(0)),
        slice(loc(1), loc(0)),
        slice(loc(1), loc(1)),
        slice(end(), loc(0)),
        slice(end(), loc(1)),
        slice(end(), end()),
    ]);
    assert_eq!(**cache.space(1), empties);
    assert_eq!(**cache.space(3), leaf(vec![slice(loc(0), end())]));
}

#[test]
fn bottom_up_drops_what_has_no_value() {
    let (mut bank, mut regex_bank) = small_banks();
    let mut cache = OutputCache::new();
    let mut regexes = RegexCache::new(16);
    let inputs = vec![Lit::LocConst(7)];
    bottom_up(&inputs, 4, &mut cache, &mut bank, &mut regex_bank, false, &mut regexes, &Echo);
    assert_eq!(*bank.size(4), Vec::<AST>::new());
    assert_eq!(cache.len(), 0);
    let program = app(Fun::Find, vec![input(), lit(text("a")), loc(0)]);
    assert_eq!(outputs(&program, &inputs, &mut regexes, &Echo), None);
    let texts = vec![text("ba"), text("xa")];
    assert_eq!(
        outputs(&program, &texts, &mut regexes, &Echo),
        Some(vec![Lit::LocConst(1), Lit::LocConst(1)])
    );
    assert_eq!(outputs(&program, &vec![text("ba"), Lit::LocEnd], &mut regexes, &Echo), None);
}

#[test]
fn bank_programs_of_a_round_differ_in_their_outputs() {
    let (mut bank, mut regex_bank) = small_banks();
    let mut cache = OutputCache::new();
    let mut regexes = RegexCache::new(16);
    let inputs = vec![text("ab"), text("b a")];
    for size in 1..=5 {
        bottom_up(&inputs, size, &mut cache, &mut bank, &mut regex_bank, true, &mut regexes, &Echo);
    }
    let mut seen: Vec<Vec<Lit>> = Vec::new();
    let mut found = 0;
    for size in 2..=5 {
        for p in bank.size(size).iter() {
            assert_eq!(p.size(), size);
            let outs = outputs(p, &inputs, &mut regexes, &Echo).unwrap();
            assert!(!seen.contains(&outs));
            let at = cache.place(&outs);
            assert!(at < cache.len());
            assert!(cache.space(at).contains(p));
            seen.push(outs);
            found += 1;
        }
    }
    assert_eq!(found, cache.len());
    assert!(found > 10);
    for candidate in candidates_of(&bank, &regex_bank, 5, true).iter() {
        if let Some(outs) = outputs(candidate, &inputs, &mut regexes, &Echo) {
            let at = cache.place(&outs);
            assert!(at < cache.len());
            assert!(cache.space(at).contains(candidate));
        }
    }
}

#[test]
fn output_cache_takes_programs_in() {
    let mut cache = OutputCache::new();
    assert_eq!(cache.len(), 0);
    assert!(cache.absorb(vec![text("a"), text("b")], loc(0)));
    assert!(cache.absorb(vec![text("a")], loc(1)));
    assert!(!cache.absorb(vec![text("a"), text("b")], loc(2)));
    assert!(!cache.absorb(vec![text("a"), text("b")], loc(0)));
    assert_eq!(cache.len(), 2);
    assert_eq!(cache.place(&vec![text("a"), text("b")]), 0);
    assert_eq!(cache.place(&vec![text("a")]), 1);
    assert_eq!(cache.place(&vec![text("b")]), 2);
    assert_eq!(**cache.space(0), leaf(vec![loc(0), loc(2)]));
    assert_eq!(*cache.outputs(1), vec![text("a")]);
    cache.insert(vec![text("a")], Rc::new(leaf(vec![end()])));
    cache.insert(vec![text("c")], Rc::new(leaf(vec![input()])));
    assert_eq!(cache.len(), 3);
    assert_eq!(**cache.space(1), leaf(vec![end()]));
    assert_eq!(**cache.space(2), leaf(vec![input()]));
}

#[test]
fn goal_cache_merges_spaces() {
    let mut cache = GoalCache::new();
    assert!(cache.get(&text("a")).is_none());
    cache.merge(text("a"), Rc::new(leaf(vec![loc(0)])));
    cache.merge(Lit::LocEnd, Rc::new(leaf(vec![end()])));
    cache.merge(text("a"), Rc::new(leaf(vec![loc(1), loc(0)])));
    assert_eq!(cache.len(), 2);
    assert_eq!(*cache.get(&text("a")).unwrap(), leaf(vec![loc(1), loc(0)]));
    assert_eq!(*cache.get(&Lit::LocEnd).unwrap(), leaf(vec![end()]));
    assert_eq!(cache.place(&Lit::LocEnd), 1);
    assert_eq!(*cache.goal(0), text("a"));
    cache.insert(text("a"), Rc::new(leaf(vec![])));
    assert_eq!(*cache.get(&text("a")).unwrap(), leaf(vec![]));
    assert_eq!(**cache.space(1), leaf(vec![end()]));
}
