use std::rc::Rc;
use vstd::prelude::*;
use crate::ast::ast_views;
use crate::ast::AstV;
use crate::ast::AST;
use crate::bank::Bank;
use crate::cache::place_of;
use crate::cache::GoalCache;
use crate::enumerate::of_category;
use crate::enumerate::only;
use crate::enumerate::pairs;
use crate::enumerate::push_pairs;
use crate::enumerate::Category;
use crate::fun::length;
use crate::fun::Fun;
use crate::lit::lit_views;
use crate::lit::Lit;
use crate::lit::LitV;
use crate::pattern::matches_of;
use crate::pattern::spans;
use crate::pattern::RegexCache;
use crate::text::byte_len;
use crate::text::bytes_of;
use crate::text::cuts_cleanly;
use crate::text::find_str;
use crate::text::first_occurrence;
use crate::text::occurs_in;
use crate::text::piece;
use crate::text::substring;
use crate::vsa::leaf_views;
use crate::vsa::lemma_join_view;
use crate::vsa::lemma_union_view;
use crate::vsa::lists;
use crate::vsa::unified;
use crate::vsa::vsa_views;
use crate::vsa::VsaV;
use crate::vsa::VSA;

verus! {

/// The union of the spaces, taken in one after the other, starting from the
/// empty space.
pub open spec fn unified_all(parts: Seq<VsaV>) -> VsaV
    decreases parts.len(),
{
    if parts.len() == 0 {
        VsaV::Leaf(Seq::empty())
    } else {
        unified(unified_all(parts.drop_last()), parts.last())
    }
}

/// The space that the cache holds for the goal, where it holds one.
pub open spec fn known(cache: Seq<(LitV, VsaV)>, goal: LitV) -> Seq<VsaV> {
    let at = place_of(cache, goal);
    if at < cache.len() {
        seq![cache[at].1]
    } else {
        Seq::empty()
    }
}

/// The items without those that came before in the sequence.
pub open spec fn without_repeats<A>(programs: Seq<A>) -> Seq<A>
    decreases programs.len(),
{
    if programs.len() == 0 {
        Seq::empty()
    } else {
        let front = without_repeats(programs.drop_last());
        if front.contains(programs.last()) {
            front
        } else {
            front.push(programs.last())
        }
    }
}

/// The programs of all buckets, those of the smaller sizes first.
pub open spec fn all_of(buckets: Seq<Seq<AstV>>) -> Seq<AstV>
    decreases buckets.len(),
{
    if buckets.len() == 0 {
        Seq::empty()
    } else {
        all_of(buckets.drop_last()) + buckets.last()
    }
}

/// The comparisons of two locations of the bank, each once.
pub open spec fn comparisons(bank: Seq<Seq<AstV>>) -> Seq<AstV> {
    let locations = all_of(only(bank, of_category(Category::Location)));
    without_repeats(pairs(Fun::Equal, locations, locations))
}

/// The space of the one literal.
pub open spec fn literal(l: LitV) -> VsaV {
    VsaV::Leaf(seq![AstV::Lit(l)])
}

/// What the goal gives by itself: a constant goal is a program; a location that
/// is the length of the input is its end; a truth value may be any comparison of
/// two locations of the bank.
pub open spec fn ground_rules(inp: LitV, out: LitV, bank: Seq<Seq<AstV>>) -> Seq<VsaV> {
    match out {
        LitV::StringConst(_) => seq![literal(out)],
        LitV::BoolConst(_) => seq![literal(out), VsaV::Leaf(comparisons(bank))],
        LitV::LocConst(n) => match inp {
            LitV::StringConst(text) => if byte_len(text) == n {
                seq![literal(out), literal(LitV::LocEnd)]
            } else {
                seq![literal(out)]
            },
            _ => seq![literal(out)],
        },
        _ => Seq::empty(),
    }
}

/// The first byte offset at which `needle` stands in `hay`.
pub open spec fn offset_of(hay: Seq<char>, needle: Seq<char>) -> int {
    choose|at: int| first_occurrence(hay, needle, at)
}

/// The space learned for a goal on an input, to the given depth: the union of
/// what the cache holds for the goal and of what each rule gives. At depth 0
/// the goal is left open.
pub open spec fn learned(
    inp: LitV,
    out: LitV,
    cache: Seq<(LitV, VsaV)>,
    bank: Seq<Seq<AstV>>,
    depth: nat,
) -> VsaV
    decreases depth, 6nat, 0nat,
{
    if depth == 0 {
        VsaV::Unlearned { start: inp, goal: out }
    } else {
        unified_all(unifiers(inp, out, cache, bank, depth))
    }
}

/// The spaces that are united for a goal: what the cache holds for it, what the
/// goal gives by itself, and for a string goal on a string input what the three
/// string rules give.
pub open spec fn unifiers(
    inp: LitV,
    out: LitV,
    cache: Seq<(LitV, VsaV)>,
    bank: Seq<Seq<AstV>>,
    depth: nat,
) -> Seq<VsaV>
    decreases depth, 5nat, 0nat,
{
    known(cache, out) + ground_rules(inp, out, bank) + string_rules(inp, out, cache, bank, depth)
}

/// What the three string rules give for a string goal on a string input.
pub open spec fn string_rules(
    inp: LitV,
    out: LitV,
    cache: Seq<(LitV, VsaV)>,
    bank: Seq<Seq<AstV>>,
    depth: nat,
) -> Seq<VsaV>
    decreases depth, 4nat, 0nat,
{
    match (out, inp) {
        (LitV::StringConst(goal), LitV::StringConst(text)) => around_rules(
            inp,
            goal,
            text,
            cache,
            bank,
            depth,
        ) + cut_rules(inp, goal, text, cache, bank, depth) + split_rules(
            inp,
            goal,
            text,
            cache,
            bank,
            depth,
        ),
        _ => Seq::empty(),
    }
}

/// Where the input stands in the goal: one rule for each match in the goal of
/// the input taken as a pattern.
pub open spec fn around_rules(
    inp: LitV,
    goal: Seq<char>,
    text: Seq<char>,
    cache: Seq<(LitV, VsaV)>,
    bank: Seq<Seq<AstV>>,
    depth: nat,
) -> Seq<VsaV>
    decreases depth, 3nat, 0nat,
{
    if occurs_in(goal, text) {
        Seq::new(
            matches_of(text, goal).len(),
            |k: int| around(inp, goal, matches_of(text, goal)[k], cache, bank, depth),
        )
    } else {
        Seq::empty()
    }
}

/// Where the goal stands in the input: the rule that cuts it out.
pub open spec fn cut_rules(
    inp: LitV,
    goal: Seq<char>,
    text: Seq<char>,
    cache: Seq<(LitV, VsaV)>,
    bank: Seq<Seq<AstV>>,
    depth: nat,
) -> Seq<VsaV>
    decreases depth, 3nat, 0nat,
{
    if occurs_in(text, goal) {
        seq![cut_out(inp, goal, text, cache, bank, depth)]
    } else {
        Seq::empty()
    }
}

/// Where neither stands in the other: the union of the rules that cut the goal
/// in two.
pub open spec fn split_rules(
    inp: LitV,
    goal: Seq<char>,
    text: Seq<char>,
    cache: Seq<(LitV, VsaV)>,
    bank: Seq<Seq<AstV>>,
    depth: nat,
) -> Seq<VsaV>
    decreases depth, 3nat, 0nat,
{
    if !occurs_in(text, goal) && !occurs_in(goal, text) {
        seq![VsaV::Union(splits(inp, goal, cache, bank, depth, byte_len(goal) - 1))]
    } else {
        Seq::empty()
    }
}

/// The rule for a goal that holds a match of the input taken as a pattern: what
/// stands before the match, then the input, then what stands after it.
pub open spec fn around(
    inp: LitV,
    goal: Seq<char>,
    span: (usize, usize),
    cache: Seq<(LitV, VsaV)>,
    bank: Seq<Seq<AstV>>,
    depth: nat,
) -> VsaV
    decreases depth, 1nat, 0nat,
{
    if depth == 0 {
        VsaV::Leaf(Seq::empty())
    } else {
        let before = LitV::StringConst(piece(goal, 0, span.0 as int));
        let after = LitV::StringConst(piece(goal, span.1 as int, byte_len(goal) as int));
        VsaV::Join {
            op: Fun::Concat,
            children: seq![
                learned(inp, before, cache, bank, (depth - 1) as nat),
                VsaV::Join {
                    op: Fun::Concat,
                    children: seq![
                        learned(inp, LitV::Input, cache, bank, (depth - 1) as nat),
                        learned(inp, after, cache, bank, (depth - 1) as nat),
                    ],
                    children_goals: seq![LitV::Input, after],
                },
            ],
            children_goals: seq![before, after],
        }
    }
}

/// The rule for a goal that stands in the input: the slice from where it first
/// stands to where it ends there.
pub open spec fn cut_out(
    inp: LitV,
    goal: Seq<char>,
    text: Seq<char>,
    cache: Seq<(LitV, VsaV)>,
    bank: Seq<Seq<AstV>>,
    depth: nat,
) -> VsaV
    decreases depth, 1nat, 0nat,
{
    if depth == 0 {
        VsaV::Leaf(Seq::empty())
    } else {
        let from = LitV::LocConst(offset_of(text, goal) as nat);
        let to = LitV::LocConst((offset_of(text, goal) + byte_len(goal)) as nat);
        VsaV::Join {
            op: Fun::Slice,
            children: seq![
                learned(inp, from, cache, bank, (depth - 1) as nat),
                learned(inp, to, cache, bank, (depth - 1) as nat),
            ],
            children_goals: seq![from, to],
        }
    }
}

/// The rule for a goal cut in two at a byte offset: the first part, then the
/// second.
pub open spec fn split_at(
    inp: LitV,
    goal: Seq<char>,
    at: int,
    cache: Seq<(LitV, VsaV)>,
    bank: Seq<Seq<AstV>>,
    depth: nat,
) -> VsaV
    decreases depth, 1nat, 0nat,
{
    if depth == 0 {
        VsaV::Leaf(Seq::empty())
    } else {
        let first = LitV::StringConst(piece(goal, 0, at));
        let second = LitV::StringConst(piece(goal, at, byte_len(goal) as int));
        VsaV::Join {
            op: Fun::Concat,
            children: seq![
                learned(inp, first, cache, bank, (depth - 1) as nat),
                learned(inp, second, cache, bank, (depth - 1) as nat),
            ],
            children_goals: seq![first, second],
        }
    }
}

/// Whether the goal can be cut in two strings at the byte offset.
pub open spec fn cuts_at(goal: Seq<char>, at: int) -> bool {
    cuts_cleanly(goal, 0, at) && cuts_cleanly(goal, at, byte_len(goal) as int)
}

/// The rules for a goal cut in two, for the byte offsets from 1 to `upto` at
/// which it can be cut.
pub open spec fn splits(
    inp: LitV,
    goal: Seq<char>,
    cache: Seq<(LitV, VsaV)>,
    bank: Seq<Seq<AstV>>,
    depth: nat,
    upto: int,
) -> Seq<VsaV>
    decreases depth, 2nat, upto,
{
    if upto <= 0 || depth == 0 {
        Seq::empty()
    } else {
        splits(inp, goal, cache, bank, depth, upto - 1) + if cuts_at(goal, upto) {
            seq![split_at(inp, goal, upto, cache, bank, depth)]
        } else {
            Seq::empty()
        }
    }
}

/// There is one first place at which a string stands in another.
pub proof fn lemma_offset_of(hay: Seq<char>, needle: Seq<char>, at: int)
    requires
        first_occurrence(hay, needle, at),
    ensures
        offset_of(hay, needle) == at,
        occurs_in(hay, needle),
{
    let chosen = offset_of(hay, needle);
    assert(first_occurrence(hay, needle, chosen));
    assert(crate::text::occurs_at(bytes_of(hay), bytes_of(needle), at));
}

/// Copies of the programs of all buckets of a category, those of the smaller
/// sizes first.
pub fn all_of_kind(bank: &Bank, category: Category) -> (out: Vec<AST>)
    ensures
        ast_views(out@) == all_of(only(bank@, of_category(category))),
{
    let sorted = crate::enumerate::of_kind(bank, category);
    let ghost buckets = crate::bank::bucket_views(sorted@);
    let mut out: Vec<AST> = Vec::new();
    let mut k: usize = 0;
    proof {
        assert(buckets.take(0) =~= Seq::empty());
        assert(ast_views(out@) =~= all_of(buckets.take(0)));
    }
    while k < sorted.len()
        invariant
            k <= sorted.len(),
            buckets == crate::bank::bucket_views(sorted@),
            ast_views(out@) == all_of(buckets.take(k as int)),
        decreases sorted.len() - k,
    {
        let source = &sorted[k];
        let ghost before = ast_views(out@);
        let mut i: usize = 0;
        proof {
            assert(ast_views(out@) =~= before + ast_views(source@).take(0));
        }
        while i < source.len()
            invariant
                i <= source.len(),
                ast_views(out@) == before + ast_views(source@).take(i as int),
            decreases source.len() - i,
        {
            let ghost mid = out@;
            out.push(source[i].clone());
            proof {
                assert(ast_views(out@) =~= ast_views(mid).push(source@[i as int]@));
                assert(ast_views(source@).take(i + 1) =~= ast_views(source@).take(i as int).push(
                    source@[i as int]@,
                ));
                assert(ast_views(out@) =~= before + ast_views(source@).take(i + 1));
            }
            i += 1;
        }
        proof {
            assert(ast_views(source@).take(i as int) =~= ast_views(source@));
            assert(buckets.take(k + 1).drop_last() =~= buckets.take(k as int));
            assert(buckets.take(k + 1).last() == ast_views(source@));
        }
        k += 1;
    }
    proof {
        assert(buckets.take(k as int) =~= buckets);
    }
    out
}

/// The comparisons of two locations of the bank, each once.
pub fn comparisons_of(bank: &Bank) -> (out: Vec<Rc<AST>>)
    ensures
        leaf_views(out@) == comparisons(bank@),
{
    let locations = all_of_kind(bank, Category::Location);
    let mut all: Vec<AST> = Vec::new();
    proof {
        assert(ast_views(all@) =~= Seq::empty());
    }
    push_pairs(&mut all, Fun::Equal, &locations, &locations);
    let ghost wanted = ast_views(all@);
    proof {
        assert(wanted =~= pairs(Fun::Equal, ast_views(locations@), ast_views(locations@)));
    }
    let mut out: Vec<Rc<AST>> = Vec::new();
    let mut i: usize = 0;
    proof {
        assert(wanted.take(0) =~= Seq::empty());
        assert(leaf_views(out@) =~= Seq::empty());
    }
    while i < all.len()
        invariant
            i <= all.len(),
            wanted == ast_views(all@),
            leaf_views(out@) == without_repeats(wanted.take(i as int)),
        decreases all.len() - i,
    {
        proof {
            assert(wanted.take(i + 1).drop_last() =~= wanted.take(i as int));
            assert(wanted.take(i + 1).last() == all@[i as int]@);
        }
        if !lists(&out, &all[i]) {
            let ghost mid = out@;
            out.push(Rc::new(all[i].clone()));
            proof {
                assert(leaf_views(out@) =~= leaf_views(mid).push(all@[i as int]@));
            }
        }
        i += 1;
    }
    proof {
        assert(wanted.take(i as int) =~= wanted);
    }
    out
}

/// The space of the one literal.
pub fn literal_space(l: Lit) -> (out: Rc<VSA>)
    ensures
        out@ == literal(l@),
{
    Rc::new(VSA::singleton(AST::Lit(l)))
}

/// The join of two argument spaces with their goals.
pub fn join2(op: Fun, first: Rc<VSA>, second: Rc<VSA>, first_goal: Lit, second_goal: Lit) -> (out:
    VSA)
    ensures
        out@ == (VsaV::Join {
            op,
            children: seq![first@, second@],
            children_goals: seq![first_goal@, second_goal@],
        }),
{
    let mut children: Vec<Rc<VSA>> = Vec::new();
    children.push(first);
    children.push(second);
    let mut children_goals: Vec<Lit> = Vec::new();
    children_goals.push(first_goal);
    children_goals.push(second_goal);
    proof {
        lemma_join_view(op, children, children_goals);
        assert(vsa_views(children@) =~= seq![first@, second@]);
        assert(lit_views(children_goals@) =~= seq![first_goal@, second_goal@]);
    }
    VSA::Join { op, children, children_goals }
}

/// The space for a goal that holds a match of the input taken as a pattern.
fn learn_around(
    inp: &Lit,
    goal: &String,
    span: (usize, usize),
    cache: &GoalCache,
    bank: &Bank,
    depth: usize,
    regexes: &mut RegexCache,
) -> (out: VSA)
    requires
        depth > 0,
        cache.wf(),
        old(regexes).wf(),
        cuts_cleanly(goal@, span.0 as int, span.1 as int),
    ensures
        final(regexes).wf(),
        final(regexes).limit() == old(regexes).limit(),
        out@ == around(inp@, goal@, span, cache.entries(), bank@, depth as nat),
    decreases depth, 1nat,
{
    proof {
        vstd::utf8::encode_utf8_valid_utf8(goal@);
        vstd::utf8::is_char_boundary_start_end_of_seq(bytes_of(goal@));
    }
    let end = length(goal.as_str());
    let before = Lit::StringConst(substring(goal.as_str(), 0, span.0).unwrap());
    let after = Lit::StringConst(substring(goal.as_str(), span.1, end).unwrap());
    let first = learn_to_depth(inp, &before, cache, bank, depth - 1, regexes);
    let last = learn_to_depth(inp, &after, cache, bank, depth - 1, regexes);
    let middle = learn_to_depth(inp, &Lit::Input, cache, bank, depth - 1, regexes);
    let inner = join2(Fun::Concat, middle, last, Lit::Input, after.clone());
    join2(Fun::Concat, first, Rc::new(inner), before, after)
}

/// The space for a goal that stands in the input from the byte offset `from`.
fn learn_cut_out(
    inp: &Lit,
    goal: &String,
    text: &String,
    from: usize,
    cache: &GoalCache,
    bank: &Bank,
    depth: usize,
    regexes: &mut RegexCache,
) -> (out: VSA)
    requires
        depth > 0,
        cache.wf(),
        old(regexes).wf(),
        first_occurrence(text@, goal@, from as int),
    ensures
        final(regexes).wf(),
        final(regexes).limit() == old(regexes).limit(),
        out@ == cut_out(inp@, goal@, text@, cache.entries(), bank@, depth as nat),
    decreases depth, 1nat,
{
    proof {
        lemma_offset_of(text@, goal@, from as int);
    }
    let whole = length(text.as_str());
    let to = from + length(goal.as_str());
    let first = learn_to_depth(inp, &Lit::LocConst(from), cache, bank, depth - 1, regexes);
    let second = learn_to_depth(inp, &Lit::LocConst(to), cache, bank, depth - 1, regexes);
    join2(Fun::Slice, first, second, Lit::LocConst(from), Lit::LocConst(to))
}

/// The space for a goal cut in two at the byte offset.
fn learn_split(
    inp: &Lit,
    goal: &String,
    at: usize,
    first: String,
    second: String,
    cache: &GoalCache,
    bank: &Bank,
    depth: usize,
    regexes: &mut RegexCache,
) -> (out: VSA)
    requires
        depth > 0,
        cache.wf(),
        old(regexes).wf(),
        first@ == piece(goal@, 0, at as int),
        second@ == piece(goal@, at as int, byte_len(goal@) as int),
    ensures
        final(regexes).wf(),
        final(regexes).limit() == old(regexes).limit(),
        out@ == split_at(inp@, goal@, at as int, cache.entries(), bank@, depth as nat),
    decreases depth, 1nat,
{
    let first_goal = Lit::StringConst(first);
    let second_goal = Lit::StringConst(second);
    let one = learn_to_depth(inp, &first_goal, cache, bank, depth - 1, regexes);
    let two = learn_to_depth(inp, &second_goal, cache, bank, depth - 1, regexes);
    join2(Fun::Concat, one, two, first_goal, second_goal)
}

/// The rules for a goal cut in two, at each byte offset inside it at which it
/// can be cut.
fn learn_splits(
    inp: &Lit,
    goal: &String,
    cache: &GoalCache,
    bank: &Bank,
    depth: usize,
    regexes: &mut RegexCache,
) -> (out: VSA)
    requires
        depth > 0,
        cache.wf(),
        old(regexes).wf(),
    ensures
        final(regexes).wf(),
        final(regexes).limit() == old(regexes).limit(),
        out@ == VsaV::Union(
            splits(inp@, goal@, cache.entries(), bank@, depth as nat, byte_len(goal@) - 1),
        ),
    decreases depth, 2nat,
{
    let end = length(goal.as_str());
    let mut members: Vec<Rc<VSA>> = Vec::new();
    let mut at: usize = 1;
    proof {
        assert(vsa_views(members@) =~= splits(
            inp@,
            goal@,
            cache.entries(),
            bank@,
            depth as nat,
            0,
        ));
    }
    while at < end
        invariant
            1 <= at,
            at <= end || (end == 0 && at == 1),
            end as nat == byte_len(goal@),
            depth > 0,
            cache.wf(),
            regexes.wf(),
            regexes.limit() == old(regexes).limit(),
            vsa_views(members@) == splits(
                inp@,
                goal@,
                cache.entries(),
                bank@,
                depth as nat,
                at - 1,
            ),
        decreases end - at,
    {
        match substring(goal.as_str(), 0, at) {
            Some(first) => {
                match substring(goal.as_str(), at, end) {
                    Some(second) => {
                        let ghost mid = members@;
                        let part = learn_split(
                            inp,
                            goal,
                            at,
                            first,
                            second,
                            cache,
                            bank,
                            depth,
                            regexes,
                        );
                        members.push(Rc::new(part));
                        proof {
                            assert(vsa_views(members@) =~= vsa_views(mid).push(part@));
                        }
                    },
                    None => {},
                }
            },
            None => {},
        }
        proof {
            assert(vsa_views(members@) =~= splits(
                inp@,
                goal@,
                cache.entries(),
                bank@,
                depth as nat,
                at as int,
            ));
        }
        at += 1;
    }
    proof {
        lemma_union_view(members);
        if end == 0 {
            assert(splits(inp@, goal@, cache.entries(), bank@, depth as nat, -1) =~= splits(
                inp@,
                goal@,
                cache.entries(),
                bank@,
                depth as nat,
                0,
            ));
        }
    }
    VSA::Union(members)
}

/// The union so far with one more space taken in.
fn take_in(acc: Rc<VSA>, part: Rc<VSA>, Ghost(done): Ghost<Seq<VsaV>>) -> (out: Rc<VSA>)
    requires
        acc@ == unified_all(done),
    ensures
        out@ == unified_all(done.push(part@)),
{
    proof {
        assert(done.push(part@).drop_last() =~= done);
    }
    Rc::new(VSA::unify(acc, part))
}

/// The union so far with what the goal gives by itself taken in.
fn take_in_ground(acc: Rc<VSA>, inp: &Lit, out: &Lit, bank: &Bank, Ghost(done): Ghost<Seq<VsaV>>) -> (res:
    Rc<VSA>)
    requires
        acc@ == unified_all(done),
    ensures
        res@ == unified_all(done + ground_rules(inp@, out@, bank@)),
{
    match out {
        Lit::StringConst(_) => {
            let part = literal_space(out.clone());
            proof {
                assert(done.push(part@) =~= done + ground_rules(inp@, out@, bank@));
            }
            take_in(acc, part, Ghost(done))
        },
        Lit::BoolConst(_) => {
            let part = literal_space(out.clone());
            let all = Rc::new(VSA::Leaf(comparisons_of(bank)));
            proof {
                assert(done.push(part@).push(all@) =~= done + ground_rules(inp@, out@, bank@));
            }
            let acc = take_in(acc, part, Ghost(done));
            take_in(acc, all, Ghost(done.push(part@)))
        },
        Lit::LocConst(n) => {
            let part = literal_space(out.clone());
            let at_end = match inp {
                Lit::StringConst(text) => length(text.as_str()) == *n,
                _ => false,
            };
            if at_end {
                let end = literal_space(Lit::LocEnd);
                proof {
                    assert(done.push(part@).push(end@) =~= done + ground_rules(inp@, out@, bank@));
                }
                let acc = take_in(acc, part, Ghost(done));
                take_in(acc, end, Ghost(done.push(part@)))
            } else {
                proof {
                    assert(done.push(part@) =~= done + ground_rules(inp@, out@, bank@));
                }
                take_in(acc, part, Ghost(done))
            }
        },
        _ => {
            proof {
                assert(done =~= done + ground_rules(inp@, out@, bank@));
            }
            acc
        },
    }
}

/// The union so far with the rules for the matches of the input in the goal
/// taken in.
fn take_in_around(
    acc: Rc<VSA>,
    inp: &Lit,
    goal: &String,
    text: &String,
    cache: &GoalCache,
    bank: &Bank,
    depth: usize,
    regexes: &mut RegexCache,
    Ghost(done): Ghost<Seq<VsaV>>,
) -> (res: Rc<VSA>)
    requires
        depth > 0,
        cache.wf(),
        old(regexes).wf(),
        inp@ == LitV::StringConst(text@),
        occurs_in(goal@, text@),
        acc@ == unified_all(done),
    ensures
        final(regexes).wf(),
        final(regexes).limit() == old(regexes).limit(),
        res@ == unified_all(
            done + around_rules(inp@, goal@, text@, cache.entries(), bank@, depth as nat),
        ),
    decreases depth, 3nat,
{
    let ghost entries = cache.entries();
    let re = crate::pattern::regex(regexes, text);
    let found = spans(&re, goal.as_str());
    let ghost parts = around_rules(inp@, goal@, text@, entries, bank@, depth as nat);
    let mut acc = acc;
    let mut k: usize = 0;
    proof {
        assert(found@ == matches_of(text@, goal@));
        assert(done =~= done + parts.take(0));
    }
    while k < found.len()
        invariant
            k <= found.len(),
            found@ == matches_of(text@, goal@),
            depth > 0,
            cache.wf(),
            entries == cache.entries(),
            regexes.wf(),
            regexes.limit() == old(regexes).limit(),
            occurs_in(goal@, text@),
            parts == around_rules(inp@, goal@, text@, entries, bank@, depth as nat),
            forall|i: int|
                0 <= i < found@.len() ==> cuts_cleanly(
                    goal@,
                    (#[trigger] found@[i]).0 as int,
                    found@[i].1 as int,
                ),
            acc@ == unified_all(done + parts.take(k as int)),
        decreases found.len() - k,
    {
        let part = Rc::new(learn_around(inp, goal, found[k], cache, bank, depth, regexes));
        proof {
            assert(part@ == parts[k as int]);
            assert((done + parts.take(k as int)).push(part@) =~= done + parts.take(k + 1));
        }
        acc = take_in(acc, part, Ghost(done + parts.take(k as int)));
        k += 1;
    }
    proof {
        assert(parts.take(k as int) =~= parts);
    }
    acc
}

/// The union so far with what the three string rules give taken in.
fn take_in_strings(
    acc: Rc<VSA>,
    inp: &Lit,
    out: &Lit,
    cache: &GoalCache,
    bank: &Bank,
    depth: usize,
    regexes: &mut RegexCache,
    Ghost(done): Ghost<Seq<VsaV>>,
) -> (res: Rc<VSA>)
    requires
        depth > 0,
        cache.wf(),
        old(regexes).wf(),
        acc@ == unified_all(done),
    ensures
        final(regexes).wf(),
        final(regexes).limit() == old(regexes).limit(),
        res@ == unified_all(
            done + string_rules(inp@, out@, cache.entries(), bank@, depth as nat),
        ),
    decreases depth, 4nat,
{
    let ghost entries = cache.entries();
    match (out, inp) {
        (Lit::StringConst(goal), Lit::StringConst(text)) => {
            let in_goal = find_str(goal.as_str(), text.as_str());
            let in_text = find_str(text.as_str(), goal.as_str());
            proof {
                if in_goal is Some {
                    lemma_offset_of(goal@, text@, in_goal->0 as int);
                }
                if in_text is Some {
                    lemma_offset_of(text@, goal@, in_text->0 as int);
                }
            }
            let ghost one = around_rules(inp@, goal@, text@, entries, bank@, depth as nat);
            let ghost two = cut_rules(inp@, goal@, text@, entries, bank@, depth as nat);
            let ghost three = split_rules(inp@, goal@, text@, entries, bank@, depth as nat);
            let acc = if in_goal.is_some() {
                take_in_around(acc, inp, goal, text, cache, bank, depth, regexes, Ghost(done))
            } else {
                proof {
                    assert(done =~= done + one);
                }
                acc
            };
            let acc = match in_text {
                Some(from) => {
                    let part = Rc::new(
                        learn_cut_out(inp, goal, text, from, cache, bank, depth, regexes),
                    );
                    proof {
                        assert((done + one).push(part@) =~= done + one + two);
                    }
                    take_in(acc, part, Ghost(done + one))
                },
                None => {
                    proof {
                        assert(done + one =~= done + one + two);
                    }
                    acc
                },
            };
            let acc = if in_goal.is_none() && in_text.is_none() {
                let part = Rc::new(learn_splits(inp, goal, cache, bank, depth, regexes));
                proof {
                    assert((done + one + two).push(part@) =~= done + one + two + three);
                }
                take_in(acc, part, Ghost(done + one + two))
            } else {
                proof {
                    assert(done + one + two =~= done + one + two + three);
                }
                acc
            };
            proof {
                assert(done + one + two + three =~= done + (one + two + three));
            }
            acc
        },
        _ => {
            proof {
                assert(done =~= done + string_rules(inp@, out@, entries, bank@, depth as nat));
            }
            acc
        },
    }
}

/// The space of the programs that give the goal on the input, worked out to the
/// given depth: the union of what the cache holds for the goal and of what each
/// rule gives, the goals of the rules learned one level less deep. At depth 0
/// the goal is left open.
pub fn learn_to_depth(
    inp: &Lit,
    out: &Lit,
    cache: &GoalCache,
    bank: &Bank,
    depth: usize,
    regexes: &mut RegexCache,
) -> (res: Rc<VSA>)
    requires
        cache.wf(),
        old(regexes).wf(),
    ensures
        final(regexes).wf(),
        final(regexes).limit() == old(regexes).limit(),
        res@ == learned(inp@, out@, cache.entries(), bank@, depth as nat),
        crate::wf_laws::cache_well_formed(cache.entries()) ==> crate::vsa::well_formed(res@),
    decreases depth, 5nat,
{
    proof {
        if crate::wf_laws::cache_well_formed(cache.entries()) {
            crate::wf_laws::lemma_learned_well_formed(
                inp@,
                out@,
                cache.entries(),
                bank@,
                depth as nat,
            );
        }
    }
    if depth == 0 {
        return Rc::new(VSA::Unlearned { start: inp.clone(), goal: out.clone() });
    }
    let ghost entries = cache.entries();
    let empty: Rc<VSA> = Rc::new(VSA::empty());
    let ghost none: Seq<VsaV> = Seq::empty();
    let acc = match cache.get(out) {
        Some(space) => {
            proof {
                assert(none.push(space@) =~= known(entries, out@));
            }
            take_in(empty, space, Ghost(none))
        },
        None => {
            proof {
                assert(none =~= known(entries, out@));
            }
            empty
        },
    };
    let ghost first = known(entries, out@);
    let acc = take_in_ground(acc, inp, out, bank, Ghost(first));
    let ghost second = first + ground_rules(inp@, out@, bank@);
    take_in_strings(acc, inp, out, cache, bank, depth, regexes, Ghost(second))
}

/// The depth to which a goal is worked out where none is given: enough for
/// every part of a string goal.
pub open spec fn full_depth(out: LitV) -> nat {
    match out {
        LitV::StringConst(goal) => crate::lit::clipped(byte_len(goal) + 2) as nat,
        _ => 1,
    }
}

/// The space of the programs that give the goal on the input: as
/// `learn_to_depth` gives it, to a depth of two more than the goal has bytes.
pub fn learn(inp: &Lit, out: &Lit, cache: &GoalCache, bank: &Bank, regexes: &mut RegexCache) -> (res:
    Rc<VSA>)
    requires
        cache.wf(),
        old(regexes).wf(),
    ensures
        final(regexes).wf(),
        final(regexes).limit() == old(regexes).limit(),
        res@ == learned(inp@, out@, cache.entries(), bank@, full_depth(out@)),
        crate::wf_laws::cache_well_formed(cache.entries()) ==> crate::vsa::well_formed(res@),
{
    let depth = match out {
        Lit::StringConst(goal) => length(goal.as_str()).saturating_add(2),
        _ => 1,
    };
    learn_to_depth(inp, out, cache, bank, depth, regexes)
}

} // verus!
