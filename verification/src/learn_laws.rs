use vstd::prelude::*;
use crate::ast::AstV;
use crate::flat_laws::lemma_union_holds;
use crate::flat_laws::some_holds;
use crate::fun::Fun;
use crate::laws::lemma_unify_denotes_union;
use crate::learn::around;
use crate::learn::around_rules;
use crate::learn::cut_out;
use crate::learn::cut_rules;
use crate::learn::ground_rules;
use crate::learn::known;
use crate::learn::learned;
use crate::learn::split_at;
use crate::learn::split_rules;
use crate::learn::splits;
use crate::learn::string_rules;
use crate::learn::unified_all;
use crate::learn::unifiers;
use crate::lit::LitV;
use crate::pattern::matches_of;
use crate::text::byte_len;
use crate::vsa::holds;
use crate::vsa::VsaV;

verus! {

/// The union of spaces taken in one after the other holds a program exactly
/// where one of the spaces does.
pub proof fn lemma_unified_all_holds(parts: Seq<VsaV>, p: AstV)
    ensures
        holds(unified_all(parts), p) <==> some_holds(parts, p),
    decreases parts.len(),
{
    if parts.len() > 0 {
        let front = parts.drop_last();
        lemma_unified_all_holds(front, p);
        lemma_unify_denotes_union(unified_all(front), parts.last(), p);
        if some_holds(front, p) {
            let at = choose|k: int| 0 <= k < front.len() && holds(#[trigger] front[k], p);
            assert(holds(parts[at], p));
        }
        if holds(parts.last(), p) {
            assert(holds(parts[parts.len() - 1], p));
        }
        if some_holds(parts, p) {
            let at = choose|k: int| 0 <= k < parts.len() && holds(#[trigger] parts[k], p);
            if at < front.len() {
                assert(holds(front[at], p));
            }
        }
    }
}

/// Whether the second space holds every program that the first holds.
pub open spec fn holds_more(fewer: VsaV, more: VsaV) -> bool {
    forall|q: AstV| #[trigger] holds(fewer, q) ==> holds(more, q)
}

/// Whether each space of `more` holds what its partner in `fewer` holds.
pub open spec fn each_holds_more(fewer: Seq<VsaV>, more: Seq<VsaV>) -> bool {
    &&& fewer.len() == more.len()
    &&& forall|i: int| 0 <= i < fewer.len() ==> holds_more(#[trigger] fewer[i], more[i])
}

/// A join of two argument spaces that hold more holds more.
pub proof fn lemma_join2_holds_more(
    op: Fun,
    a1: VsaV,
    b1: VsaV,
    a2: VsaV,
    b2: VsaV,
    goals: Seq<LitV>,
)
    requires
        holds_more(a1, a2),
        holds_more(b1, b2),
    ensures
        holds_more(
            VsaV::Join { op, children: seq![a1, b1], children_goals: goals },
            VsaV::Join { op, children: seq![a2, b2], children_goals: goals },
        ),
{
    let small = VsaV::Join { op, children: seq![a1, b1], children_goals: goals };
    let large = VsaV::Join { op, children: seq![a2, b2], children_goals: goals };
    assert forall|q: AstV| #[trigger] holds(small, q) implies holds(large, q) by {
        let args = q->App_args;
        assert(holds(small->Join_children[0], args[0]));
        assert(holds(small->Join_children[1], args[1]));
        assert(holds(a1, args[0]));
        assert(holds(b1, args[1]));
        assert forall|i: int|
            #![trigger large->Join_children[i]]
            0 <= i < large->Join_children.len() implies holds(large->Join_children[i], args[i]) by {
            if i == 0 {
                assert(holds(a2, args[0]));
            } else {
                assert(holds(b2, args[1]));
            }
        }
    }
}

/// A union whose members hold more holds more.
pub proof fn lemma_union_holds_more(fewer: Seq<VsaV>, more: Seq<VsaV>, p: AstV)
    requires
        each_holds_more(fewer, more),
        some_holds(fewer, p),
    ensures
        some_holds(more, p),
{
    let at = choose|k: int| 0 <= k < fewer.len() && holds(#[trigger] fewer[k], p);
    assert(holds_more(fewer[at], more[at]));
    assert(holds(more[at], p));
}

/// Depth monotonicity, one level: what is learned to a depth is also learned
/// one level deeper.
pub proof fn lemma_learned_deeper(
    inp: LitV,
    out: LitV,
    cache: Seq<(LitV, VsaV)>,
    bank: Seq<Seq<AstV>>,
    depth: nat,
    p: AstV,
)
    requires
        holds(learned(inp, out, cache, bank, depth), p),
    ensures
        holds(learned(inp, out, cache, bank, depth + 1), p),
    decreases depth, 5nat, 0nat,
{
    if depth > 0 {
        let fewer = unifiers(inp, out, cache, bank, depth);
        let more = unifiers(inp, out, cache, bank, depth + 1);
        lemma_unified_all_holds(fewer, p);
        lemma_unified_all_holds(more, p);
        lemma_unifiers_deeper(inp, out, cache, bank, depth);
        lemma_union_holds_more(fewer, more, p);
    }
}

/// What is learned one level deeper holds more.
pub proof fn lemma_learned_holds_more(
    inp: LitV,
    out: LitV,
    cache: Seq<(LitV, VsaV)>,
    bank: Seq<Seq<AstV>>,
    depth: nat,
)
    ensures
        holds_more(
            learned(inp, out, cache, bank, depth),
            learned(inp, out, cache, bank, depth + 1),
        ),
    decreases depth, 6nat, 0nat,
{
    assert forall|q: AstV| #[trigger]
        holds(learned(inp, out, cache, bank, depth), q) implies holds(
        learned(inp, out, cache, bank, depth + 1),
        q,
    ) by {
        lemma_learned_deeper(inp, out, cache, bank, depth, q);
    }
}

/// The spaces that are united one level deeper hold what those of the level
/// hold, one by one.
pub proof fn lemma_unifiers_deeper(
    inp: LitV,
    out: LitV,
    cache: Seq<(LitV, VsaV)>,
    bank: Seq<Seq<AstV>>,
    depth: nat,
)
    requires
        depth > 0,
    ensures
        each_holds_more(
            unifiers(inp, out, cache, bank, depth),
            unifiers(inp, out, cache, bank, depth + 1),
        ),
    decreases depth, 4nat, 0nat,
{
    let head = known(cache, out) + ground_rules(inp, out, bank);
    let fewer = string_rules(inp, out, cache, bank, depth);
    let more = string_rules(inp, out, cache, bank, depth + 1);
    lemma_string_rules_deeper(inp, out, cache, bank, depth);
    let all_fewer = unifiers(inp, out, cache, bank, depth);
    let all_more = unifiers(inp, out, cache, bank, depth + 1);
    assert(all_fewer == head + fewer);
    assert(all_more == head + more);
    assert forall|i: int| 0 <= i < all_fewer.len() implies holds_more(
        #[trigger] all_fewer[i],
        all_more[i],
    ) by {
        if i >= head.len() {
            assert(all_fewer[i] == fewer[i - head.len()]);
            assert(all_more[i] == more[i - head.len()]);
            assert(holds_more(fewer[i - head.len()], more[i - head.len()]));
        }
    }
}

/// What the string rules give one level deeper holds what they give at the
/// level, one by one.
pub proof fn lemma_string_rules_deeper(
    inp: LitV,
    out: LitV,
    cache: Seq<(LitV, VsaV)>,
    bank: Seq<Seq<AstV>>,
    depth: nat,
)
    requires
        depth > 0,
    ensures
        each_holds_more(
            string_rules(inp, out, cache, bank, depth),
            string_rules(inp, out, cache, bank, depth + 1),
        ),
    decreases depth, 3nat, 0nat,
{
    let fewer = string_rules(inp, out, cache, bank, depth);
    let more = string_rules(inp, out, cache, bank, depth + 1);
    match (out, inp) {
        (LitV::StringConst(goal), LitV::StringConst(text)) => {
            let a1 = around_rules(inp, goal, text, cache, bank, depth);
            let a2 = around_rules(inp, goal, text, cache, bank, depth + 1);
            let c1 = cut_rules(inp, goal, text, cache, bank, depth);
            let c2 = cut_rules(inp, goal, text, cache, bank, depth + 1);
            let cuts_here = split_rules(inp, goal, text, cache, bank, depth);
            let cuts_deeper = split_rules(inp, goal, text, cache, bank, depth + 1);
            assert(a1.len() == a2.len());
            assert(c1.len() == c2.len());
            assert(cuts_here.len() == cuts_deeper.len());
            assert forall|i: int| 0 <= i < fewer.len() implies holds_more(
                #[trigger] fewer[i],
                more[i],
            ) by {
                if i < a1.len() {
                    let span = matches_of(text, goal)[i];
                    assert(fewer[i] == around(inp, goal, span, cache, bank, depth));
                    assert(more[i] == around(inp, goal, span, cache, bank, depth + 1));
                    lemma_around_deeper(inp, goal, span, cache, bank, depth);
                } else if i < a1.len() + c1.len() {
                    assert(fewer[i] == cut_out(inp, goal, text, cache, bank, depth));
                    assert(more[i] == cut_out(inp, goal, text, cache, bank, depth + 1));
                    lemma_cut_out_deeper(inp, goal, text, cache, bank, depth);
                } else {
                    let upto = byte_len(goal) - 1;
                    let f = splits(inp, goal, cache, bank, depth, upto);
                    let m = splits(inp, goal, cache, bank, depth + 1, upto);
                    assert(fewer[i] == VsaV::Union(f));
                    assert(more[i] == VsaV::Union(m));
                    lemma_splits_deeper(inp, goal, cache, bank, depth, upto);
                    assert forall|q: AstV| #[trigger] holds(VsaV::Union(f), q) implies holds(
                        VsaV::Union(m),
                        q,
                    ) by {
                        lemma_union_holds(f, q);
                        lemma_union_holds(m, q);
                        lemma_union_holds_more(f, m, q);
                    }
                }
            }
        },
        _ => {},
    }
}

/// The rule around a match holds more one level deeper.
pub proof fn lemma_around_deeper(
    inp: LitV,
    goal: Seq<char>,
    span: (usize, usize),
    cache: Seq<(LitV, VsaV)>,
    bank: Seq<Seq<AstV>>,
    depth: nat,
)
    requires
        depth > 0,
    ensures
        holds_more(
            around(inp, goal, span, cache, bank, depth),
            around(inp, goal, span, cache, bank, depth + 1),
        ),
    decreases depth, 1nat, 0nat,
{
    let before = LitV::StringConst(crate::text::piece(goal, 0, span.0 as int));
    let after = LitV::StringConst(crate::text::piece(goal, span.1 as int, byte_len(goal) as int));
    let d = (depth - 1) as nat;
    lemma_learned_holds_more(inp, LitV::Input, cache, bank, d);
    lemma_learned_holds_more(inp, after, cache, bank, d);
    lemma_learned_holds_more(inp, before, cache, bank, d);
    let inner_goals = seq![LitV::Input, after];
    lemma_join2_holds_more(
        Fun::Concat,
        learned(inp, LitV::Input, cache, bank, d),
        learned(inp, after, cache, bank, d),
        learned(inp, LitV::Input, cache, bank, depth),
        learned(inp, after, cache, bank, depth),
        inner_goals,
    );
    let in_fewer = VsaV::Join {
        op: Fun::Concat,
        children: seq![
            learned(inp, LitV::Input, cache, bank, d),
            learned(inp, after, cache, bank, d),
        ],
        children_goals: inner_goals,
    };
    let in_more = VsaV::Join {
        op: Fun::Concat,
        children: seq![
            learned(inp, LitV::Input, cache, bank, depth),
            learned(inp, after, cache, bank, depth),
        ],
        children_goals: inner_goals,
    };
    lemma_join2_holds_more(
        Fun::Concat,
        learned(inp, before, cache, bank, d),
        in_fewer,
        learned(inp, before, cache, bank, depth),
        in_more,
        seq![before, after],
    );
}

/// The rule that cuts the goal out of the input holds more one level deeper.
pub proof fn lemma_cut_out_deeper(
    inp: LitV,
    goal: Seq<char>,
    text: Seq<char>,
    cache: Seq<(LitV, VsaV)>,
    bank: Seq<Seq<AstV>>,
    depth: nat,
)
    requires
        depth > 0,
    ensures
        holds_more(
            cut_out(inp, goal, text, cache, bank, depth),
            cut_out(inp, goal, text, cache, bank, depth + 1),
        ),
    decreases depth, 1nat, 0nat,
{
    let from = LitV::LocConst(crate::learn::offset_of(text, goal) as nat);
    let to = LitV::LocConst((crate::learn::offset_of(text, goal) + byte_len(goal)) as nat);
    let d = (depth - 1) as nat;
    lemma_learned_holds_more(inp, from, cache, bank, d);
    lemma_learned_holds_more(inp, to, cache, bank, d);
    lemma_join2_holds_more(
        Fun::Slice,
        learned(inp, from, cache, bank, d),
        learned(inp, to, cache, bank, d),
        learned(inp, from, cache, bank, depth),
        learned(inp, to, cache, bank, depth),
        seq![from, to],
    );
}

/// The rule that cuts the goal in two holds more one level deeper.
pub proof fn lemma_split_at_deeper(
    inp: LitV,
    goal: Seq<char>,
    at: int,
    cache: Seq<(LitV, VsaV)>,
    bank: Seq<Seq<AstV>>,
    depth: nat,
)
    requires
        depth > 0,
    ensures
        holds_more(
            split_at(inp, goal, at, cache, bank, depth),
            split_at(inp, goal, at, cache, bank, depth + 1),
        ),
    decreases depth, 1nat, 0nat,
{
    let first = LitV::StringConst(crate::text::piece(goal, 0, at));
    let second = LitV::StringConst(crate::text::piece(goal, at, byte_len(goal) as int));
    let d = (depth - 1) as nat;
    lemma_learned_holds_more(inp, first, cache, bank, d);
    lemma_learned_holds_more(inp, second, cache, bank, d);
    lemma_join2_holds_more(
        Fun::Concat,
        learned(inp, first, cache, bank, d),
        learned(inp, second, cache, bank, d),
        learned(inp, first, cache, bank, depth),
        learned(inp, second, cache, bank, depth),
        seq![first, second],
    );
}

/// The rules that cut the goal in two hold more one level deeper, one by one.
pub proof fn lemma_splits_deeper(
    inp: LitV,
    goal: Seq<char>,
    cache: Seq<(LitV, VsaV)>,
    bank: Seq<Seq<AstV>>,
    depth: nat,
    upto: int,
)
    requires
        depth > 0,
    ensures
        each_holds_more(
            splits(inp, goal, cache, bank, depth, upto),
            splits(inp, goal, cache, bank, depth + 1, upto),
        ),
    decreases depth, 2nat, upto,
{
    if upto > 0 {
        lemma_splits_deeper(inp, goal, cache, bank, depth, upto - 1);
        let fewer = splits(inp, goal, cache, bank, depth, upto);
        let more = splits(inp, goal, cache, bank, depth + 1, upto);
        let f = splits(inp, goal, cache, bank, depth, upto - 1);
        let m = splits(inp, goal, cache, bank, depth + 1, upto - 1);
        assert forall|i: int| 0 <= i < fewer.len() implies holds_more(
            #[trigger] fewer[i],
            more[i],
        ) by {
            if i < f.len() {
                assert(fewer[i] == f[i]);
                assert(more[i] == m[i]);
                assert(holds_more(f[i], m[i]));
            } else {
                assert(fewer[i] == split_at(inp, goal, upto, cache, bank, depth));
                assert(more[i] == split_at(inp, goal, upto, cache, bank, depth + 1));
                lemma_split_at_deeper(inp, goal, upto, cache, bank, depth);
            }
        }
    }
}

/// Depth monotonicity: a goal learned to a larger depth holds every program
/// that it holds when learned to a smaller depth.
pub proof fn lemma_learned_monotone(
    inp: LitV,
    out: LitV,
    cache: Seq<(LitV, VsaV)>,
    bank: Seq<Seq<AstV>>,
    smaller: nat,
    larger: nat,
    p: AstV,
)
    requires
        smaller <= larger,
        holds(learned(inp, out, cache, bank, smaller), p),
    ensures
        holds(learned(inp, out, cache, bank, larger), p),
    decreases larger - smaller,
{
    if smaller < larger {
        lemma_learned_monotone(inp, out, cache, bank, smaller, (larger - 1) as nat, p);
        lemma_learned_deeper(inp, out, cache, bank, (larger - 1) as nat, p);
    }
}

} // verus!
