use vstd::prelude::*;
use crate::ast::AstV;
use crate::flatten::collected;
use crate::flatten::deduped;
use crate::flatten::flattened;
use crate::flatten::lemma_flattened_join;
use crate::flatten::not_empty;
use crate::flatten::parts_of;
use crate::flat_laws::lemma_deduped_lists;
use crate::fun::arity;
use crate::fun::Fun;
use crate::laws::lemma_filter_lists;
use crate::learn::around;
use crate::learn::cut_out;
use crate::learn::ground_rules;
use crate::learn::known;
use crate::learn::learned;
use crate::learn::literal;
use crate::learn::split_at;
use crate::learn::splits;
use crate::learn::string_rules;
use crate::learn::unified_all;
use crate::learn::unifiers;
use crate::learn::without_repeats;
use crate::lit::LitV;
use crate::pattern::matches_of;
use crate::text::byte_len;
use crate::vsa::held_by;
use crate::vsa::intersected;
use crate::vsa::lemma_intersected_joins;
use crate::vsa::lemma_intersected_union_left;
use crate::vsa::lemma_intersected_union_right;
use crate::vsa::lemma_weight_child;
use crate::vsa::lemma_weight_member;
use crate::vsa::listed_union;
use crate::vsa::unified;
use crate::vsa::weight;
use crate::vsa::well_formed;
use crate::vsa::VsaV;

verus! {

/// Whether every space is built as it should be.
pub open spec fn all_well_formed(spaces: Seq<VsaV>) -> bool {
    forall|i: int| 0 <= i < spaces.len() ==> well_formed(#[trigger] spaces[i])
}

/// A union of spaces that are built as they should be is so too.
pub proof fn lemma_union_well_formed(spaces: Seq<VsaV>)
    requires
        all_well_formed(spaces),
    ensures
        well_formed(VsaV::Union(spaces)),
{
    let u = VsaV::Union(spaces);
    assert forall|i: int| #![trigger u->Union_0[i]] 0 <= i < u->Union_0.len() implies well_formed(
        u->Union_0[i],
    ) by {
        assert(well_formed(spaces[i]));
    }
}

/// The members of a union that is built as it should be are so too.
pub proof fn lemma_members_well_formed(spaces: Seq<VsaV>)
    requires
        well_formed(VsaV::Union(spaces)),
    ensures
        all_well_formed(spaces),
{
    let u = VsaV::Union(spaces);
    assert forall|i: int| 0 <= i < spaces.len() implies well_formed(#[trigger] spaces[i]) by {
        assert(well_formed(u->Union_0[i]));
    }
}

/// Keeping the items that pass a test keeps a sequence free of repeats.
pub proof fn lemma_filter_no_duplicates<A>(items: Seq<A>, test: spec_fn(A) -> bool)
    requires
        items.no_duplicates(),
    ensures
        items.filter(test).no_duplicates(),
    decreases items.len(),
{
    reveal(Seq::filter);
    if items.len() > 0 {
        let front = items.drop_last();
        assert(front.no_duplicates()) by {
            assert forall|i: int, j: int| 0 <= i < front.len() && 0 <= j < front.len() && i
                != j implies front[i] != front[j] by {
                assert(items[i] != items[j]);
            }
        }
        lemma_filter_no_duplicates(front, test);
        let kept = front.filter(test);
        if test(items.last()) {
            let all = kept.push(items.last());
            lemma_filter_lists(front, test, items.last());
            if front.contains(items.last()) {
                let at = choose|i: int| 0 <= i < front.len() && front[i] == items.last();
                assert(items[at] == items[items.len() - 1]);
            }
            assert forall|i: int, j: int| 0 <= i < all.len() && 0 <= j < all.len() && i
                != j implies all[i] != all[j] by {
                if i < kept.len() && j < kept.len() {
                    assert(kept[i] != kept[j]);
                } else if i < kept.len() {
                    assert(kept.contains(kept[i]));
                } else {
                    assert(kept.contains(kept[j]));
                }
            }
        }
    }
}

/// The union of two leaves without repeats has none.
pub proof fn lemma_listed_union_no_duplicates(left: Seq<AstV>, right: Seq<AstV>)
    requires
        left.no_duplicates(),
        right.no_duplicates(),
    ensures
        listed_union(left, right).no_duplicates(),
{
    let test = |p: AstV| !left.contains(p);
    let extra = right.filter(test);
    lemma_filter_no_duplicates(right, test);
    let all = left + extra;
    assert forall|i: int, j: int| 0 <= i < all.len() && 0 <= j < all.len() && i != j implies all[i]
        != all[j] by {
        if i < left.len() && j < left.len() {
            assert(left[i] != left[j]);
        } else if i >= left.len() && j >= left.len() {
            assert(extra[i - left.len()] != extra[j - left.len()]);
        } else if i < left.len() {
            let x = extra[j - left.len()];
            assert(extra.contains(x));
            lemma_filter_lists(right, test, x);
            assert(left.contains(left[i]));
        } else {
            let x = extra[i - left.len()];
            assert(extra.contains(x));
            lemma_filter_lists(right, test, x);
            assert(left.contains(left[j]));
        }
    }
}

/// The union of two spaces that are built as they should be is so too.
pub proof fn lemma_unified_well_formed(left: VsaV, right: VsaV)
    requires
        well_formed(left),
        well_formed(right),
    ensures
        well_formed(unified(left, right)),
{
    match (left, right) {
        (VsaV::Leaf(l), VsaV::Leaf(r)) => {
            lemma_listed_union_no_duplicates(l, r);
        },
        (VsaV::Union(members), _) => {
            lemma_members_well_formed(members);
            lemma_union_well_formed(members.push(right));
        },
        (_, VsaV::Union(members)) => {
            lemma_members_well_formed(members);
            lemma_union_well_formed(members.push(left));
        },
        _ => {
            lemma_union_well_formed(seq![left, right]);
        },
    }
}

/// The intersection of two spaces that are built as they should be is so too.
pub proof fn lemma_intersected_well_formed(a: VsaV, b: VsaV)
    requires
        well_formed(a),
        well_formed(b),
    ensures
        well_formed(intersected(a, b)),
    decreases weight(a) + weight(b),
{
    match (a, b) {
        (_, VsaV::Union(members)) => {
            lemma_intersected_union_right(a, members);
            lemma_members_well_formed(members);
            let parts = Seq::new(members.len(), |i: int| intersected(members[i], a));
            assert forall|i: int| 0 <= i < parts.len() implies well_formed(#[trigger] parts[i]) by {
                lemma_weight_member(members, i);
                lemma_intersected_well_formed(members[i], a);
            }
            lemma_union_well_formed(parts);
        },
        (VsaV::Union(members), _) => {
            lemma_intersected_union_left(members, b);
            lemma_members_well_formed(members);
            let parts = Seq::new(members.len(), |i: int| intersected(members[i], b));
            assert forall|i: int| 0 <= i < parts.len() implies well_formed(#[trigger] parts[i]) by {
                lemma_weight_member(members, i);
                lemma_intersected_well_formed(members[i], b);
            }
            lemma_union_well_formed(parts);
        },
        (
            VsaV::Join { op, children, children_goals },
            VsaV::Join { op: other_op, children: other_children, children_goals: other_goals },
        ) => {
            if op == other_op {
                lemma_intersected_joins(op, children, children_goals, other_children, other_goals);
                let out = intersected(a, b);
                assert forall|i: int|
                    #![trigger out->Join_children[i]]
                    0 <= i < out->Join_children.len() implies well_formed(out->Join_children[i]) by {
                    lemma_weight_child(op, children, children_goals, i);
                    lemma_weight_child(other_op, other_children, other_goals, i);
                    assert(well_formed(a->Join_children[i]));
                    assert(well_formed(b->Join_children[i]));
                    lemma_intersected_well_formed(children[i], other_children[i]);
                }
            }
        },
        (VsaV::Join { .. }, VsaV::Leaf(programs)) => {
            lemma_filter_no_duplicates(programs, held_by(a));
        },
        (VsaV::Leaf(programs), VsaV::Join { .. }) => {
            lemma_filter_no_duplicates(programs, held_by(b));
        },
        (VsaV::Leaf(programs), VsaV::Leaf(others)) => {
            lemma_filter_no_duplicates(programs, held_by(b));
        },
        _ => {},
    }
}

/// What the first members of a union contribute when flattened is built as it
/// should be.
pub proof fn lemma_collected_well_formed(v: VsaV, n: nat)
    requires
        v is Union,
        well_formed(v),
        n <= v->Union_0.len(),
    ensures
        all_well_formed(collected(v, n)),
    decreases v, n,
{
    if n > 0 {
        lemma_collected_well_formed(v, (n - 1) as nat);
        let before = collected(v, (n - 1) as nat);
        let member = v->Union_0[n - 1];
        assert(well_formed(member));
        lemma_flattened_well_formed(member);
        let f = flattened(member);
        let parts = parts_of(f);
        let all = before + parts;
        assert forall|i: int| 0 <= i < all.len() implies well_formed(#[trigger] all[i]) by {
            if i < before.len() {
                assert(well_formed(before[i]));
            } else {
                let k = i - before.len();
                assert(all[i] == parts[k]);
                match f {
                    VsaV::Union(inner) => {
                        assert(well_formed(f->Union_0[k]));
                    },
                    _ => {},
                }
            }
        }
    }
}

/// The flattened form of a space that is built as it should be is so too.
pub proof fn lemma_flattened_well_formed(v: VsaV)
    requires
        well_formed(v),
    ensures
        well_formed(flattened(v)),
    decreases v,
{
    match v {
        VsaV::Union(spaces) => {
            lemma_collected_well_formed(v, spaces.len());
            let parts = collected(v, spaces.len());
            let members = deduped(parts);
            assert forall|i: int| 0 <= i < members.len() implies well_formed(
                #[trigger] members[i],
            ) by {
                lemma_deduped_lists(parts, members[i]);
                assert(members.contains(members[i]));
                let back = choose|k: int| 0 <= k < parts.len() && parts[k] == members[i];
                assert(well_formed(parts[back]));
            }
            let full = members.filter(not_empty());
            if full.len() == 1 {
                lemma_filter_lists(members, not_empty(), full[0]);
                assert(full.contains(full[0]));
                let at = choose|i: int| 0 <= i < members.len() && members[i] == full[0];
                assert(well_formed(members[at]));
            } else {
                lemma_union_well_formed(members);
            }
        },
        VsaV::Join { op, children, children_goals } => {
            lemma_flattened_join(op, children, children_goals);
            let out = flattened(v);
            assert forall|i: int|
                #![trigger out->Join_children[i]]
                0 <= i < out->Join_children.len() implies well_formed(out->Join_children[i]) by {
                assert(well_formed(v->Join_children[i]));
                lemma_flattened_well_formed(children[i]);
            }
        },
        _ => {},
    }
}

/// A sequence without the items that came before has no item twice.
pub proof fn lemma_without_repeats<A>(items: Seq<A>)
    ensures
        without_repeats(items).no_duplicates(),
    decreases items.len(),
{
    if items.len() > 0 {
        lemma_without_repeats(items.drop_last());
        let front = without_repeats(items.drop_last());
        if !front.contains(items.last()) {
            let all = front.push(items.last());
            assert forall|i: int, j: int| 0 <= i < all.len() && 0 <= j < all.len() && i
                != j implies all[i] != all[j] by {
                if i < front.len() && j < front.len() {
                    assert(front[i] != front[j]);
                } else if i < front.len() {
                    assert(front.contains(front[i]));
                } else {
                    assert(front.contains(front[j]));
                }
            }
        }
    }
}

/// The union of spaces that are built as they should be, taken in one after the
/// other, is so too.
pub proof fn lemma_unified_all_well_formed(parts: Seq<VsaV>)
    requires
        all_well_formed(parts),
    ensures
        well_formed(unified_all(parts)),
    decreases parts.len(),
{
    if parts.len() > 0 {
        let front = parts.drop_last();
        assert forall|i: int| 0 <= i < front.len() implies well_formed(#[trigger] front[i]) by {
            assert(well_formed(parts[i]));
        }
        lemma_unified_all_well_formed(front);
        assert(well_formed(parts[parts.len() - 1]));
        lemma_unified_well_formed(unified_all(front), parts.last());
    }
}

/// Whether every space of the cache is built as it should be.
pub open spec fn cache_well_formed<K>(entries: Seq<(K, VsaV)>) -> bool {
    forall|k: int| 0 <= k < entries.len() ==> well_formed((#[trigger] entries[k]).1)
}

/// A join of two spaces that are built as they should be, for an operator of
/// two arguments, is so too.
pub proof fn lemma_join2_well_formed(op: Fun, first: VsaV, second: VsaV, goals: Seq<LitV>)
    requires
        well_formed(first),
        well_formed(second),
        arity(op) == 2,
        goals.len() == 2,
    ensures
        well_formed(VsaV::Join { op, children: seq![first, second], children_goals: goals }),
{
    let v = VsaV::Join { op, children: seq![first, second], children_goals: goals };
    assert forall|i: int|
        #![trigger v->Join_children[i]]
        0 <= i < v->Join_children.len() implies well_formed(v->Join_children[i]) by {
        if i == 0 {
            assert(v->Join_children[i] == first);
        } else {
            assert(v->Join_children[i] == second);
        }
    }
}

/// What is learned from a cache of spaces that are built as they should be is
/// so too.
pub proof fn lemma_learned_well_formed(
    inp: LitV,
    out: LitV,
    cache: Seq<(LitV, VsaV)>,
    bank: Seq<Seq<AstV>>,
    depth: nat,
)
    requires
        cache_well_formed(cache),
    ensures
        well_formed(learned(inp, out, cache, bank, depth)),
    decreases depth, 3nat, 0nat,
{
    if depth > 0 {
        let parts = unifiers(inp, out, cache, bank, depth);
        let head = known(cache, out);
        let ground = ground_rules(inp, out, bank);
        let rest = string_rules(inp, out, cache, bank, depth);
        assert(parts == head + ground + rest);
        lemma_string_rules_well_formed(inp, out, cache, bank, depth);
        assert forall|i: int| 0 <= i < ground.len() implies well_formed(#[trigger] ground[i]) by {
            match out {
                LitV::BoolConst(_) => {
                    if i == 1 {
                        let locations = crate::learn::all_of(
                            crate::enumerate::only(
                                bank,
                                crate::enumerate::of_category(crate::enumerate::Category::Location),
                            ),
                        );
                        lemma_without_repeats(
                            crate::enumerate::pairs(Fun::Equal, locations, locations),
                        );
                    } else {
                        assert(seq![AstV::Lit(out)].no_duplicates());
                    }
                },
                _ => {
                    assert(seq![AstV::Lit(out)].no_duplicates());
                    assert(seq![AstV::Lit(LitV::LocEnd)].no_duplicates());
                },
            }
        }
        assert forall|i: int| 0 <= i < parts.len() implies well_formed(#[trigger] parts[i]) by {
            if i < head.len() {
                assert(parts[i] == head[i]);
                let at = crate::cache::place_of(cache, out);
                crate::bottom_up_laws::lemma_first_place_exists(cache, out);
                assert(well_formed(cache[at].1));
            } else if i < head.len() + ground.len() {
                assert(parts[i] == ground[i - head.len()]);
            } else {
                assert(parts[i] == rest[i - head.len() - ground.len()]);
            }
        }
        lemma_unified_all_well_formed(parts);
    }
}

/// What the string rules give from a cache of spaces that are built as they
/// should be is so too.
pub proof fn lemma_string_rules_well_formed(
    inp: LitV,
    out: LitV,
    cache: Seq<(LitV, VsaV)>,
    bank: Seq<Seq<AstV>>,
    depth: nat,
)
    requires
        depth > 0,
        cache_well_formed(cache),
    ensures
        all_well_formed(string_rules(inp, out, cache, bank, depth)),
    decreases depth, 2nat, 0nat,
{
    let rules = string_rules(inp, out, cache, bank, depth);
    let d = (depth - 1) as nat;
    match (out, inp) {
        (LitV::StringConst(goal), LitV::StringConst(text)) => {
            let a = crate::learn::around_rules(inp, goal, text, cache, bank, depth);
            let c = crate::learn::cut_rules(inp, goal, text, cache, bank, depth);
            let s = crate::learn::split_rules(inp, goal, text, cache, bank, depth);
            assert(rules == a + c + s);
            assert forall|i: int| 0 <= i < rules.len() implies well_formed(#[trigger] rules[i]) by {
                if i < a.len() {
                    let span = matches_of(text, goal)[i];
                    assert(rules[i] == around(inp, goal, span, cache, bank, depth));
                    let before = LitV::StringConst(crate::text::piece(goal, 0, span.0 as int));
                    let after = LitV::StringConst(
                        crate::text::piece(goal, span.1 as int, byte_len(goal) as int),
                    );
                    lemma_learned_well_formed(inp, before, cache, bank, d);
                    lemma_learned_well_formed(inp, after, cache, bank, d);
                    lemma_learned_well_formed(inp, LitV::Input, cache, bank, d);
                    lemma_join2_well_formed(
                        Fun::Concat,
                        learned(inp, LitV::Input, cache, bank, d),
                        learned(inp, after, cache, bank, d),
                        seq![LitV::Input, after],
                    );
                    lemma_join2_well_formed(
                        Fun::Concat,
                        learned(inp, before, cache, bank, d),
                        VsaV::Join {
                            op: Fun::Concat,
                            children: seq![
                                learned(inp, LitV::Input, cache, bank, d),
                                learned(inp, after, cache, bank, d),
                            ],
                            children_goals: seq![LitV::Input, after],
                        },
                        seq![before, after],
                    );
                } else if i < a.len() + c.len() {
                    assert(rules[i] == cut_out(inp, goal, text, cache, bank, depth));
                    let from = LitV::LocConst(crate::learn::offset_of(text, goal) as nat);
                    let to = LitV::LocConst(
                        (crate::learn::offset_of(text, goal) + byte_len(goal)) as nat,
                    );
                    lemma_learned_well_formed(inp, from, cache, bank, d);
                    lemma_learned_well_formed(inp, to, cache, bank, d);
                    lemma_join2_well_formed(
                        Fun::Slice,
                        learned(inp, from, cache, bank, d),
                        learned(inp, to, cache, bank, d),
                        seq![from, to],
                    );
                } else {
                    let upto = byte_len(goal) - 1;
                    assert(rules[i] == VsaV::Union(splits(inp, goal, cache, bank, depth, upto)));
                    lemma_splits_well_formed(inp, goal, cache, bank, depth, upto);
                    lemma_union_well_formed(splits(inp, goal, cache, bank, depth, upto));
                }
            }
        },
        _ => {},
    }
}

/// The rules that cut a goal in two, from a cache of spaces that are built as
/// they should be, are so too.
pub proof fn lemma_splits_well_formed(
    inp: LitV,
    goal: Seq<char>,
    cache: Seq<(LitV, VsaV)>,
    bank: Seq<Seq<AstV>>,
    depth: nat,
    upto: int,
)
    requires
        depth > 0,
        cache_well_formed(cache),
    ensures
        all_well_formed(splits(inp, goal, cache, bank, depth, upto)),
    decreases depth, 1nat, upto,
{
    if upto > 0 {
        lemma_splits_well_formed(inp, goal, cache, bank, depth, upto - 1);
        let before = splits(inp, goal, cache, bank, depth, upto - 1);
        let all = splits(inp, goal, cache, bank, depth, upto);
        let d = (depth - 1) as nat;
        let first = LitV::StringConst(crate::text::piece(goal, 0, upto));
        let second = LitV::StringConst(crate::text::piece(goal, upto, byte_len(goal) as int));
        lemma_learned_well_formed(inp, first, cache, bank, d);
        lemma_learned_well_formed(inp, second, cache, bank, d);
        lemma_join2_well_formed(
            Fun::Concat,
            learned(inp, first, cache, bank, d),
            learned(inp, second, cache, bank, d),
            seq![first, second],
        );
        assert forall|i: int| 0 <= i < all.len() implies well_formed(#[trigger] all[i]) by {
            if i < before.len() {
                assert(all[i] == before[i]);
            } else {
                assert(all[i] == split_at(inp, goal, upto, cache, bank, depth));
            }
        }
    }
}

/// Storing a space that is built as it should be keeps a cache of such spaces.
pub proof fn lemma_stored_well_formed<K>(entries: Seq<(K, VsaV)>, key: K, space: VsaV)
    requires
        cache_well_formed(entries),
        well_formed(space),
    ensures
        cache_well_formed(crate::cache::stored(entries, key, space)),
{
    let after = crate::cache::stored(entries, key, space);
    let at = crate::cache::place_of(entries, key);
    crate::bottom_up_laws::lemma_first_place_exists(entries, key);
    assert forall|k: int| 0 <= k < after.len() implies well_formed((#[trigger] after[k]).1) by {
        if k != at {
            assert(well_formed(entries[k].1));
        }
    }
}

/// Storing a space that is built as it should be, united with what was stored
/// before, keeps a cache of such spaces.
pub proof fn lemma_merged_well_formed(entries: Seq<(LitV, VsaV)>, goal: LitV, space: VsaV)
    requires
        cache_well_formed(entries),
        well_formed(space),
    ensures
        cache_well_formed(crate::cache::merged(entries, goal, space)),
{
    let after = crate::cache::merged(entries, goal, space);
    let at = crate::cache::place_of(entries, goal);
    crate::bottom_up_laws::lemma_first_place_exists(entries, goal);
    assert forall|k: int| 0 <= k < after.len() implies well_formed((#[trigger] after[k]).1) by {
        if k != at {
            assert(well_formed(entries[k].1));
        } else if at < entries.len() {
            assert(well_formed(entries[at].1));
            lemma_unified_well_formed(space, entries[at].1);
        }
    }
}

/// Taking a program in keeps a cache of spaces that are built as they should
/// be.
pub proof fn lemma_absorbed_well_formed(entries: Seq<(Seq<LitV>, VsaV)>, outs: Seq<LitV>, p: AstV)
    requires
        cache_well_formed(entries),
    ensures
        cache_well_formed(crate::cache::absorbed(entries, outs, p)),
{
    let after = crate::cache::absorbed(entries, outs, p);
    let at = crate::cache::place_of(entries, outs);
    crate::bottom_up_laws::lemma_first_place_exists(entries, outs);
    let one = VsaV::Leaf(seq![p]);
    assert(seq![p].no_duplicates());
    assert forall|k: int| 0 <= k < after.len() implies well_formed((#[trigger] after[k]).1) by {
        if k != at {
            assert(well_formed(entries[k].1));
        } else if at < entries.len() {
            assert(well_formed(entries[at].1));
            lemma_unified_well_formed(entries[at].1, one);
        }
    }
}

/// A round of enumeration keeps a cache of spaces that are built as they should
/// be.
pub proof fn lemma_cache_after_well_formed<E: crate::eval::ForeignEvaluator>(
    entries: Seq<(Seq<LitV>, VsaV)>,
    inputs: Seq<LitV>,
    tried: Seq<AstV>,
    foreign: E,
)
    requires
        cache_well_formed(entries),
    ensures
        cache_well_formed(crate::bottom_up::cache_after(entries, inputs, tried, foreign)),
    decreases tried.len(),
{
    if tried.len() > 0 {
        lemma_cache_after_well_formed(entries, inputs, tried.drop_last(), foreign);
        let before = crate::bottom_up::cache_after(entries, inputs, tried.drop_last(), foreign);
        match crate::bottom_up::outputs_of(tried.last(), inputs, foreign) {
            Some(outs) => {
                lemma_absorbed_well_formed(before, outs, tried.last());
            },
            None => {},
        }
    }
}

/// The cache that the search starts from holds spaces that are built as they
/// should be.
pub proof fn lemma_seeded_cache_well_formed(prims: Seq<LitV>, n: nat)
    ensures
        cache_well_formed(crate::seed::seeded_cache(prims, n)),
    decreases prims.len(),
{
    if prims.len() > 0 {
        lemma_seeded_cache_well_formed(prims.drop_last(), n);
        assert(seq![AstV::Lit(prims.last())].no_duplicates());
        lemma_stored_well_formed(
            crate::seed::seeded_cache(prims.drop_last(), n),
            crate::seed::repeated(prims.last(), n),
            literal(prims.last()),
        );
    }
}

/// The spaces of a cache by the output at one place are built as they should be
/// where those of the cache are.
pub proof fn lemma_projected_well_formed(entries: Seq<(Seq<LitV>, VsaV)>, i: int)
    requires
        cache_well_formed(entries),
    ensures
        cache_well_formed(crate::driver::projected(entries, i)),
    decreases entries.len(),
{
    if entries.len() > 0 {
        let front = entries.drop_last();
        assert forall|k: int| 0 <= k < front.len() implies well_formed((#[trigger] front[k]).1) by {
            assert(well_formed(entries[k].1));
        }
        lemma_projected_well_formed(front, i);
        let last = entries.last();
        assert(well_formed(entries[entries.len() - 1].1));
        if 0 <= i < last.0.len() {
            lemma_merged_well_formed(crate::driver::projected(front, i), last.0[i], last.1);
        }
    }
}

/// The space for the examples is built as it should be where the spaces of the
/// cache are.
pub proof fn lemma_folded_well_formed<E: crate::eval::ForeignEvaluator>(
    examples: Seq<(LitV, LitV)>,
    found: crate::driver::Progress,
    foreign: E,
    upto: int,
)
    requires
        cache_well_formed(found.cache),
    ensures
        well_formed(crate::driver::folded(examples, found, foreign, upto)),
    decreases upto,
{
    if upto <= 0 {
        lemma_projected_well_formed(found.cache, 0);
        lemma_learned_well_formed(
            examples[0].0,
            examples[0].1,
            crate::driver::projected(found.cache, 0),
            found.bank,
            crate::learn::full_depth(examples[0].1),
        );
    } else {
        lemma_folded_well_formed(examples, found, foreign, upto - 1);
        lemma_projected_well_formed(found.cache, upto);
        lemma_learned_well_formed(
            examples[upto].0,
            examples[upto].1,
            crate::driver::projected(found.cache, upto),
            found.bank,
            crate::learn::full_depth(examples[upto].1),
        );
        lemma_intersected_well_formed(
            crate::driver::folded(examples, found, foreign, upto - 1),
            crate::driver::space_for(examples, found, upto),
        );
    }
}

/// The space that a search ends with is built as it should be where the spaces
/// of the cache that it starts from are.
pub proof fn lemma_search_well_formed<E: crate::eval::ForeignEvaluator>(
    examples: Seq<(LitV, LitV)>,
    before: crate::driver::Progress,
    size: nat,
    foreign: E,
)
    requires
        cache_well_formed(before.cache),
    ensures
        well_formed(crate::driver::search(examples, before, size, foreign).0),
    decreases crate::driver::LARGEST_SIZE + 1 - size,
{
    let found = crate::driver::after_round(before, examples, size, foreign);
    let bank = crate::bottom_up::grown(before.bank, size);
    let regex_bank = crate::bottom_up::grown(before.regex_bank, size);
    let tried = crate::enumerate::candidates(
        bank,
        regex_bank,
        size as int,
        crate::driver::wants_bools(examples),
    );
    lemma_cache_after_well_formed(before.cache, crate::driver::inputs_of(examples), tried, foreign);
    lemma_folded_well_formed(examples, found, foreign, examples.len() - 1);
    let result = crate::driver::folded(examples, found, foreign, examples.len() - 1);
    if crate::best::best_of(result, crate::best::ranking_of(crate::best::ByCost)) is None && size
        < crate::driver::LARGEST_SIZE {
        lemma_search_well_formed(examples, found, size + 1, foreign);
    }
}

/// The space that synthesis gives is built as it should be.
pub proof fn lemma_synthesis_well_formed<E: crate::eval::ForeignEvaluator>(
    examples: Seq<(LitV, LitV)>,
    foreign: E,
)
    ensures
        well_formed(crate::driver::synthesis(examples, foreign).0),
{
    let marks = crate::seed::common_marks(examples);
    lemma_seeded_cache_well_formed(crate::seed::constants() + marks, examples.len());
    lemma_search_well_formed(examples, crate::driver::start(examples), 1, foreign);
}

} // verus!
