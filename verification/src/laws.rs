use vstd::prelude::*;
use crate::ast::AstV;
use crate::vsa::first_some;
use crate::vsa::held_by;
use crate::vsa::holds;
use crate::vsa::intersected;
use crate::vsa::is_empty_spec;
use crate::vsa::lemma_intersected_joins;
use crate::vsa::lemma_intersected_union_left;
use crate::vsa::lemma_intersected_union_right;
use crate::vsa::lemma_picked_join;
use crate::vsa::lemma_picked_union;
use crate::vsa::lemma_weight_child;
use crate::vsa::lemma_weight_member;
use crate::vsa::listed_union;
use crate::vsa::picked;
use crate::vsa::picks_of;
use crate::vsa::unified;
use crate::vsa::weight;
use crate::vsa::well_formed;
use crate::vsa::VsaV;

verus! {

/// A filtered sequence lists exactly the listed items that pass the test.
pub proof fn lemma_filter_lists<A>(items: Seq<A>, test: spec_fn(A) -> bool, x: A)
    ensures
        items.filter(test).contains(x) <==> items.contains(x) && test(x),
    decreases items.len(),
{
    reveal(Seq::filter);
    if items.len() > 0 {
        let front = items.drop_last();
        lemma_filter_lists(front, test, x);
        let kept = front.filter(test);
        if items.contains(x) {
            let at = choose|i: int| 0 <= i < items.len() && items[i] == x;
            if at < items.len() - 1 {
                assert(front[at] == x);
                assert(front.contains(x));
            }
        }
        if front.contains(x) {
            let at = choose|i: int| 0 <= i < front.len() && front[i] == x;
            assert(items[at] == x);
        }
        if test(items.last()) {
            let all = kept.push(items.last());
            if kept.contains(x) {
                let at = choose|i: int| 0 <= i < kept.len() && kept[i] == x;
                assert(all[at] == x);
            }
            assert(all[all.len() - 1] == items.last());
            if all.contains(x) {
                let at = choose|i: int| 0 <= i < all.len() && all[i] == x;
                if at < kept.len() {
                    assert(kept[at] == x);
                } else {
                    assert(x == items.last());
                    assert(items[items.len() - 1] == x);
                }
            }
        }
    }
}

/// A union denotes the union: the space that `unify` gives holds a program
/// exactly where one of the two spaces holds it.
pub proof fn lemma_unify_denotes_union(left: VsaV, right: VsaV, p: AstV)
    ensures
        holds(unified(left, right), p) <==> holds(left, p) || holds(right, p),
{
    match (left, right) {
        (VsaV::Leaf(l), VsaV::Leaf(r)) => {
            let test = |q: AstV| !l.contains(q);
            let extra = r.filter(test);
            lemma_filter_lists(r, test, p);
            let all = listed_union(l, r);
            assert(all == l + extra);
            if l.contains(p) {
                let at = choose|i: int| 0 <= i < l.len() && l[i] == p;
                assert(all[at] == p);
            }
            if extra.contains(p) {
                let at = choose|i: int| 0 <= i < extra.len() && extra[i] == p;
                assert(all[l.len() + at] == p);
            }
            if all.contains(p) {
                let at = choose|i: int| 0 <= i < all.len() && all[i] == p;
                if at < l.len() {
                    assert(l[at] == p);
                } else {
                    assert(extra[at - l.len()] == p);
                }
            }
        },
        (VsaV::Union(members), _) => {
            lemma_union_with(members, right, p);
        },
        (_, VsaV::Union(members)) => {
            lemma_union_with(members, left, p);
        },
        _ => {
            let both = seq![left, right];
            let u = VsaV::Union(both);
            if holds(left, p) {
                assert(holds(u->Union_0[0], p));
            }
            if holds(right, p) {
                assert(holds(u->Union_0[1], p));
            }
        },
    }
}

/// A union with one more member holds what the union or the member holds.
pub proof fn lemma_union_with(members: Seq<VsaV>, more: VsaV, p: AstV)
    ensures
        holds(VsaV::Union(members.push(more)), p) <==> holds(VsaV::Union(members), p) || holds(
            more,
            p,
        ),
{
    let all = VsaV::Union(members.push(more));
    let old = VsaV::Union(members);
    if holds(old, p) {
        let at = choose|i: int| 0 <= i < old->Union_0.len() && holds(old->Union_0[i], p);
        assert(holds(all->Union_0[at], p));
    }
    if holds(more, p) {
        assert(holds(all->Union_0[members.len() as int], p));
    }
    if holds(all, p) {
        let at = choose|i: int| 0 <= i < all->Union_0.len() && holds(all->Union_0[i], p);
        if at < members.len() {
            assert(holds(old->Union_0[at], p));
        }
    }
}

/// What is picked is held: the first program of a space, where it has one, is a
/// program of the space. This holds of joins as of every other space.
pub proof fn lemma_picked_is_held(v: VsaV)
    ensures
        picked(v) matches Some(p) ==> holds(v, p),
    decreases v,
{
    match v {
        VsaV::Leaf(programs) => {
            if programs.len() > 0 {
                assert(programs[0] == programs[0]);
            }
        },
        VsaV::Union(spaces) => {
            lemma_picked_union(spaces);
            let picks = picks_of(spaces);
            if first_some(picks) is Some {
                let at = lemma_first_some_place(picks);
                lemma_picked_is_held(spaces[at]);
                assert(holds(v->Union_0[at], picked(v)->0));
            }
        },
        VsaV::Join { op, children, children_goals } => {
            lemma_picked_join(op, children, children_goals);
            if picked(v) is Some {
                let args = picked(v)->0->App_args;
                assert forall|i: int| 0 <= i < children.len() implies holds(
                    #[trigger] children[i],
                    args[i],
                ) by {
                    assert(picks_of(children)[i] is Some);
                    lemma_picked_is_held(children[i]);
                }
            }
        },
        VsaV::Unlearned { start, goal } => {},
    }
}

/// The place of the first option that is there.
pub proof fn lemma_first_some_place(options: Seq<Option<AstV>>) -> (at: int)
    requires
        first_some(options) is Some,
    ensures
        0 <= at < options.len(),
        options[at] == first_some(options),
    decreases options.len(),
{
    if options[0] is Some {
        0
    } else {
        let rest = lemma_first_some_place(options.drop_first());
        rest + 1
    }
}

/// A space without a first program holds no program.
pub proof fn lemma_unpicked_holds_nothing(v: VsaV, p: AstV)
    requires
        picked(v) is None,
    ensures
        !holds(v, p),
    decreases v,
{
    match v {
        VsaV::Leaf(programs) => {},
        VsaV::Union(spaces) => {
            lemma_picked_union(spaces);
            if holds(v, p) {
                let at = choose|i: int| 0 <= i < v->Union_0.len() && holds(v->Union_0[i], p);
                lemma_first_some_all_none(picks_of(spaces), at);
                lemma_unpicked_holds_nothing(spaces[at], p);
            }
        },
        VsaV::Join { op, children, children_goals } => {
            lemma_picked_join(op, children, children_goals);
            if holds(v, p) {
                let at = choose|i: int|
                    0 <= i < children.len() && !((#[trigger] picks_of(children)[i]) is Some);
                lemma_unpicked_holds_nothing(children[at], p->App_args[at]);
                assert(holds(v->Join_children[at], p->App_args[at]));
            }
        },
        VsaV::Unlearned { start, goal } => {},
    }
}

/// Where no option is the first that is there, every option is missing.
pub proof fn lemma_first_some_all_none(options: Seq<Option<AstV>>, at: int)
    requires
        first_some(options) is None,
        0 <= at < options.len(),
    ensures
        options[at] is None,
    decreases options.len(),
{
    if at > 0 {
        lemma_first_some_all_none(options.drop_first(), at - 1);
    }
}

/// An intersection denotes the intersection: the space that `intersect` gives
/// holds a program exactly where both spaces hold it.
pub proof fn lemma_intersect_denotes_intersection(a: VsaV, b: VsaV, p: AstV)
    requires
        well_formed(a),
        well_formed(b),
    ensures
        holds(intersected(a, b), p) <==> holds(a, p) && holds(b, p),
    decreases weight(a) + weight(b),
{
    match (a, b) {
        (_, VsaV::Union(members)) => {
            lemma_intersected_union_right(a, members);
            let out = intersected(a, b);
            assert forall|i: int| 0 <= i < members.len() implies (holds(
                #[trigger] out->Union_0[i],
                p,
            ) <==> holds(members[i], p) && holds(a, p)) by {
                lemma_weight_member(members, i);
                assert(well_formed(b->Union_0[i]));
                lemma_intersect_denotes_intersection(members[i], a, p);
            }
            if holds(out, p) {
                let at = choose|i: int| 0 <= i < out->Union_0.len() && holds(out->Union_0[i], p);
                assert(holds(b->Union_0[at], p));
            }
            if holds(a, p) && holds(b, p) {
                let at = choose|i: int| 0 <= i < b->Union_0.len() && holds(b->Union_0[i], p);
                assert(holds(out->Union_0[at], p));
            }
        },
        (VsaV::Union(members), _) => {
            lemma_intersected_union_left(members, b);
            let out = intersected(a, b);
            assert forall|i: int| 0 <= i < members.len() implies (holds(
                #[trigger] out->Union_0[i],
                p,
            ) <==> holds(members[i], p) && holds(b, p)) by {
                lemma_weight_member(members, i);
                assert(well_formed(a->Union_0[i]));
                lemma_intersect_denotes_intersection(members[i], b, p);
            }
            if holds(out, p) {
                let at = choose|i: int| 0 <= i < out->Union_0.len() && holds(out->Union_0[i], p);
                assert(holds(a->Union_0[at], p));
            }
            if holds(a, p) && holds(b, p) {
                let at = choose|i: int| 0 <= i < a->Union_0.len() && holds(a->Union_0[i], p);
                assert(holds(out->Union_0[at], p));
            }
        },
        (
            VsaV::Join { op, children, children_goals },
            VsaV::Join { op: other_op, children: other_children, children_goals: other_goals },
        ) => {
            if op == other_op {
                lemma_intersected_joins(op, children, children_goals, other_children, other_goals);
                let out = intersected(a, b);
                match p {
                    AstV::App { fun, args } => {
                        if fun == op && args.len() == children.len() {
                            assert forall|i: int| 0 <= i < children.len() implies (holds(
                                #[trigger] out->Join_children[i],
                                args[i],
                            ) <==> holds(children[i], args[i]) && holds(
                                other_children[i],
                                args[i],
                            )) by {
                                lemma_weight_child(op, children, children_goals, i);
                                lemma_weight_child(other_op, other_children, other_goals, i);
                                assert(well_formed(a->Join_children[i]));
                                assert(well_formed(b->Join_children[i]));
                                lemma_intersect_denotes_intersection(
                                    children[i],
                                    other_children[i],
                                    args[i],
                                );
                            }
                            if holds(out, p) {
                                assert forall|i: int| 0 <= i < children.len() implies holds(
                                    #[trigger] a->Join_children[i],
                                    args[i],
                                ) by {
                                    assert(holds(out->Join_children[i], args[i]));
                                }
                                assert forall|i: int| 0 <= i < children.len() implies holds(
                                    #[trigger] b->Join_children[i],
                                    args[i],
                                ) by {
                                    assert(holds(out->Join_children[i], args[i]));
                                }
                            }
                            if holds(a, p) && holds(b, p) {
                                assert forall|i: int| 0 <= i < children.len() implies holds(
                                    #[trigger] out->Join_children[i],
                                    args[i],
                                ) by {
                                    assert(holds(a->Join_children[i], args[i]));
                                    assert(holds(b->Join_children[i], args[i]));
                                }
                            }
                        }
                    },
                    _ => {},
                }
            }
        },
        (VsaV::Join { .. }, VsaV::Leaf(programs)) => {
            lemma_filter_lists(programs, held_by(a), p);
        },
        (VsaV::Leaf(programs), VsaV::Join { .. }) => {
            lemma_filter_lists(programs, held_by(b), p);
        },
        (VsaV::Leaf(programs), VsaV::Leaf(others)) => {
            lemma_filter_lists(programs, held_by(b), p);
        },
        _ => {},
    }
}

/// Intersection is commutative: the two orders give spaces that hold the same
/// programs.
pub proof fn lemma_intersect_commutes(a: VsaV, b: VsaV, p: AstV)
    requires
        well_formed(a),
        well_formed(b),
    ensures
        holds(intersected(a, b), p) <==> holds(intersected(b, a), p),
{
    lemma_intersect_denotes_intersection(a, b, p);
    lemma_intersect_denotes_intersection(b, a, p);
}

/// Intersection is idempotent: a space intersected with itself holds the same
/// programs as the space, flattened or not.
pub proof fn lemma_intersect_idempotent(a: VsaV, p: AstV)
    requires
        well_formed(a),
    ensures
        holds(intersected(a, a), p) <==> holds(a, p),
        holds(crate::flatten::flattened(intersected(a, a)), p) <==> holds(
            crate::flatten::flattened(a),
            p,
        ),
{
    lemma_intersect_denotes_intersection(a, a, p);
    crate::flat_laws::lemma_flatten_preserves(intersected(a, a), p);
    crate::flat_laws::lemma_flatten_preserves(a, p);
}

/// The empty space is absorbing: intersected with any space, on either side,
/// it gives a space that holds nothing and counts as empty.
pub proof fn lemma_intersect_with_empty(x: VsaV, p: AstV)
    requires
        well_formed(x),
    ensures
        !holds(intersected(VsaV::Leaf(Seq::empty()), x), p),
        !holds(intersected(x, VsaV::Leaf(Seq::empty())), p),
        is_empty_spec(intersected(VsaV::Leaf(Seq::empty()), x)),
        is_empty_spec(intersected(x, VsaV::Leaf(Seq::empty()))),
{
    let nothing = VsaV::Leaf(Seq::<AstV>::empty());
    lemma_intersect_denotes_intersection(nothing, x, p);
    lemma_intersect_denotes_intersection(x, nothing, p);
    let left = intersected(nothing, x);
    let right = intersected(x, nothing);
    lemma_picked_is_held(left);
    lemma_picked_is_held(right);
    if picked(left) is Some {
        lemma_intersect_denotes_intersection(nothing, x, picked(left)->0);
    }
    if picked(right) is Some {
        lemma_intersect_denotes_intersection(x, nothing, picked(right)->0);
    }
}

} // verus!
