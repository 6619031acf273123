use vstd::prelude::*;
use crate::ast::AstV;
use crate::best::best_of;
use crate::best::bests_of;
use crate::best::each_some;
use crate::best::least;
use crate::best::lemma_best_join;
use crate::best::lemma_best_union;
use crate::vsa::holds;
use crate::vsa::VsaV;

verus! {

/// The least of the programs that are there is one of them, and none of them
/// undercuts it.
pub proof fn lemma_least_is_least(options: Seq<Option<AstV>>, rank: spec_fn(AstV) -> usize)
    ensures
        least(options, rank) is None ==> forall|i: int|
            0 <= i < options.len() ==> (#[trigger] options[i]) is None,
        least(options, rank) is Some ==> options.contains(least(options, rank)),
        least(options, rank) matches Some(b) ==> forall|i: int|
            0 <= i < options.len() && (#[trigger] options[i]) is Some ==> rank(b) <= rank(
                options[i]->0,
            ),
    decreases options.len(),
{
    if options.len() > 0 {
        let front = options.drop_last();
        lemma_least_is_least(front, rank);
        let n = options.len() as int;
        let out = least(options, rank);
        assert forall|i: int| 0 <= i < front.len() implies front[i] == options[i] by {}
        if least(front, rank) is None {
            assert forall|i: int| 0 <= i < options.len() && out is None implies (
            #[trigger] options[i]) is None by {
                if i < n - 1 {
                    assert(front[i] is None);
                }
            }
        }
        if out is Some {
            if out == options.last() {
                assert(options[n - 1] == out);
            } else {
                assert(front.contains(out));
                let at = choose|i: int| 0 <= i < front.len() && front[i] == out;
                assert(options[at] == out);
            }
            let b = out->0;
            assert forall|i: int| 0 <= i < options.len() && (
            #[trigger] options[i]) is Some implies rank(b) <= rank(options[i]->0) by {
                if i < n - 1 {
                    assert(front[i] is Some);
                }
            }
        }
    }
}

/// What is picked as best is held: the best program of a space, where it has
/// one, is a program of the space. This holds of joins as of every other space.
pub proof fn lemma_best_is_held(v: VsaV, rank: spec_fn(AstV) -> usize)
    ensures
        best_of(v, rank) matches Some(p) ==> holds(v, p),
    decreases v,
{
    match v {
        VsaV::Leaf(programs) => {
            let options = each_some(programs);
            lemma_least_is_least(options, rank);
            if least(options, rank) is Some {
                let at = choose|i: int| 0 <= i < options.len() && options[i] == least(options, rank);
                assert(programs[at] == least(options, rank)->0);
            }
        },
        VsaV::Union(spaces) => {
            lemma_best_union(spaces, rank);
            let bests = bests_of(spaces, rank);
            lemma_least_is_least(bests, rank);
            if least(bests, rank) is Some {
                let at = choose|i: int| 0 <= i < bests.len() && bests[i] == least(bests, rank);
                lemma_best_is_held(spaces[at], rank);
                assert(holds(v->Union_0[at], best_of(v, rank)->0));
            }
        },
        VsaV::Join { op, children, children_goals } => {
            lemma_best_join(op, children, children_goals, rank);
            if best_of(v, rank) is Some {
                let args = best_of(v, rank)->0->App_args;
                assert forall|i: int| 0 <= i < children.len() implies holds(
                    #[trigger] children[i],
                    args[i],
                ) by {
                    assert(bests_of(children, rank)[i] is Some);
                    lemma_best_is_held(children[i], rank);
                }
            }
        },
        VsaV::Unlearned { start, goal } => {},
    }
}

/// A space that holds a program has a best program.
pub proof fn lemma_best_exists(v: VsaV, rank: spec_fn(AstV) -> usize, p: AstV)
    requires
        holds(v, p),
    ensures
        best_of(v, rank) is Some,
    decreases v,
{
    match v {
        VsaV::Leaf(programs) => {
            let options = each_some(programs);
            lemma_least_is_least(options, rank);
            let at = choose|i: int| 0 <= i < programs.len() && programs[i] == p;
            assert(options[at] is Some);
        },
        VsaV::Union(spaces) => {
            lemma_best_union(spaces, rank);
            let bests = bests_of(spaces, rank);
            lemma_least_is_least(bests, rank);
            let at = choose|i: int| 0 <= i < v->Union_0.len() && holds(v->Union_0[i], p);
            lemma_best_exists(spaces[at], rank, p);
            assert(bests[at] is Some);
        },
        VsaV::Join { op, children, children_goals } => {
            lemma_best_join(op, children, children_goals, rank);
            assert forall|i: int| 0 <= i < children.len() implies (#[trigger] bests_of(
                children,
                rank,
            )[i]) is Some by {
                assert(holds(v->Join_children[i], p->App_args[i]));
                lemma_best_exists(children[i], rank, p->App_args[i]);
            }
        },
        VsaV::Unlearned { start, goal } => {},
    }
}

/// Whether `xs` and `ys` are argument lists that the spaces hold one by one,
/// with no program of `xs` ranked above its partner in `ys`.
pub open spec fn cheaper_arguments(
    children: Seq<VsaV>,
    xs: Seq<AstV>,
    ys: Seq<AstV>,
    rank: spec_fn(AstV) -> usize,
) -> bool {
    &&& xs.len() == children.len()
    &&& ys.len() == children.len()
    &&& forall|i: int|
        #![trigger children[i]]
        0 <= i < children.len() ==> holds(children[i], xs[i]) && holds(children[i], ys[i])
            && rank(xs[i]) <= rank(ys[i])
}

/// Whether, at every join of the space, putting lower-ranked arguments in
/// place never raises the rank of the application.
pub open spec fn monotone_at_joins(v: VsaV, rank: spec_fn(AstV) -> usize) -> bool
    decreases v,
{
    match v {
        VsaV::Union(spaces) => forall|i: int|
            #![trigger spaces[i]]
            0 <= i < spaces.len() ==> monotone_at_joins(spaces[i], rank),
        VsaV::Join { op, children, children_goals } => {
            &&& forall|i: int|
                #![trigger children[i]]
                0 <= i < children.len() ==> monotone_at_joins(children[i], rank)
            &&& forall|xs: Seq<AstV>, ys: Seq<AstV>| #[trigger]
                cheaper_arguments(children, xs, ys, rank) ==> rank(
                    AstV::App { fun: op, args: xs },
                ) <= rank(AstV::App { fun: op, args: ys })
        },
        _ => true,
    }
}

/// The best program is a cheapest: under a ranking that never rises when
/// lower-ranked arguments are put into a join of the space, no program of the
/// space has a lower rank than its best program. A space without joins asks
/// nothing of the ranking.
pub proof fn lemma_best_is_cheapest(v: VsaV, rank: spec_fn(AstV) -> usize, p: AstV)
    requires
        monotone_at_joins(v, rank),
        holds(v, p),
    ensures
        best_of(v, rank) matches Some(b) && rank(b) <= rank(p),
    decreases v,
{
    lemma_best_exists(v, rank, p);
    match v {
        VsaV::Leaf(programs) => {
            let options = each_some(programs);
            lemma_least_is_least(options, rank);
            let at = choose|i: int| 0 <= i < programs.len() && programs[i] == p;
            assert(options[at] is Some);
        },
        VsaV::Union(spaces) => {
            lemma_best_union(spaces, rank);
            let bests = bests_of(spaces, rank);
            lemma_least_is_least(bests, rank);
            let at = choose|i: int| 0 <= i < v->Union_0.len() && holds(v->Union_0[i], p);
            assert(monotone_at_joins(spaces[at], rank));
            lemma_best_is_cheapest(spaces[at], rank, p);
            assert(bests[at] is Some);
        },
        VsaV::Join { op, children, children_goals } => {
            lemma_best_join(op, children, children_goals, rank);
            let xs = best_of(v, rank)->0->App_args;
            let ys = p->App_args;
            assert forall|i: int| #![trigger children[i]] 0 <= i < children.len() implies holds(
                children[i],
                xs[i],
            ) && holds(children[i], ys[i]) && rank(xs[i]) <= rank(ys[i]) by {
                assert(holds(v->Join_children[i], ys[i]));
                assert(monotone_at_joins(children[i], rank));
                lemma_best_is_cheapest(children[i], rank, ys[i]);
                lemma_best_is_held(children[i], rank);
                assert(bests_of(children, rank)[i] == best_of(children[i], rank));
            }
            assert(cheaper_arguments(children, xs, ys, rank));
            assert(p == AstV::App { fun: op, args: ys });
        },
        VsaV::Unlearned { start, goal } => {},
    }
}

} // verus!
