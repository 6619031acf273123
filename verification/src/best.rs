use vstd::prelude::*;
use crate::ast::ast_views;
use crate::ast::lemma_app_view;
use crate::ast::AstV;
use crate::ast::AST;
use crate::fun::Fun;
use crate::lit::lit_views;
use crate::lit::LitV;
use crate::vsa::leaf_views;
use crate::vsa::lemma_join_view;
use crate::vsa::lemma_union_view;
use crate::vsa::opt_ast_view;
use crate::vsa::vsa_views;
use crate::vsa::VsaV;
use crate::vsa::VSA;

verus! {

/// Whether a ranking can be asked of every program and gives programs that are
/// the same the same rank.
pub open spec fn ranks_programs<F: Fn(&AST) -> usize>(rank: F) -> bool {
    &&& forall|a: &AST| #[trigger] rank.requires((a,))
    &&& forall|a: &AST, b: &AST, r: usize, s: usize|
        a@ == b@ && #[trigger] rank.ensures((a,), r) && #[trigger] rank.ensures((b,), s) ==> r
            == s
}

/// The rank that a ranking gives to a program.
pub open spec fn rank_of<F: Fn(&AST) -> usize>(rank: F) -> spec_fn(AstV) -> usize {
    |p: AstV| choose|r: usize| gives(rank, p, r)
}

/// Whether the ranking can give the rank to the program.
pub open spec fn gives<F: Fn(&AST) -> usize>(rank: F, p: AstV, r: usize) -> bool {
    exists|a: &AST| a@ == p && #[trigger] rank.ensures((a,), r)
}

/// The first among the programs that are there that no other undercuts in rank.
pub open spec fn least(options: Seq<Option<AstV>>, rank: spec_fn(AstV) -> usize) -> Option<AstV>
    decreases options.len(),
{
    if options.len() == 0 {
        None
    } else {
        match (least(options.drop_last(), rank), options.last()) {
            (None, last) => last,
            (Some(b), None) => Some(b),
            (Some(b), Some(x)) => if rank(x) < rank(b) {
                Some(x)
            } else {
                Some(b)
            },
        }
    }
}

/// The listed programs, each one there.
pub open spec fn each_some(programs: Seq<AstV>) -> Seq<Option<AstV>> {
    Seq::new(programs.len(), |i: int| Some(programs[i]))
}

/// The best program of a space under a ranking: of a leaf the first of its
/// programs of least rank; of a union the first of the best programs of its
/// members that has least rank; of a join the operator applied to the best
/// programs of its argument spaces, where each has one.
pub open spec fn best_of(v: VsaV, rank: spec_fn(AstV) -> usize) -> Option<AstV>
    decreases v, 1nat,
{
    match v {
        VsaV::Leaf(programs) => least(each_some(programs), rank),
        VsaV::Union(spaces) => least(member_bests(v, rank), rank),
        VsaV::Join { op, children, children_goals } => {
            let bests = member_bests(v, rank);
            if forall|i: int| 0 <= i < bests.len() ==> (#[trigger] bests[i]) is Some {
                Some(AstV::App { fun: op, args: Seq::new(bests.len(), |i: int| bests[i]->0) })
            } else {
                None
            }
        },
        VsaV::Unlearned { start, goal } => None,
    }
}

/// The best programs of the members of a union or of the argument spaces of a
/// join.
pub open spec fn member_bests(v: VsaV, rank: spec_fn(AstV) -> usize) -> Seq<Option<AstV>>
    decreases v, 0nat,
{
    match v {
        VsaV::Union(spaces) => Seq::new(
            spaces.len(),
            |i: int|
                if 0 <= i < spaces.len() {
                    best_of(spaces[i], rank)
                } else {
                    None
                },
        ),
        VsaV::Join { op, children, children_goals } => Seq::new(
            children.len(),
            |i: int|
                if 0 <= i < children.len() {
                    best_of(children[i], rank)
                } else {
                    None
                },
        ),
        _ => Seq::empty(),
    }
}

/// The best programs of a sequence of spaces.
pub open spec fn bests_of(spaces: Seq<VsaV>, rank: spec_fn(AstV) -> usize) -> Seq<Option<AstV>> {
    Seq::new(spaces.len(), |i: int| best_of(spaces[i], rank))
}

/// The best program of a union is the least of the best programs of its members.
pub proof fn lemma_best_union(spaces: Seq<VsaV>, rank: spec_fn(AstV) -> usize)
    ensures
        best_of(VsaV::Union(spaces), rank) == least(bests_of(spaces, rank), rank),
{
    assert(member_bests(VsaV::Union(spaces), rank) =~= bests_of(spaces, rank));
}

/// The best program of a join applies the operator to the best programs of the
/// argument spaces.
pub proof fn lemma_best_join(
    op: Fun,
    children: Seq<VsaV>,
    children_goals: Seq<LitV>,
    rank: spec_fn(AstV) -> usize,
)
    ensures
        best_of(VsaV::Join { op, children, children_goals }, rank) == if forall|i: int|
            0 <= i < children.len() ==> (#[trigger] bests_of(children, rank)[i]) is Some {
            Some(
                AstV::App {
                    fun: op,
                    args: Seq::new(children.len(), |i: int| bests_of(children, rank)[i]->0),
                },
            )
        } else {
            None
        },
{
    let v = VsaV::Join { op, children, children_goals };
    assert(member_bests(v, rank) =~= bests_of(children, rank));
    let bests = member_bests(v, rank);
    if forall|i: int| 0 <= i < bests.len() ==> (#[trigger] bests[i]) is Some {
        assert(Seq::new(bests.len(), |i: int| bests[i]->0) =~= Seq::new(
            children.len(),
            |i: int| bests_of(children, rank)[i]->0,
        ));
    }
}

/// Whether `at` is the first place of a least key.
pub open spec fn first_least(keys: Seq<usize>, at: int) -> bool {
    &&& 0 <= at < keys.len()
    &&& forall|i: int| 0 <= i < keys.len() ==> keys[at] <= #[trigger] keys[i]
    &&& forall|i: int| 0 <= i < at ==> keys[at] < #[trigger] keys[i]
}

/// Whether the place occurs in the order.
pub open spec fn placed(order: Seq<usize>, place: int) -> bool {
    exists|k: int| 0 <= k < order.len() && #[trigger] order[k] == place
}

/// `Itertools::sorted_by_key` on the places `0..keys.len()`, each sorted by its
/// key: every place comes once, keys ascend, and places of equal keys keep
/// their order.
#[verifier::external_body]
fn sorted_places(keys: &Vec<usize>) -> (order: Vec<usize>)
    ensures
        order@.len() == keys@.len(),
        forall|k: int| 0 <= k < order@.len() ==> (#[trigger] order@[k]) < keys@.len(),
        forall|i: int| 0 <= i < keys@.len() ==> #[trigger] placed(order@, i),
        forall|a: int, b: int|
            0 <= a < b < order@.len() ==> keys@[(#[trigger] order@[a]) as int] <= keys@[(
            #[trigger] order@[b]) as int],
        forall|a: int, b: int|
            0 <= a < b < order@.len() && keys@[(#[trigger] order@[a]) as int] == keys@[(
            #[trigger] order@[b]) as int] ==> order@[a] < order@[b],
{
    itertools::Itertools::sorted_by_key(0..keys.len(), |place| keys[*place]).collect()
}

/// The least of a sequence of programs that are all there is the one at the
/// first place of a least rank.
pub proof fn lemma_least_of_listed(programs: Seq<AstV>, rank: spec_fn(AstV) -> usize, at: int)
    requires
        first_least(programs.map_values(rank), at),
    ensures
        least(each_some(programs), rank) == Some(programs[at]),
    decreases programs.len(),
{
    let keys = programs.map_values(rank);
    let options = each_some(programs);
    let n = programs.len() as int;
    assert(options.last() == Some(programs[n - 1]));
    assert(keys[n - 1] == rank(programs[n - 1]));
    assert(keys[at] == rank(programs[at]));
    if n == 1 {
        assert(options.drop_last().len() == 0);
        assert(least(options.drop_last(), rank) is None);
    } else {
        let shorter = programs.drop_last();
        assert(each_some(shorter) =~= options.drop_last());
        assert(shorter.map_values(rank) =~= keys.drop_last());
        if at == n - 1 {
            lemma_first_least_exists(shorter.map_values(rank));
            let earlier = choose|j: int| first_least(shorter.map_values(rank), j);
            lemma_least_of_listed(shorter, rank, earlier);
            assert(shorter[earlier] == programs[earlier]);
            assert(keys[earlier] == rank(programs[earlier]));
            assert(keys[at] < keys[earlier]);
            assert(least(options.drop_last(), rank) == Some(programs[earlier]));
        } else {
            assert(first_least(shorter.map_values(rank), at)) by {
                assert forall|i: int| 0 <= i < shorter.len() implies shorter.map_values(rank)[at]
                    <= #[trigger] shorter.map_values(rank)[i] by {
                    assert(keys[at] <= keys[i]);
                }
                assert forall|i: int| 0 <= i < at implies shorter.map_values(rank)[at]
                    < #[trigger] shorter.map_values(rank)[i] by {
                    assert(keys[at] < keys[i]);
                }
            }
            lemma_least_of_listed(shorter, rank, at);
            assert(shorter[at] == programs[at]);
            assert(keys[at] <= keys[n - 1]);
            assert(least(options.drop_last(), rank) == Some(programs[at]));
        }
    }
}

/// A sequence that is not empty has a first place of a least key.
pub proof fn lemma_first_least_exists(keys: Seq<usize>)
    requires
        keys.len() > 0,
    ensures
        exists|at: int| first_least(keys, at),
    decreases keys.len(),
{
    if keys.len() == 1 {
        assert(first_least(keys, 0));
    } else {
        let shorter = keys.drop_last();
        lemma_first_least_exists(shorter);
        let at = choose|at: int| first_least(shorter, at);
        let n = keys.len() as int;
        if keys[n - 1] < keys[at] {
            assert(first_least(keys, n - 1)) by {
                assert forall|i: int| 0 <= i < keys.len() implies keys[n - 1] <= #[trigger] keys[i] by {
                    if i < n - 1 {
                        assert(shorter[at] <= shorter[i]);
                    }
                }
                assert forall|i: int| 0 <= i < n - 1 implies keys[n - 1] < #[trigger] keys[i] by {
                    assert(shorter[at] <= shorter[i]);
                }
            }
        } else {
            assert(first_least(keys, at)) by {
                assert forall|i: int| 0 <= i < keys.len() implies keys[at] <= #[trigger] keys[i] by {
                    if i < n - 1 {
                        assert(shorter[at] <= shorter[i]);
                    }
                }
                assert forall|i: int| 0 <= i < at implies keys[at] < #[trigger] keys[i] by {
                    assert(shorter[at] < shorter[i]);
                }
            }
        }
    }
}

/// The rank that a call gave is the rank of the program.
pub proof fn lemma_rank_value<F: Fn(&AST) -> usize>(rank: F, a: &AST, r: usize)
    requires
        ranks_programs(rank),
        rank.ensures((a,), r),
    ensures
        rank_of(rank)(a@) == r,
{
    assert(gives(rank, a@, r));
    let chosen = choose|c: usize| gives(rank, a@, c);
    assert(gives(rank, a@, chosen));
    let witness = choose|b: &AST| b@ == a@ && #[trigger] rank.ensures((b,), chosen);
    assert(rank.ensures((witness,), chosen));
}

/// The place that comes first in a sorted order is the first place of a least
/// key.
proof fn lemma_first_place(keys: Seq<usize>, order: Seq<usize>)
    requires
        keys.len() > 0,
        order.len() == keys.len(),
        forall|k: int| 0 <= k < order.len() ==> (#[trigger] order[k]) < keys.len(),
        forall|i: int| 0 <= i < keys.len() ==> #[trigger] placed(order, i),
        forall|a: int, b: int|
            0 <= a < b < order.len() ==> keys[(#[trigger] order[a]) as int] <= keys[(
            #[trigger] order[b]) as int],
        forall|a: int, b: int|
            0 <= a < b < order.len() && keys[(#[trigger] order[a]) as int] == keys[(
            #[trigger] order[b]) as int] ==> order[a] < order[b],
    ensures
        first_least(keys, order[0] as int),
{
    let at = order[0] as int;
    assert forall|i: int| 0 <= i < keys.len() implies keys[at] <= #[trigger] keys[i] by {
        assert(placed(order, i));
        let k = choose|k: int| 0 <= k < order.len() && #[trigger] order[k] == i;
        if k > 0 {
            assert(keys[order[0] as int] <= keys[order[k] as int]);
        }
    }
    assert forall|i: int| 0 <= i < at implies keys[at] < #[trigger] keys[i] by {
        assert(placed(order, i));
        let k = choose|k: int| 0 <= k < order.len() && #[trigger] order[k] == i;
        assert(k > 0);
        assert(keys[order[0] as int] <= keys[order[k] as int]);
        if keys[order[0] as int] == keys[order[k] as int] {
            assert(order[0] < order[k]);
        }
    }
}

/// A way to rank programs; the lower rank is the better.
pub trait Ranking {
    /// What the ranking needs to hold before it is asked.
    spec fn usable(&self) -> bool;

    /// The rank of a program.
    spec fn rank_spec(&self, p: AstV) -> usize;

    /// The rank of a program.
    fn rank(&self, a: &AST) -> (r: usize)
        requires
            self.usable(),
        ensures
            r == self.rank_spec(a@),
    ;
}

/// The ranking as a function on programs.
pub open spec fn ranking_of<R: Ranking>(ranking: R) -> spec_fn(AstV) -> usize {
    |p: AstV| ranking.rank_spec(p)
}

/// The ranking by cost.
pub struct ByCost;

impl Ranking for ByCost {
    open spec fn usable(&self) -> bool {
        true
    }

    open spec fn rank_spec(&self, p: AstV) -> usize {
        crate::lit::clipped(crate::ast::cost_of(p))
    }

    fn rank(&self, a: &AST) -> (r: usize) {
        crate::lit::Cost::cost(a)
    }
}

/// The ranking that a function gives.
pub struct ByFunction<F: Fn(&AST) -> usize>(pub F);

impl<F: Fn(&AST) -> usize> Ranking for ByFunction<F> {
    open spec fn usable(&self) -> bool {
        ranks_programs(self.0)
    }

    open spec fn rank_spec(&self, p: AstV) -> usize {
        rank_of(self.0)(p)
    }

    fn rank(&self, a: &AST) -> (r: usize) {
        let r = (self.0)(a);
        proof {
            lemma_rank_value(self.0, a, r);
        }
        r
    }
}

impl VSA {
    /// The best program of the space under the function that ranks programs,
    /// where the space has one.
    pub fn pick_best<F: Fn(&AST) -> usize + Copy>(&self, rank: F) -> (out: Option<AST>)
        requires
            ranks_programs(rank),
        ensures
            opt_ast_view(out) == best_of(self@, rank_of(rank)),
            out matches Some(p) ==> crate::vsa::holds(self@, p@),
    {
        let by = ByFunction(rank);
        proof {
            assert(ranking_of(by) =~= rank_of(rank));
        }
        self.pick_ranked(&by)
    }

    /// The best program of the space under the ranking, where it has one.
    #[verifier::loop_isolation(false)]
    pub fn pick_ranked<R: Ranking>(&self, ranking: &R) -> (out: Option<AST>)
        requires
            ranking.usable(),
        ensures
            opt_ast_view(out) == best_of(self@, ranking_of(*ranking)),
            out matches Some(p) ==> crate::vsa::holds(self@, p@),
        decreases self,
    {
        let ghost rf = ranking_of(*ranking);
        proof {
            crate::best_laws::lemma_best_is_held(self@, rf);
        }
        match self {
            VSA::Leaf(programs) => {
                let mut keys: Vec<usize> = Vec::new();
                let mut i: usize = 0;
                while i < programs.len()
                    invariant
                        i <= programs.len(),
                        keys@.len() == i,
                        forall|k: int| 0 <= k < i ==> #[trigger] keys@[k] == rf(programs@[k]@),
                    decreases programs.len() - i,
                {
                    let r = ranking.rank(&*programs[i]);
                    keys.push(r);
                    i += 1;
                }
                let order = sorted_places(&keys);
                if order.len() > 0 {
                    proof {
                        lemma_first_place(keys@, order@);
                        assert(keys@ =~= leaf_views(programs@).map_values(rf));
                        lemma_least_of_listed(leaf_views(programs@), rf, order@[0] as int);
                    }
                    Some((*programs[order[0]]).clone())
                } else {
                    proof {
                        assert(each_some(leaf_views(programs@)).len() == 0);
                    }
                    None
                }
            },
            VSA::Union(spaces) => {
                proof {
                    lemma_union_view(*spaces);
                    lemma_best_union(vsa_views(spaces@), rf);
                }
                let ghost bests = bests_of(vsa_views(spaces@), rf);
                let mut best: Option<AST> = None;
                let mut best_rank: usize = 0;
                let mut i: usize = 0;
                proof {
                    assert(bests.take(0).len() == 0);
                }
                while i < spaces.len()
                    invariant
                        i <= spaces.len(),
                        opt_ast_view(best) == least(bests.take(i as int), rf),
                        best matches Some(b) ==> best_rank == rf(b@),
                    decreases spaces.len() - i,
                {
                    proof {
                        assert(bests.take(i + 1).drop_last() =~= bests.take(i as int));
                        assert(bests.take(i + 1).last() == bests[i as int]);
                    }
                    match spaces[i].pick_ranked(ranking) {
                        Some(candidate) => {
                            let r = ranking.rank(&candidate);
                            if best.is_none() || r < best_rank {
                                best = Some(candidate);
                                best_rank = r;
                            }
                        },
                        None => {},
                    }
                    i += 1;
                }
                proof {
                    assert(bests.take(i as int) =~= bests);
                }
                best
            },
            VSA::Join { op, children, children_goals } => {
                proof {
                    lemma_join_view(*op, *children, *children_goals);
                    lemma_best_join(*op, vsa_views(children@), lit_views(children_goals@), rf);
                }
                let ghost bests = bests_of(vsa_views(children@), rf);
                let mut args: Vec<AST> = Vec::new();
                let mut i: usize = 0;
                while i < children.len()
                    invariant
                        i <= children.len(),
                        args@.len() == i,
                        forall|k: int|
                            #![trigger bests[k]]
                            #![trigger args@[k]]
                            0 <= k < i ==> bests[k] == Some(args@[k]@),
                    decreases children.len() - i,
                {
                    match children[i].pick_ranked(ranking) {
                        Some(p) => {
                            args.push(p);
                        },
                        None => {
                            assert(bests[i as int] is None);
                            return None;
                        },
                    }
                    i += 1;
                }
                proof {
                    lemma_app_view(*op, args);
                    assert(ast_views(args@) =~= Seq::new(
                        children@.len() as nat,
                        |i: int| bests[i]->0,
                    ));
                }
                Some(AST::App { fun: *op, args })
            },
            VSA::Unlearned { start, goal } => None,
        }
    }
}

} // verus!
