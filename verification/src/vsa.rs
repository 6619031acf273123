use std::rc::Rc;
use vstd::prelude::*;
use crate::ast::ast_views;
use crate::ast::lemma_app_view;
use crate::ast::AstV;
use crate::ast::AST;
use crate::fun::arity;
use crate::fun::Fun;
use crate::lit::lit_views;
use crate::lit::Lit;
use crate::lit::LitV;

verus! {

/// What a version space stands for in contracts.
pub enum VsaV {
    Leaf(Seq<AstV>),
    Union(Seq<VsaV>),
    Join { op: Fun, children: Seq<VsaV>, children_goals: Seq<LitV> },
    Unlearned { start: LitV, goal: LitV },
}

/// A version space: a set of programs, held as a listed set, a union of spaces,
/// the applications of one operator to programs of its argument spaces, or a
/// goal that has not been worked out yet.
#[derive(Debug)]
pub enum VSA {
    Leaf(Vec<Rc<AST>>),
    Union(Vec<Rc<VSA>>),
    Join { op: Fun, children: Vec<Rc<VSA>>, children_goals: Vec<Lit> },
    Unlearned { start: Lit, goal: Lit },
}

/// The views of the programs of a leaf.
pub open spec fn leaf_views(programs: Seq<Rc<AST>>) -> Seq<AstV> {
    Seq::new(programs.len(), |i: int| programs[i]@)
}

/// The views of a sequence of spaces.
pub open spec fn vsa_views(spaces: Seq<Rc<VSA>>) -> Seq<VsaV> {
    Seq::new(spaces.len(), |i: int| spaces[i]@)
}

impl VSA {
    /// What the space stands for in contracts.
    pub open spec fn model(&self) -> VsaV
        decreases self,
    {
        match self {
            VSA::Leaf(programs) => VsaV::Leaf(leaf_views(programs@)),
            VSA::Union(spaces) => VsaV::Union(
                Seq::new(
                    spaces@.len(),
                    |i: int|
                        if 0 <= i < spaces@.len() {
                            spaces@[i].model()
                        } else {
                            VsaV::Leaf(Seq::empty())
                        },
                ),
            ),
            VSA::Join { op, children, children_goals } => VsaV::Join {
                op: *op,
                children: Seq::new(
                    children@.len(),
                    |i: int|
                        if 0 <= i < children@.len() {
                            children@[i].model()
                        } else {
                            VsaV::Leaf(Seq::empty())
                        },
                ),
                children_goals: lit_views(children_goals@),
            },
            VSA::Unlearned { start, goal } => VsaV::Unlearned { start: start@, goal: goal@ },
        }
    }
}

impl View for VSA {
    type V = VsaV;

    open spec fn view(&self) -> VsaV {
        self.model()
    }
}

/// The spaces of a union are viewed one by one.
pub proof fn lemma_union_view(spaces: Vec<Rc<VSA>>)
    ensures
        VSA::Union(spaces)@ == VsaV::Union(vsa_views(spaces@)),
{
    assert(VSA::Union(spaces)@->Union_0 =~= vsa_views(spaces@));
}

/// The argument spaces of a join are viewed one by one.
pub proof fn lemma_join_view(op: Fun, children: Vec<Rc<VSA>>, children_goals: Vec<Lit>)
    ensures
        (VSA::Join { op, children, children_goals })@ == (VsaV::Join {
            op,
            children: vsa_views(children@),
            children_goals: lit_views(children_goals@),
        }),
{
    assert((VSA::Join { op, children, children_goals })@->Join_children =~= vsa_views(children@));
}

/// Whether the space holds the program.
pub open spec fn holds(v: VsaV, p: AstV) -> bool
    decreases v,
{
    match v {
        VsaV::Leaf(programs) => programs.contains(p),
        VsaV::Union(spaces) => exists|i: int|
            #![trigger spaces[i]]
            0 <= i < spaces.len() && holds(spaces[i], p),
        VsaV::Join { op, children, children_goals } => match p {
            AstV::App { fun, args } => {
                &&& fun == op
                &&& args.len() == children.len()
                &&& forall|i: int|
                    #![trigger children[i]]
                    0 <= i < children.len() ==> holds(children[i], args[i])
            },
            _ => false,
        },
        VsaV::Unlearned { start, goal } => false,
    }
}

/// Whether the space is built as it should be: no leaf lists a program twice,
/// and each join has as many argument spaces and goals as its operator takes
/// arguments.
pub open spec fn well_formed(v: VsaV) -> bool
    decreases v,
{
    match v {
        VsaV::Leaf(programs) => programs.no_duplicates(),
        VsaV::Union(spaces) => forall|i: int|
            #![trigger spaces[i]]
            0 <= i < spaces.len() ==> well_formed(spaces[i]),
        VsaV::Join { op, children, children_goals } => {
            &&& children.len() == arity(op)
            &&& children_goals.len() == arity(op)
            &&& forall|i: int|
                #![trigger children[i]]
                0 <= i < children.len() ==> well_formed(children[i])
        },
        VsaV::Unlearned { start, goal } => true,
    }
}

/// What a member of a union holds, the union holds.
pub proof fn lemma_member_holds(spaces: Seq<VsaV>, i: int, p: AstV)
    requires
        0 <= i < spaces.len(),
        holds(spaces[i], p),
    ensures
        holds(VsaV::Union(spaces), p),
{
    let v = VsaV::Union(spaces);
    assert(holds(v->Union_0[i], p));
}

/// `Rc::clone`: another handle to the same value.
#[verifier::external_body]
pub(crate) fn share<T>(handle: &Rc<T>) -> (out: Rc<T>)
    ensures
        out == *handle,
{
    Rc::clone(handle)
}

/// Whether the listed programs include the program.
pub fn lists(programs: &Vec<Rc<AST>>, program: &AST) -> (yes: bool)
    ensures
        yes == leaf_views(programs@).contains(program@),
{
    let mut i: usize = 0;
    while i < programs.len()
        invariant
            i <= programs.len(),
            forall|k: int| 0 <= k < i ==> (#[trigger] leaf_views(programs@)[k]) != program@,
        decreases programs.len() - i,
    {
        if programs[i].same(program) {
            assert(leaf_views(programs@)[i as int] == program@);
            return true;
        }
        i += 1;
    }
    false
}

/// The programs of `left`, then those of `right` that `left` does not list.
pub open spec fn listed_union(left: Seq<AstV>, right: Seq<AstV>) -> Seq<AstV> {
    left + right.filter(|p: AstV| !left.contains(p))
}

/// The union of two spaces: two leaves become one; a union takes the other
/// space as one more member; otherwise the two become the members of a union.
pub open spec fn unified(left: VsaV, right: VsaV) -> VsaV {
    match (left, right) {
        (VsaV::Leaf(l), VsaV::Leaf(r)) => VsaV::Leaf(listed_union(l, r)),
        (VsaV::Union(members), _) => VsaV::Union(members.push(right)),
        (_, VsaV::Union(members)) => VsaV::Union(members.push(left)),
        _ => VsaV::Union(seq![left, right]),
    }
}

/// The first program of a space: of a leaf its first, of a union that of its
/// first member that has one, of a join the operator applied to those of its
/// argument spaces where each has one.
pub open spec fn picked(v: VsaV) -> Option<AstV>
    decreases v, 1nat,
{
    match v {
        VsaV::Leaf(programs) => if programs.len() > 0 {
            Some(programs[0])
        } else {
            None
        },
        VsaV::Union(spaces) => first_some(member_picks(v)),
        VsaV::Join { op, children, children_goals } => {
            let picks = member_picks(v);
            if forall|i: int| 0 <= i < picks.len() ==> (#[trigger] picks[i]) is Some {
                Some(AstV::App { fun: op, args: Seq::new(picks.len(), |i: int| picks[i]->0) })
            } else {
                None
            }
        },
        VsaV::Unlearned { start, goal } => None,
    }
}

/// The first programs of the members of a union or of the argument spaces of a
/// join.
pub open spec fn member_picks(v: VsaV) -> Seq<Option<AstV>>
    decreases v, 0nat,
{
    match v {
        VsaV::Union(spaces) => Seq::new(
            spaces.len(),
            |i: int|
                if 0 <= i < spaces.len() {
                    picked(spaces[i])
                } else {
                    None
                },
        ),
        VsaV::Join { op, children, children_goals } => Seq::new(
            children.len(),
            |i: int|
                if 0 <= i < children.len() {
                    picked(children[i])
                } else {
                    None
                },
        ),
        _ => Seq::empty(),
    }
}

/// The first of the options that is there.
pub open spec fn first_some(options: Seq<Option<AstV>>) -> Option<AstV>
    decreases options.len(),
{
    if options.len() == 0 {
        None
    } else if options[0] is Some {
        options[0]
    } else {
        first_some(options.drop_first())
    }
}

/// The first programs of a sequence of spaces.
pub open spec fn picks_of(spaces: Seq<VsaV>) -> Seq<Option<AstV>> {
    Seq::new(spaces.len(), |i: int| picked(spaces[i]))
}

/// Whether the space counts as empty: it has no first program and is no goal
/// left open.
pub open spec fn is_empty_spec(v: VsaV) -> bool {
    !(v is Unlearned) && picked(v) is None
}

/// The view of a program that may be missing.
pub open spec fn opt_ast_view(p: Option<AST>) -> Option<AstV> {
    match p {
        Some(a) => Some(a@),
        None => None,
    }
}

impl VSA {
    /// The space that holds no program.
    pub fn empty() -> (out: VSA)
        ensures
            out@ == VsaV::Leaf(Seq::empty()),
            well_formed(out@),
    {
        let out = VSA::Leaf(Vec::new());
        assert(out@->Leaf_0 =~= Seq::empty());
        out
    }

    /// The space that holds the one program.
    pub fn singleton(ast: AST) -> (out: VSA)
        ensures
            out@ == VsaV::Leaf(seq![ast@]),
            well_formed(out@),
    {
        let mut programs: Vec<Rc<AST>> = Vec::new();
        programs.push(Rc::new(ast));
        let out = VSA::Leaf(programs);
        assert(out@->Leaf_0 =~= seq![ast@]);
        out
    }

    /// The union of the two spaces.
    pub fn unify(left: Rc<VSA>, right: Rc<VSA>) -> (out: VSA)
        ensures
            out@ == unified(left@, right@),
            well_formed(left@) && well_formed(right@) ==> well_formed(out@),
    {
        proof {
            if well_formed(left@) && well_formed(right@) {
                crate::wf_laws::lemma_unified_well_formed(left@, right@);
            }
        }
        match (&*left, &*right) {
            (VSA::Leaf(l), VSA::Leaf(r)) => {
                let mut programs: Vec<Rc<AST>> = Vec::new();
                let mut i: usize = 0;
                while i < l.len()
                    invariant
                        i <= l.len(),
                        leaf_views(programs@) == leaf_views(l@).take(i as int),
                    decreases l.len() - i,
                {
                    let ghost before = programs@;
                    programs.push(share(&l[i]));
                    proof {
                        assert(leaf_views(programs@) =~= leaf_views(before).push(l@[i as int]@));
                        assert(leaf_views(l@).take(i + 1) =~= leaf_views(l@).take(i as int).push(
                            l@[i as int]@,
                        ));
                    }
                    i += 1;
                }
                proof {
                    assert(leaf_views(l@).take(i as int) =~= leaf_views(l@));
                }
                let ghost keep = |p: AstV| !leaf_views(l@).contains(p);
                let mut j: usize = 0;
                while j < r.len()
                    invariant
                        j <= r.len(),
                        keep == |p: AstV| !leaf_views(l@).contains(p),
                        leaf_views(programs@) == leaf_views(l@) + leaf_views(r@).take(
                            j as int,
                        ).filter(keep),
                    decreases r.len() - j,
                {
                    proof {
                        let before = leaf_views(r@).take(j as int);
                        assert(leaf_views(r@).take(j + 1) =~= before.push(leaf_views(r@)[j as int]));
                        before.lemma_filter_push(leaf_views(r@)[j as int], keep);
                    }
                    if !lists(l, &r[j]) {
                        let ghost before = programs@;
                        programs.push(share(&r[j]));
                        proof {
                            assert(leaf_views(programs@) =~= leaf_views(before).push(r@[j as int]@));
                            assert(leaf_views(before).push(r@[j as int]@) =~= leaf_views(l@) + leaf_views(
                                r@,
                            ).take(j as int).filter(keep).push(r@[j as int]@));
                        }
                    }
                    j += 1;
                }
                proof {
                    assert(leaf_views(r@).take(j as int) =~= leaf_views(r@));
                }
                VSA::Leaf(programs)
            },
            (VSA::Union(members), _) => {
                let mut spaces = copy_spaces(members);
                spaces.push(share(&right));
                proof {
                    lemma_union_view(*members);
                    lemma_union_view(spaces);
                    assert(vsa_views(spaces@) =~= vsa_views(members@).push(right@));
                }
                VSA::Union(spaces)
            },
            (_, VSA::Union(members)) => {
                let mut spaces = copy_spaces(members);
                spaces.push(share(&left));
                proof {
                    lemma_union_view(*members);
                    lemma_union_view(spaces);
                    assert(vsa_views(spaces@) =~= vsa_views(members@).push(left@));
                }
                VSA::Union(spaces)
            },
            _ => {
                let mut spaces: Vec<Rc<VSA>> = Vec::new();
                spaces.push(share(&left));
                spaces.push(share(&right));
                proof {
                    lemma_union_view(spaces);
                    assert(vsa_views(spaces@) =~= seq![left@, right@]);
                }
                VSA::Union(spaces)
            },
        }
    }

    /// Whether the space holds the program.
    #[verifier::loop_isolation(false)]
    pub fn contains(&self, program: &AST) -> (yes: bool)
        ensures
            yes == holds(self@, program@),
        decreases self,
    {
        match self {
            VSA::Leaf(programs) => lists(programs, program),
            VSA::Union(spaces) => {
                proof {
                    lemma_union_view(*spaces);
                }
                let mut i: usize = 0;
                while i < spaces.len()
                    invariant
                        i <= spaces.len(),
                        forall|k: int| 0 <= k < i ==> !holds(#[trigger] vsa_views(spaces@)[k], program@),
                    decreases spaces.len() - i,
                {
                    if spaces[i].contains(program) {
                        assert(holds(vsa_views(spaces@)[i as int], program@));
                        proof {
                            lemma_member_holds(vsa_views(spaces@), i as int, program@);
                        }
                        return true;
                    }
                    i += 1;
                }
                false
            },
            VSA::Join { op, children, children_goals } => {
                proof {
                    lemma_join_view(*op, *children, *children_goals);
                }
                match program {
                    AST::App { fun, args } => {
                        proof {
                            lemma_app_view(*fun, *args);
                        }
                        if *fun != *op || args.len() != children.len() {
                            return false;
                        }
                        let mut i: usize = 0;
                        while i < children.len()
                            invariant
                                i <= children.len(),
                                forall|k: int|
                                    0 <= k < i ==> holds(
                                        #[trigger] vsa_views(children@)[k],
                                        ast_views(args@)[k],
                                    ),
                            decreases children.len() - i,
                        {
                            if !children[i].contains(&args[i]) {
                                assert(!holds(
                                    vsa_views(children@)[i as int],
                                    ast_views(args@)[i as int],
                                ));
                                return false;
                            }
                            i += 1;
                        }
                        true
                    },
                    _ => false,
                }
            },
            VSA::Unlearned { start, goal } => false,
        }
    }
}

/// The first of the options that is there comes after those that are missing.
pub proof fn lemma_first_some(options: Seq<Option<AstV>>, i: int)
    requires
        0 <= i < options.len(),
        options[i] is Some,
        forall|k: int| 0 <= k < i ==> (#[trigger] options[k]) is None,
    ensures
        first_some(options) == options[i],
    decreases i,
{
    if i > 0 {
        assert(options[0] is None);
        let rest = options.drop_first();
        assert forall|k: int| 0 <= k < i - 1 implies (#[trigger] rest[k]) is None by {
            assert(options[k + 1] is None);
        }
        lemma_first_some(rest, i - 1);
    }
}

/// Where every option is missing, so is the first that is there.
pub proof fn lemma_first_some_none(options: Seq<Option<AstV>>)
    requires
        forall|k: int| 0 <= k < options.len() ==> (#[trigger] options[k]) is None,
    ensures
        first_some(options) is None,
    decreases options.len(),
{
    if options.len() > 0 {
        assert(options[0] is None);
        let rest = options.drop_first();
        assert forall|k: int| 0 <= k < rest.len() implies (#[trigger] rest[k]) is None by {
            assert(options[k + 1] is None);
        }
        lemma_first_some_none(rest);
    }
}

/// The first program of a union is the first that a member has.
pub proof fn lemma_picked_union(spaces: Seq<VsaV>)
    ensures
        picked(VsaV::Union(spaces)) == first_some(picks_of(spaces)),
{
    assert(member_picks(VsaV::Union(spaces)) =~= picks_of(spaces));
}

/// The first program of a join applies the operator to the first programs of
/// the argument spaces.
pub proof fn lemma_picked_join(op: Fun, children: Seq<VsaV>, children_goals: Seq<LitV>)
    ensures
        picked(VsaV::Join { op, children, children_goals }) == if forall|i: int|
            0 <= i < children.len() ==> (#[trigger] picks_of(children)[i]) is Some {
            Some(
                AstV::App {
                    fun: op,
                    args: Seq::new(children.len(), |i: int| picks_of(children)[i]->0),
                },
            )
        } else {
            None
        },
{
    let v = VsaV::Join { op, children, children_goals };
    assert(member_picks(v) =~= picks_of(children));
    let picks = member_picks(v);
    if forall|i: int| 0 <= i < picks.len() ==> (#[trigger] picks[i]) is Some {
        assert(Seq::new(picks.len(), |i: int| picks[i]->0) =~= Seq::new(
            children.len(),
            |i: int| picks_of(children)[i]->0,
        ));
    }
}

impl VSA {
    /// The first program of the space, where it has one.
    #[verifier::loop_isolation(false)]
    pub fn pick_one(&self) -> (out: Option<AST>)
        ensures
            opt_ast_view(out) == picked(self@),
            out matches Some(p) ==> holds(self@, p@),
        decreases self,
    {
        proof {
            crate::laws::lemma_picked_is_held(self@);
        }
        match self {
            VSA::Leaf(programs) => {
                if programs.len() > 0 {
                    Some((*programs[0]).clone())
                } else {
                    None
                }
            },
            VSA::Union(spaces) => {
                proof {
                    lemma_union_view(*spaces);
                    lemma_picked_union(vsa_views(spaces@));
                }
                let ghost picks = picks_of(vsa_views(spaces@));
                let mut i: usize = 0;
                while i < spaces.len()
                    invariant
                        i <= spaces.len(),
                        forall|k: int| 0 <= k < i ==> (#[trigger] picks[k]) is None,
                    decreases spaces.len() - i,
                {
                    match spaces[i].pick_one() {
                        Some(p) => {
                            proof {
                                assert(picks[i as int] == Some(p@));
                                lemma_first_some(picks, i as int);
                            }
                            return Some(p);
                        },
                        None => {
                            assert(picks[i as int] is None);
                        },
                    }
                    i += 1;
                }
                proof {
                    lemma_first_some_none(picks);
                }
                None
            },
            VSA::Join { op, children, children_goals } => {
                proof {
                    lemma_join_view(*op, *children, *children_goals);
                    lemma_picked_join(*op, vsa_views(children@), lit_views(children_goals@));
                }
                let ghost picks = picks_of(vsa_views(children@));
                let mut args: Vec<AST> = Vec::new();
                let mut i: usize = 0;
                while i < children.len()
                    invariant
                        i <= children.len(),
                        args@.len() == i,
                        forall|k: int|
                            #![trigger picks[k]]
                            #![trigger args@[k]]
                            0 <= k < i ==> picks[k] == Some(args@[k]@),
                    decreases children.len() - i,
                {
                    match children[i].pick_one() {
                        Some(p) => {
                            args.push(p);
                        },
                        None => {
                            assert(picks[i as int] is None);
                            return None;
                        },
                    }
                    i += 1;
                }
                proof {
                    lemma_app_view(*op, args);
                    assert(ast_views(args@) =~= Seq::new(
                        children@.len() as nat,
                        |i: int| picks[i]->0,
                    ));
                }
                Some(AST::App { fun: *op, args })
            },
            VSA::Unlearned { start, goal } => None,
        }
    }

    /// Whether the space counts as empty: it has no first program and is no goal
    /// left open.
    pub fn is_empty(&self) -> (yes: bool)
        ensures
            yes == is_empty_spec(self@),
    {
        match self {
            VSA::Unlearned { start, goal } => false,
            _ => self.pick_one().is_none(),
        }
    }
}

/// The number of nodes of a space.
pub open spec fn weight(v: VsaV) -> nat
    decreases v, 1nat,
{
    match v {
        VsaV::Union(spaces) => 1 + crate::ast::sum(member_weights(v)),
        VsaV::Join { op, children, children_goals } => 1 + crate::ast::sum(member_weights(v)),
        _ => 1,
    }
}

/// The numbers of nodes of the members of a union or of the argument spaces of
/// a join.
pub open spec fn member_weights(v: VsaV) -> Seq<nat>
    decreases v, 0nat,
{
    match v {
        VsaV::Union(spaces) => Seq::new(
            spaces.len(),
            |i: int|
                if 0 <= i < spaces.len() {
                    weight(spaces[i])
                } else {
                    0
                },
        ),
        VsaV::Join { op, children, children_goals } => Seq::new(
            children.len(),
            |i: int|
                if 0 <= i < children.len() {
                    weight(children[i])
                } else {
                    0
                },
        ),
        _ => Seq::empty(),
    }
}

/// No number of a sequence is more than its sum.
pub proof fn lemma_sum_bounds(xs: Seq<nat>, i: int)
    requires
        0 <= i < xs.len(),
    ensures
        xs[i] <= crate::ast::sum(xs),
    decreases xs.len(),
{
    if i < xs.len() - 1 {
        lemma_sum_bounds(xs.drop_last(), i);
    }
}

/// A member of a union has fewer nodes than the union.
pub proof fn lemma_weight_member(spaces: Seq<VsaV>, i: int)
    requires
        0 <= i < spaces.len(),
    ensures
        weight(spaces[i]) < weight(VsaV::Union(spaces)),
{
    lemma_sum_bounds(member_weights(VsaV::Union(spaces)), i);
}

/// An argument space of a join has fewer nodes than the join.
pub proof fn lemma_weight_child(op: Fun, children: Seq<VsaV>, children_goals: Seq<LitV>, i: int)
    requires
        0 <= i < children.len(),
    ensures
        weight(children[i]) < weight(VsaV::Join { op, children, children_goals }),
{
    lemma_sum_bounds(member_weights(VsaV::Join { op, children, children_goals }), i);
}

/// The test whether a space holds a program.
pub open spec fn held_by(v: VsaV) -> spec_fn(AstV) -> bool {
    |p: AstV| holds(v, p)
}

/// The smaller of two lengths.
pub open spec fn shorter(a: nat, b: nat) -> nat {
    if a <= b {
        a
    } else {
        b
    }
}

/// The intersection of two spaces. A union is intersected member by member
/// with the other space; two joins of one operator argument by argument; a leaf
/// keeps the programs that the other space holds; joins of different operators,
/// and anything with a goal left open, give the empty space.
pub open spec fn intersected(a: VsaV, b: VsaV) -> VsaV
    decreases weight(a) + weight(b),
    via intersected_decreases
{
    match (a, b) {
        (_, VsaV::Union(members)) => VsaV::Union(
            Seq::new(
                members.len(),
                |i: int|
                    if 0 <= i < members.len() {
                        intersected(members[i], a)
                    } else {
                        VsaV::Leaf(Seq::empty())
                    },
            ),
        ),
        (VsaV::Union(members), _) => VsaV::Union(
            Seq::new(
                members.len(),
                |i: int|
                    if 0 <= i < members.len() {
                        intersected(members[i], b)
                    } else {
                        VsaV::Leaf(Seq::empty())
                    },
            ),
        ),
        (
            VsaV::Join { op, children, children_goals },
            VsaV::Join { op: other_op, children: other_children, children_goals: _ },
        ) => if op != other_op {
            VsaV::Leaf(Seq::empty())
        } else {
            VsaV::Join {
                op,
                children: Seq::new(
                    shorter(children.len(), other_children.len()),
                    |i: int|
                        if 0 <= i < children.len() && i < other_children.len() {
                            intersected(children[i], other_children[i])
                        } else {
                            VsaV::Leaf(Seq::empty())
                        },
                ),
                children_goals,
            }
        },
        (VsaV::Join { .. }, VsaV::Leaf(programs)) => VsaV::Leaf(programs.filter(held_by(a))),
        (VsaV::Leaf(programs), VsaV::Join { .. }) => VsaV::Leaf(programs.filter(held_by(b))),
        (VsaV::Leaf(programs), VsaV::Leaf(others)) => VsaV::Leaf(
            programs.filter(held_by(VsaV::Leaf(others))),
        ),
        _ => VsaV::Leaf(Seq::empty()),
    }
}

#[via_fn]
proof fn intersected_decreases(a: VsaV, b: VsaV) {
    match (a, b) {
        (_, VsaV::Union(members)) => {
            assert forall|i: int| 0 <= i < members.len() implies weight(#[trigger] members[i])
                < weight(b) by {
                lemma_weight_member(members, i);
            }
        },
        (VsaV::Union(members), _) => {
            assert forall|i: int| 0 <= i < members.len() implies weight(#[trigger] members[i])
                < weight(a) by {
                lemma_weight_member(members, i);
            }
        },
        (
            VsaV::Join { op, children, children_goals },
            VsaV::Join { op: other_op, children: other_children, children_goals: other_goals },
        ) => {
            assert forall|i: int| 0 <= i < children.len() implies weight(#[trigger] children[i])
                < weight(a) by {
                lemma_weight_child(op, children, children_goals, i);
            }
            assert forall|i: int| 0 <= i < other_children.len() implies weight(
                #[trigger] other_children[i],
            ) < weight(b) by {
                lemma_weight_child(other_op, other_children, other_goals, i);
            }
        },
        _ => {},
    }
}

/// The intersection with a union on the right, member by member.
pub proof fn lemma_intersected_union_right(a: VsaV, members: Seq<VsaV>)
    ensures
        intersected(a, VsaV::Union(members)) == VsaV::Union(
            Seq::new(members.len(), |i: int| intersected(members[i], a)),
        ),
{
    assert(intersected(a, VsaV::Union(members))->Union_0 =~= Seq::new(
        members.len(),
        |i: int| intersected(members[i], a),
    ));
}

/// The intersection of a union on the left with a space that is no union,
/// member by member.
pub proof fn lemma_intersected_union_left(members: Seq<VsaV>, b: VsaV)
    requires
        !(b is Union),
    ensures
        intersected(VsaV::Union(members), b) == VsaV::Union(
            Seq::new(members.len(), |i: int| intersected(members[i], b)),
        ),
{
    assert(intersected(VsaV::Union(members), b)->Union_0 =~= Seq::new(
        members.len(),
        |i: int| intersected(members[i], b),
    ));
}

/// The intersection of two joins of one operator, argument by argument.
pub proof fn lemma_intersected_joins(
    op: Fun,
    children: Seq<VsaV>,
    children_goals: Seq<LitV>,
    other_children: Seq<VsaV>,
    other_goals: Seq<LitV>,
)
    ensures
        intersected(
            VsaV::Join { op, children, children_goals },
            VsaV::Join { op, children: other_children, children_goals: other_goals },
        ) == (VsaV::Join {
            op,
            children: Seq::new(
                shorter(children.len(), other_children.len()),
                |i: int| intersected(children[i], other_children[i]),
            ),
            children_goals,
        }),
{
    assert(intersected(
        VsaV::Join { op, children, children_goals },
        VsaV::Join { op, children: other_children, children_goals: other_goals },
    )->Join_children =~= Seq::new(
        shorter(children.len(), other_children.len()),
        |i: int| intersected(children[i], other_children[i]),
    ));
}

/// The listed programs that the space holds, in their order.
pub fn keep_held(programs: &Vec<Rc<AST>>, space: &VSA) -> (out: Vec<Rc<AST>>)
    ensures
        leaf_views(out@) == leaf_views(programs@).filter(held_by(space@)),
{
    let mut out: Vec<Rc<AST>> = Vec::new();
    let mut i: usize = 0;
    proof {
        reveal(Seq::filter);
        assert(leaf_views(programs@).take(0) =~= Seq::empty());
    }
    while i < programs.len()
        invariant
            i <= programs.len(),
            leaf_views(out@) =~= leaf_views(programs@).take(i as int).filter(held_by(space@)),
        decreases programs.len() - i,
    {
        proof {
            let before = leaf_views(programs@).take(i as int);
            assert(leaf_views(programs@).take(i + 1) =~= before.push(programs@[i as int]@));
            before.lemma_filter_push(programs@[i as int]@, held_by(space@));
        }
        if space.contains(&programs[i]) {
            let ghost before = out@;
            out.push(share(&programs[i]));
            proof {
                assert(leaf_views(out@) =~= leaf_views(before).push(programs@[i as int]@));
            }
        }
        i += 1;
    }
    proof {
        assert(leaf_views(programs@).take(i as int) =~= leaf_views(programs@));
    }
    out
}

impl VSA {
    /// The intersection of the two spaces.
    #[verifier::loop_isolation(false)]
    pub fn intersect(&self, other: &VSA) -> (out: VSA)
        ensures
            out@ == intersected(self@, other@),
            well_formed(self@) && well_formed(other@) ==> well_formed(out@),
        decreases weight(self@) + weight(other@),
    {
        proof {
            if well_formed(self@) && well_formed(other@) {
                crate::wf_laws::lemma_intersected_well_formed(self@, other@);
            }
        }
        match (self, other) {
            (_, VSA::Union(members)) => {
                proof {
                    lemma_union_view(*members);
                    lemma_intersected_union_right(self@, vsa_views(members@));
                }
                let mut spaces: Vec<Rc<VSA>> = Vec::new();
                let mut i: usize = 0;
                while i < members.len()
                    invariant
                        i <= members.len(),
                        spaces@.len() == i,
                        forall|k: int|
                            0 <= k < i ==> (#[trigger] spaces@[k])@ == intersected(
                                vsa_views(members@)[k],
                                self@,
                            ),
                    decreases members.len() - i,
                {
                    proof {
                        lemma_weight_member(vsa_views(members@), i as int);
                    }
                    spaces.push(Rc::new(members[i].intersect(self)));
                    i += 1;
                }
                proof {
                    lemma_union_view(spaces);
                    assert(vsa_views(spaces@) =~= Seq::new(
                        vsa_views(members@).len(),
                        |i: int| intersected(vsa_views(members@)[i], self@),
                    ));
                }
                VSA::Union(spaces)
            },
            (VSA::Union(members), _) => {
                proof {
                    lemma_union_view(*members);
                    lemma_intersected_union_left(vsa_views(members@), other@);
                }
                let mut spaces: Vec<Rc<VSA>> = Vec::new();
                let mut i: usize = 0;
                while i < members.len()
                    invariant
                        i <= members.len(),
                        spaces@.len() == i,
                        forall|k: int|
                            0 <= k < i ==> (#[trigger] spaces@[k])@ == intersected(
                                vsa_views(members@)[k],
                                other@,
                            ),
                    decreases members.len() - i,
                {
                    proof {
                        lemma_weight_member(vsa_views(members@), i as int);
                    }
                    spaces.push(Rc::new(members[i].intersect(other)));
                    i += 1;
                }
                proof {
                    lemma_union_view(spaces);
                    assert(vsa_views(spaces@) =~= Seq::new(
                        vsa_views(members@).len(),
                        |i: int| intersected(vsa_views(members@)[i], other@),
                    ));
                }
                VSA::Union(spaces)
            },
            (
                VSA::Join { op, children, children_goals },
                VSA::Join { op: other_op, children: other_children, children_goals: other_goals },
            ) => {
                proof {
                    lemma_join_view(*op, *children, *children_goals);
                    lemma_join_view(*other_op, *other_children, *other_goals);
                }
                if *op != *other_op {
                    return VSA::empty();
                }
                proof {
                    lemma_intersected_joins(
                        *op,
                        vsa_views(children@),
                        lit_views(children_goals@),
                        vsa_views(other_children@),
                        lit_views(other_goals@),
                    );
                }
                let mut spaces: Vec<Rc<VSA>> = Vec::new();
                let mut i: usize = 0;
                while i < children.len() && i < other_children.len()
                    invariant
                        i <= children.len(),
                        i <= other_children.len(),
                        spaces@.len() == i,
                        forall|k: int|
                            0 <= k < i ==> (#[trigger] spaces@[k])@ == intersected(
                                vsa_views(children@)[k],
                                vsa_views(other_children@)[k],
                            ),
                    decreases children.len() - i,
                {
                    proof {
                        lemma_weight_child(
                            *op,
                            vsa_views(children@),
                            lit_views(children_goals@),
                            i as int,
                        );
                        lemma_weight_child(
                            *other_op,
                            vsa_views(other_children@),
                            lit_views(other_goals@),
                            i as int,
                        );
                    }
                    spaces.push(Rc::new(children[i].intersect(&other_children[i])));
                    i += 1;
                }
                let goals = copy_lits(children_goals);
                proof {
                    lemma_join_view(*op, spaces, goals);
                    assert(vsa_views(spaces@) =~= Seq::new(
                        shorter(vsa_views(children@).len(), vsa_views(other_children@).len()),
                        |i: int| intersected(vsa_views(children@)[i], vsa_views(other_children@)[i]),
                    ));
                }
                VSA::Join { op: *op, children: spaces, children_goals: goals }
            },
            (VSA::Join { .. }, VSA::Leaf(programs)) => VSA::Leaf(keep_held(programs, self)),
            (VSA::Leaf(programs), VSA::Join { .. }) => VSA::Leaf(keep_held(programs, other)),
            (VSA::Leaf(programs), VSA::Leaf(_)) => VSA::Leaf(keep_held(programs, other)),
            _ => VSA::empty(),
        }
    }
}

/// Copies of the literals.
pub fn copy_lits(lits: &Vec<Lit>) -> (out: Vec<Lit>)
    ensures
        lit_views(out@) == lit_views(lits@),
{
    let mut out: Vec<Lit> = Vec::new();
    let mut i: usize = 0;
    while i < lits.len()
        invariant
            i <= lits.len(),
            out@.len() == i,
            forall|k: int| 0 <= k < i ==> (#[trigger] out@[k])@ == lits@[k]@,
        decreases lits.len() - i,
    {
        out.push(lits[i].clone());
        i += 1;
    }
    assert(lit_views(out@) =~= lit_views(lits@));
    out
}

/// Whether no program is listed twice.
pub fn lists_once(programs: &Vec<Rc<AST>>) -> (yes: bool)
    ensures
        yes == leaf_views(programs@).no_duplicates(),
{
    let ghost views = leaf_views(programs@);
    let mut i: usize = 0;
    while i < programs.len()
        invariant
            i <= programs.len(),
            views == leaf_views(programs@),
            forall|a: int, b: int| 0 <= a < b < i ==> views[a] != views[b],
        decreases programs.len() - i,
    {
        let mut j: usize = 0;
        while j < i
            invariant
                j <= i,
                i < programs.len(),
                views == leaf_views(programs@),
                forall|a: int| 0 <= a < j ==> views[a] != views[i as int],
            decreases i - j,
        {
            if programs[j].same(&programs[i]) {
                assert(views[j as int] == views[i as int]);
                return false;
            }
            j += 1;
        }
        i += 1;
    }
    assert forall|a: int, b: int| 0 <= a < views.len() && 0 <= b < views.len() && a
        != b implies views[a] != views[b] by {
        if a < b {
            assert(views[a] != views[b]);
        } else {
            assert(views[b] != views[a]);
        }
    }
    true
}

impl VSA {
    /// Whether the space is built as it should be.
    #[verifier::loop_isolation(false)]
    pub fn is_well_formed(&self) -> (yes: bool)
        ensures
            yes == well_formed(self@),
        decreases self,
    {
        match self {
            VSA::Leaf(programs) => lists_once(programs),
            VSA::Union(spaces) => {
                proof {
                    lemma_union_view(*spaces);
                }
                let mut i: usize = 0;
                while i < spaces.len()
                    invariant
                        i <= spaces.len(),
                        forall|k: int| 0 <= k < i ==> well_formed(#[trigger] vsa_views(spaces@)[k]),
                    decreases spaces.len() - i,
                {
                    if !spaces[i].is_well_formed() {
                        assert(!well_formed(self@->Union_0[i as int]));
                        return false;
                    }
                    i += 1;
                }
                assert forall|k: int|
                    #![trigger self@->Union_0[k]]
                    0 <= k < self@->Union_0.len() implies well_formed(self@->Union_0[k]) by {
                    assert(well_formed(vsa_views(spaces@)[k]));
                }
                true
            },
            VSA::Join { op, children, children_goals } => {
                proof {
                    lemma_join_view(*op, *children, *children_goals);
                }
                if children.len() != op.arity() || children_goals.len() != op.arity() {
                    return false;
                }
                let mut i: usize = 0;
                while i < children.len()
                    invariant
                        i <= children.len(),
                        forall|k: int|
                            0 <= k < i ==> well_formed(#[trigger] vsa_views(children@)[k]),
                    decreases children.len() - i,
                {
                    if !children[i].is_well_formed() {
                        assert(!well_formed(self@->Join_children[i as int]));
                        return false;
                    }
                    i += 1;
                }
                assert forall|k: int|
                    #![trigger self@->Join_children[k]]
                    0 <= k < self@->Join_children.len() implies well_formed(
                    self@->Join_children[k],
                ) by {
                    assert(well_formed(vsa_views(children@)[k]));
                }
                true
            },
            VSA::Unlearned { start, goal } => true,
        }
    }
}

impl VSA {
    /// Whether the two spaces are built alike.
    #[verifier::loop_isolation(false)]
    pub fn same(&self, other: &VSA) -> (yes: bool)
        ensures
            yes == (self@ == other@),
        decreases self,
    {
        match (self, other) {
            (VSA::Leaf(a), VSA::Leaf(b)) => {
                if a.len() != b.len() {
                    assert(leaf_views(a@).len() != leaf_views(b@).len());
                    return false;
                }
                let mut i: usize = 0;
                while i < a.len()
                    invariant
                        i <= a.len(),
                        forall|k: int| 0 <= k < i ==> (#[trigger] a@[k])@ == b@[k]@,
                    decreases a.len() - i,
                {
                    if !a[i].same(&b[i]) {
                        assert(leaf_views(a@)[i as int] != leaf_views(b@)[i as int]);
                        return false;
                    }
                    i += 1;
                }
                assert(leaf_views(a@) =~= leaf_views(b@));
                true
            },
            (VSA::Union(a), VSA::Union(b)) => {
                proof {
                    lemma_union_view(*a);
                    lemma_union_view(*b);
                }
                let yes = VSA::same_spaces(a, b);
                yes
            },
            (
                VSA::Join { op, children, children_goals },
                VSA::Join { op: other_op, children: other_children, children_goals: other_goals },
            ) => {
                proof {
                    lemma_join_view(*op, *children, *children_goals);
                    lemma_join_view(*other_op, *other_children, *other_goals);
                }
                if *op != *other_op || children_goals.len() != other_goals.len() {
                    assert(lit_views(children_goals@).len() == children_goals@.len());
                    assert(lit_views(other_goals@).len() == other_goals@.len());
                    return false;
                }
                let mut i: usize = 0;
                while i < children_goals.len()
                    invariant
                        i <= children_goals.len(),
                        forall|k: int|
                            0 <= k < i ==> (#[trigger] children_goals@[k])@ == other_goals@[k]@,
                    decreases children_goals.len() - i,
                {
                    if children_goals[i] != other_goals[i] {
                        assert(lit_views(children_goals@)[i as int] != lit_views(other_goals@)[i as int]);
                        return false;
                    }
                    i += 1;
                }
                assert(lit_views(children_goals@) =~= lit_views(other_goals@));
                VSA::same_spaces(children, other_children)
            },
            (
                VSA::Unlearned { start, goal },
                VSA::Unlearned { start: other_start, goal: other_goal },
            ) => *start == *other_start && *goal == *other_goal,
            _ => false,
        }
    }

    /// Whether the two sequences hold spaces that are built alike, one by one.
    #[verifier::loop_isolation(false)]
    fn same_spaces(a: &Vec<Rc<VSA>>, b: &Vec<Rc<VSA>>) -> (yes: bool)
        ensures
            yes == (vsa_views(a@) == vsa_views(b@)),
        decreases a,
    {
        if a.len() != b.len() {
            assert(vsa_views(a@).len() != vsa_views(b@).len());
            return false;
        }
        let mut i: usize = 0;
        while i < a.len()
            invariant
                i <= a.len(),
                forall|k: int| 0 <= k < i ==> (#[trigger] a@[k])@ == b@[k]@,
            decreases a.len() - i,
        {
            if !a[i].same(&b[i]) {
                assert(vsa_views(a@)[i as int] != vsa_views(b@)[i as int]);
                return false;
            }
            i += 1;
        }
        assert(vsa_views(a@) =~= vsa_views(b@));
        true
    }
}

impl PartialEq for VSA {
    fn eq(&self, other: &VSA) -> (yes: bool) {
        self.same(other)
    }
}

impl vstd::std_specs::cmp::PartialEqSpecImpl for VSA {
    open spec fn obeys_eq_spec() -> bool {
        true
    }

    open spec fn eq_spec(&self, other: &VSA) -> bool {
        self@ == other@
    }
}

impl Eq for VSA {}

impl Default for VSA {
    /// The space that holds no program.
    fn default() -> (out: VSA)
        ensures
            out@ == VsaV::Leaf(Seq::empty()),
    {
        VSA::empty()
    }
}

impl Clone for VSA {
    /// A copy of the space that shares its parts with it.
    fn clone(&self) -> (out: VSA)
        ensures
            out@ == self@,
    {
        match self {
            VSA::Leaf(programs) => {
                let mut copies: Vec<Rc<AST>> = Vec::new();
                let mut i: usize = 0;
                while i < programs.len()
                    invariant
                        i <= programs.len(),
                        copies@ == programs@.take(i as int),
                    decreases programs.len() - i,
                {
                    copies.push(share(&programs[i]));
                    assert(copies@ =~= programs@.take(i + 1));
                    i += 1;
                }
                assert(programs@.take(i as int) =~= programs@);
                VSA::Leaf(copies)
            },
            VSA::Union(spaces) => {
                let copies = copy_spaces(spaces);
                proof {
                    lemma_union_view(*spaces);
                    lemma_union_view(copies);
                }
                VSA::Union(copies)
            },
            VSA::Join { op, children, children_goals } => {
                let copies = copy_spaces(children);
                let goals = copy_lits(children_goals);
                proof {
                    lemma_join_view(*op, *children, *children_goals);
                    lemma_join_view(*op, copies, goals);
                }
                VSA::Join { op: *op, children: copies, children_goals: goals }
            },
            VSA::Unlearned { start, goal } => VSA::Unlearned {
                start: start.clone(),
                goal: goal.clone(),
            },
        }
    }
}

/// New handles to the same spaces.
pub fn copy_spaces(spaces: &Vec<Rc<VSA>>) -> (out: Vec<Rc<VSA>>)
    ensures
        out@ == spaces@,
{
    let mut out: Vec<Rc<VSA>> = Vec::new();
    let mut i: usize = 0;
    while i < spaces.len()
        invariant
            i <= spaces.len(),
            out@ == spaces@.take(i as int),
        decreases spaces.len() - i,
    {
        out.push(share(&spaces[i]));
        assert(out@ =~= spaces@.take(i + 1));
        i += 1;
    }
    assert(spaces@.take(i as int) =~= spaces@);
    out
}

} // verus!
