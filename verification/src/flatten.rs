use std::rc::Rc;
use vstd::prelude::*;
use crate::fun::Fun;
use crate::lit::lit_views;
use crate::lit::LitV;
use crate::vsa::copy_lits;
use crate::vsa::is_empty_spec;

use crate::vsa::lemma_join_view;
use crate::vsa::lemma_union_view;
use crate::vsa::share;
use crate::vsa::vsa_views;
use crate::vsa::VsaV;
use crate::vsa::VSA;

verus! {

/// The sequence without the repeats that stand next to each other.
pub open spec fn deduped(spaces: Seq<VsaV>) -> Seq<VsaV>
    decreases spaces.len(),
{
    if spaces.len() <= 1 {
        spaces
    } else {
        let front = deduped(spaces.drop_last());
        if front.last() == spaces.last() {
            front
        } else {
            front.push(spaces.last())
        }
    }
}

/// The test whether a space does not count as empty.
pub open spec fn not_empty() -> spec_fn(VsaV) -> bool {
    |v: VsaV| !is_empty_spec(v)
}

/// What a flattened member contributes to its union: its own members where it is
/// a union, else itself.
pub open spec fn parts_of(flat_member: VsaV) -> Seq<VsaV> {
    match flat_member {
        VsaV::Union(members) => members,
        _ => seq![flat_member],
    }
}

/// The union of the given members, or the one member that does not count as
/// empty where there is exactly one.
pub open spec fn union_or_only(members: Seq<VsaV>) -> VsaV {
    let full = members.filter(not_empty());
    if full.len() == 1 {
        full[0]
    } else {
        VsaV::Union(members)
    }
}

/// The flattened space: no union has a union as a member, a repeated neighbour,
/// or exactly one member that does not count as empty; such a union is replaced
/// by that member.
pub open spec fn flattened(v: VsaV) -> VsaV
    decreases v, 1nat, 0nat,
{
    match v {
        VsaV::Union(spaces) => union_or_only(deduped(collected(v, spaces.len()))),
        VsaV::Join { op, children, children_goals } => VsaV::Join {
            op,
            children: Seq::new(
                children.len(),
                |i: int|
                    if 0 <= i < children.len() {
                        flattened(children[i])
                    } else {
                        v
                    },
            ),
            children_goals,
        },
        _ => v,
    }
}

/// What the first `n` members of a union contribute when they are flattened.
pub open spec fn collected(v: VsaV, n: nat) -> Seq<VsaV>
    decreases v, 0nat, n,
{
    match v {
        VsaV::Union(spaces) => if 0 < n <= spaces.len() {
            collected(v, (n - 1) as nat) + parts_of(flattened(spaces[n - 1]))
        } else {
            Seq::empty()
        },
        _ => Seq::empty(),
    }
}

/// The flattened spaces.
pub open spec fn all_flattened(spaces: Seq<VsaV>) -> Seq<VsaV> {
    Seq::new(spaces.len(), |i: int| flattened(spaces[i]))
}

/// A flattened join has flattened argument spaces.
pub proof fn lemma_flattened_join(op: Fun, children: Seq<VsaV>, children_goals: Seq<LitV>)
    ensures
        flattened(VsaV::Join { op, children, children_goals }) == (VsaV::Join {
            op,
            children: all_flattened(children),
            children_goals,
        }),
{
    assert(flattened(VsaV::Join { op, children, children_goals })->Join_children =~= all_flattened(
        children,
    ));
}

/// New handles to the spaces, without the repeats that stand next to each other.
pub fn dedup_spaces(spaces: &Vec<Rc<VSA>>) -> (out: Vec<Rc<VSA>>)
    ensures
        vsa_views(out@) == deduped(vsa_views(spaces@)),
{
    let mut out: Vec<Rc<VSA>> = Vec::new();
    let mut i: usize = 0;
    proof {
        assert(vsa_views(spaces@).take(0) =~= Seq::empty());
        assert(vsa_views(out@) =~= Seq::empty());
    }
    while i < spaces.len()
        invariant
            i <= spaces.len(),
            vsa_views(out@) == deduped(vsa_views(spaces@).take(i as int)),
            i > 0 ==> out@.len() > 0,
        decreases spaces.len() - i,
    {
        let ghost before = vsa_views(spaces@).take(i as int);
        let ghost next = vsa_views(spaces@).take(i + 1);
        proof {
            assert(next.drop_last() =~= before);
            assert(next.last() == spaces@[i as int]@);
        }
        let ghost old_out = out@;
        if out.len() == 0 {
            out.push(share(&spaces[i]));
            proof {
                assert(i == 0);
                assert(vsa_views(out@) =~= next);
            }
        } else if !out[out.len() - 1].same(&spaces[i]) {
            out.push(share(&spaces[i]));
            proof {
                assert(vsa_views(old_out).last() == old_out[old_out.len() - 1]@);
                assert(vsa_views(out@) =~= vsa_views(old_out).push(spaces@[i as int]@));
            }
        } else {
            proof {
                assert(vsa_views(old_out).last() == old_out[old_out.len() - 1]@);
            }
        }
        i += 1;
    }
    proof {
        assert(vsa_views(spaces@).take(i as int) =~= vsa_views(spaces@));
    }
    out
}

/// The place of the one space that does not count as empty, where there is
/// exactly one.
pub fn only_full(spaces: &Vec<Rc<VSA>>) -> (out: Option<usize>)
    ensures
        (out is Some) == (vsa_views(spaces@).filter(not_empty()).len() == 1),
        out matches Some(at) ==> at < spaces@.len() && vsa_views(spaces@).filter(not_empty())[0]
            == spaces@[at as int]@,
{
    let mut count: usize = 0;
    let mut first: usize = 0;
    let mut i: usize = 0;
    let ghost views = vsa_views(spaces@);
    proof {
        reveal(Seq::filter);
        assert(views.take(0) =~= Seq::empty());
    }
    while i < spaces.len()
        invariant
            i <= spaces.len(),
            views == vsa_views(spaces@),
            count <= i,
            count == views.take(i as int).filter(not_empty()).len(),
            count > 0 ==> first < i && views.take(i as int).filter(not_empty())[0] == views[first as int],
        decreases spaces.len() - i,
    {
        proof {
            let before = views.take(i as int);
            assert(views.take(i + 1) =~= before.push(views[i as int]));
            before.lemma_filter_push(views[i as int], not_empty());
        }
        if !spaces[i].is_empty() {
            if count == 0 {
                first = i;
            }
            count += 1;
        }
        i += 1;
    }
    proof {
        assert(views.take(i as int) =~= views);
    }
    if count == 1 {
        Some(first)
    } else {
        None
    }
}

impl VSA {
    /// The flattened space.
    #[verifier::loop_isolation(false)]
    pub fn flatten(vsa: Rc<VSA>) -> (out: Rc<VSA>)
        ensures
            out@ == flattened(vsa@),
            crate::vsa::well_formed(vsa@) ==> crate::vsa::well_formed(out@),
        decreases vsa@,
    {
        proof {
            if crate::vsa::well_formed(vsa@) {
                crate::wf_laws::lemma_flattened_well_formed(vsa@);
            }
        }
        match &*vsa {
            VSA::Union(members) => {
                proof {
                    lemma_union_view(*members);
                }
                let mut parts: Vec<Rc<VSA>> = Vec::new();
                let mut i: usize = 0;
                proof {
                    assert(vsa_views(parts@) =~= collected(vsa@, 0));
                }
                while i < members.len()
                    invariant
                        i <= members.len(),
                        vsa_views(parts@) == collected(vsa@, i as nat),
                    decreases members.len() - i,
                {
                    let ghost before = parts@;
                    assert(vsa_views(members@)[i as int] == members@[i as int]@);
                    let flat = VSA::flatten(share(&members[i]));
                    match &*flat {
                        VSA::Union(inner) => {
                            proof {
                                lemma_union_view(*inner);
                            }
                            let mut j: usize = 0;
                            while j < inner.len()
                                invariant
                                    j <= inner.len(),
                                    vsa_views(parts@) == vsa_views(before) + vsa_views(inner@).take(
                                        j as int,
                                    ),
                                decreases inner.len() - j,
                            {
                                let ghost mid = parts@;
                                parts.push(share(&inner[j]));
                                proof {
                                    assert(vsa_views(parts@) =~= vsa_views(mid).push(inner@[j as int]@));
                                    assert(vsa_views(inner@).take(j + 1) =~= vsa_views(inner@).take(
                                        j as int,
                                    ).push(inner@[j as int]@));
                                    assert(vsa_views(parts@) =~= vsa_views(before) + vsa_views(
                                        inner@,
                                    ).take(j + 1));
                                }
                                j += 1;
                            }
                            proof {
                                assert(vsa_views(inner@).take(j as int) =~= vsa_views(inner@));
                            }
                        },
                        _ => {
                            parts.push(flat);
                            proof {
                                assert(vsa_views(parts@) =~= vsa_views(before) + seq![flat@]);
                            }
                        },
                    }
                    i += 1;
                }
                let members = dedup_spaces(&parts);
                match only_full(&members) {
                    Some(at) => share(&members[at]),
                    None => {
                        proof {
                            lemma_union_view(members);
                        }
                        Rc::new(VSA::Union(members))
                    },
                }
            },
            VSA::Join { op, children, children_goals } => {
                proof {
                    lemma_join_view(*op, *children, *children_goals);
                    lemma_flattened_join(*op, vsa_views(children@), lit_views(children_goals@));
                }
                let mut spaces: Vec<Rc<VSA>> = Vec::new();
                let mut i: usize = 0;
                while i < children.len()
                    invariant
                        i <= children.len(),
                        spaces@.len() == i,
                        forall|k: int|
                            0 <= k < i ==> (#[trigger] spaces@[k])@ == flattened(children@[k]@),
                    decreases children.len() - i,
                {
                    assert(vsa_views(children@)[i as int] == children@[i as int]@);
                    spaces.push(VSA::flatten(share(&children[i])));
                    i += 1;
                }
                let goals = copy_lits(children_goals);
                proof {
                    lemma_join_view(*op, spaces, goals);
                    assert(vsa_views(spaces@) =~= all_flattened(vsa_views(children@)));
                }
                Rc::new(VSA::Join { op: *op, children: spaces, children_goals: goals })
            },
            _ => vsa,
        }
    }
}

} // verus!
