use vstd::prelude::*;
use crate::ast::AstV;
use crate::flatten::all_flattened;
use crate::flatten::collected;
use crate::flatten::deduped;
use crate::flatten::flattened;
use crate::flatten::lemma_flattened_join;
use crate::flatten::not_empty;
use crate::flatten::parts_of;
use crate::flatten::union_or_only;
use crate::laws::lemma_filter_lists;
use crate::laws::lemma_unpicked_holds_nothing;
use crate::vsa::holds;
use crate::vsa::VsaV;

verus! {

/// Whether one of the spaces holds the program.
pub open spec fn some_holds(spaces: Seq<VsaV>, p: AstV) -> bool {
    exists|k: int| 0 <= k < spaces.len() && holds(#[trigger] spaces[k], p)
}

/// A union holds a program exactly where one of its members does.
pub proof fn lemma_union_holds(spaces: Seq<VsaV>, p: AstV)
    ensures
        holds(VsaV::Union(spaces), p) <==> some_holds(spaces, p),
{
    let u = VsaV::Union(spaces);
    if holds(u, p) {
        let at = choose|i: int| 0 <= i < u->Union_0.len() && holds(u->Union_0[i], p);
        assert(holds(spaces[at], p));
    }
    if some_holds(spaces, p) {
        let at = choose|k: int| 0 <= k < spaces.len() && holds(#[trigger] spaces[k], p);
        assert(holds(u->Union_0[at], p));
    }
}

/// What a space contributes to a union holds a program exactly where the space
/// does.
pub proof fn lemma_parts_hold(f: VsaV, p: AstV)
    ensures
        some_holds(parts_of(f), p) <==> holds(f, p),
{
    match f {
        VsaV::Union(members) => {
            lemma_union_holds(members, p);
        },
        _ => {
            let one = seq![f];
            if holds(f, p) {
                assert(holds(one[0], p));
            }
        },
    }
}

/// One of two sequences holds a program exactly where their concatenation does.
pub proof fn lemma_some_holds_concat(a: Seq<VsaV>, b: Seq<VsaV>, p: AstV)
    ensures
        some_holds(a + b, p) <==> some_holds(a, p) || some_holds(b, p),
{
    let all = a + b;
    if some_holds(a, p) {
        let at = choose|k: int| 0 <= k < a.len() && holds(#[trigger] a[k], p);
        assert(holds(all[at], p));
    }
    if some_holds(b, p) {
        let at = choose|k: int| 0 <= k < b.len() && holds(#[trigger] b[k], p);
        assert(holds(all[a.len() + at], p));
    }
    if some_holds(all, p) {
        let at = choose|k: int| 0 <= k < all.len() && holds(#[trigger] all[k], p);
        if at < a.len() {
            assert(holds(a[at], p));
        } else {
            assert(holds(b[at - a.len()], p));
        }
    }
}

/// Removing repeated neighbours loses no space and adds none.
pub proof fn lemma_deduped_lists(spaces: Seq<VsaV>, x: VsaV)
    ensures
        deduped(spaces).contains(x) <==> spaces.contains(x),
        spaces.len() > 0 ==> deduped(spaces).len() > 0 && deduped(spaces).last() == spaces.last(),
    decreases spaces.len(),
{
    if spaces.len() > 1 {
        let front = spaces.drop_last();
        lemma_deduped_lists(front, x);
        let kept = deduped(front);
        let out = deduped(spaces);
        if spaces.contains(x) {
            let at = choose|i: int| 0 <= i < spaces.len() && spaces[i] == x;
            if at < spaces.len() - 1 {
                assert(front[at] == x);
                assert(front.contains(x));
            }
        }
        if front.contains(x) {
            let at = choose|i: int| 0 <= i < front.len() && front[i] == x;
            assert(spaces[at] == x);
        }
        if kept.last() == spaces.last() {
            if x == spaces.last() {
                assert(kept[kept.len() - 1] == x);
            }
        } else {
            if kept.contains(x) {
                let at = choose|i: int| 0 <= i < kept.len() && kept[i] == x;
                assert(out[at] == x);
            }
            assert(out[out.len() - 1] == spaces.last());
            if out.contains(x) {
                let at = choose|i: int| 0 <= i < out.len() && out[i] == x;
                if at < kept.len() {
                    assert(kept[at] == x);
                } else {
                    assert(spaces[spaces.len() - 1] == x);
                }
            }
        }
    }
}

/// One of the spaces holds a program exactly where one does after repeated
/// neighbours were removed.
pub proof fn lemma_deduped_holds(spaces: Seq<VsaV>, p: AstV)
    ensures
        some_holds(deduped(spaces), p) <==> some_holds(spaces, p),
{
    let out = deduped(spaces);
    if some_holds(out, p) {
        let at = choose|k: int| 0 <= k < out.len() && holds(#[trigger] out[k], p);
        lemma_deduped_lists(spaces, out[at]);
        assert(out.contains(out[at]));
        let back = choose|i: int| 0 <= i < spaces.len() && spaces[i] == out[at];
        assert(holds(spaces[back], p));
    }
    if some_holds(spaces, p) {
        let at = choose|k: int| 0 <= k < spaces.len() && holds(#[trigger] spaces[k], p);
        lemma_deduped_lists(spaces, spaces[at]);
        assert(spaces.contains(spaces[at]));
        let there = choose|i: int| 0 <= i < out.len() && out[i] == spaces[at];
        assert(holds(out[there], p));
    }
}

/// A union, or its one member that does not count as empty, holds a program
/// exactly where a member does.
pub proof fn lemma_union_or_only_holds(members: Seq<VsaV>, p: AstV)
    ensures
        holds(union_or_only(members), p) <==> some_holds(members, p),
{
    let full = members.filter(not_empty());
    lemma_union_holds(members, p);
    if full.len() == 1 {
        lemma_filter_lists(members, not_empty(), full[0]);
        assert(full.contains(full[0]));
        if holds(full[0], p) {
            let at = choose|i: int| 0 <= i < members.len() && members[i] == full[0];
            assert(holds(members[at], p));
        }
        if some_holds(members, p) {
            let at = choose|k: int| 0 <= k < members.len() && holds(#[trigger] members[k], p);
            let m = members[at];
            if crate::vsa::picked(m) is None {
                lemma_unpicked_holds_nothing(m, p);
            }
            assert(not_empty()(m));
            lemma_filter_lists(members, not_empty(), m);
            assert(members.contains(m));
            let there = choose|i: int| 0 <= i < full.len() && full[i] == m;
            assert(there == 0);
        }
    }
}

/// Flattening keeps what is held: the flattened space holds a program exactly
/// where the space does.
pub proof fn lemma_flatten_preserves(v: VsaV, p: AstV)
    ensures
        holds(flattened(v), p) <==> holds(v, p),
    decreases v,
{
    match v {
        VsaV::Union(spaces) => {
            lemma_collected_holds(v, spaces.len(), p);
            assert(spaces.take(spaces.len() as int) =~= spaces);
            let parts = collected(v, spaces.len());
            lemma_deduped_holds(parts, p);
            lemma_union_or_only_holds(deduped(parts), p);
            lemma_union_holds(spaces, p);
        },
        VsaV::Join { op, children, children_goals } => {
            lemma_flattened_join(op, children, children_goals);
            let out = flattened(v);
            match p {
                AstV::App { fun, args } => {
                    if fun == op && args.len() == children.len() {
                        assert forall|i: int| 0 <= i < children.len() implies (holds(
                            #[trigger] out->Join_children[i],
                            args[i],
                        ) <==> holds(children[i], args[i])) by {
                            lemma_flatten_preserves(children[i], args[i]);
                        }
                        if holds(out, p) {
                            assert forall|i: int| 0 <= i < children.len() implies holds(
                                #[trigger] v->Join_children[i],
                                args[i],
                            ) by {
                                assert(holds(out->Join_children[i], args[i]));
                            }
                        }
                        if holds(v, p) {
                            assert forall|i: int| 0 <= i < children.len() implies holds(
                                #[trigger] out->Join_children[i],
                                args[i],
                            ) by {
                                assert(holds(v->Join_children[i], args[i]));
                            }
                        }
                    }
                },
                _ => {},
            }
        },
        _ => {},
    }
}

/// What the first `n` members of a union contribute holds a program exactly
/// where one of those members does.
pub proof fn lemma_collected_holds(v: VsaV, n: nat, p: AstV)
    requires
        v is Union,
        n <= v->Union_0.len(),
    ensures
        some_holds(collected(v, n), p) <==> some_holds(v->Union_0.take(n as int), p),
    decreases v, n,
{
    let spaces = v->Union_0;
    if n > 0 {
        let before = collected(v, (n - 1) as nat);
        let member = spaces[n - 1];
        lemma_collected_holds(v, (n - 1) as nat, p);
        lemma_flatten_preserves(member, p);
        lemma_parts_hold(flattened(member), p);
        lemma_some_holds_concat(before, parts_of(flattened(member)), p);
        assert(spaces.take(n as int) =~= spaces.take(n - 1) + seq![member]);
        lemma_some_holds_concat(spaces.take(n - 1), seq![member], p);
        let one = seq![member];
        if holds(member, p) {
            assert(holds(one[0], p));
        }
    }
}

/// Whether every space is flat and no union.
pub open spec fn plain_and_flat(spaces: Seq<VsaV>) -> bool {
    forall|i: int|
        #![trigger spaces[i]]
        0 <= i < spaces.len() ==> is_flat(spaces[i]) && !(spaces[i] is Union)
}

/// Whether no space is followed by one built alike.
pub open spec fn no_repeats(spaces: Seq<VsaV>) -> bool {
    forall|i: int| 0 <= i < spaces.len() - 1 ==> #[trigger] spaces[i] != spaces[i + 1]
}

/// Whether a space is in the form that flattening gives.
pub open spec fn is_flat(v: VsaV) -> bool
    decreases v,
{
    match v {
        VsaV::Union(members) => {
            &&& forall|i: int|
                #![trigger members[i]]
                0 <= i < members.len() ==> is_flat(members[i]) && !(members[i] is Union)
            &&& no_repeats(members)
            &&& members.filter(not_empty()).len() != 1
        },
        VsaV::Join { op, children, children_goals } => forall|i: int|
            #![trigger children[i]]
            0 <= i < children.len() ==> is_flat(children[i]),
        _ => true,
    }
}

/// A sequence without repeated neighbours is left as it is.
pub proof fn lemma_deduped_of_no_repeats(spaces: Seq<VsaV>)
    requires
        no_repeats(spaces),
    ensures
        deduped(spaces) == spaces,
    decreases spaces.len(),
{
    if spaces.len() > 1 {
        let front = spaces.drop_last();
        assert(no_repeats(front)) by {
            assert forall|i: int| 0 <= i < front.len() - 1 implies #[trigger] front[i] != front[i
                + 1] by {
                assert(spaces[i] != spaces[i + 1]);
            }
        }
        lemma_deduped_of_no_repeats(front);
        let at = spaces.len() - 2;
        assert(spaces[at] != spaces[at + 1]);
        assert(front.last() == spaces[at]);
        assert(front.push(spaces.last()) =~= spaces);
    }
}

/// Removing repeated neighbours leaves none.
pub proof fn lemma_deduped_no_repeats(spaces: Seq<VsaV>)
    ensures
        no_repeats(deduped(spaces)),
    decreases spaces.len(),
{
    if spaces.len() > 1 {
        let front = spaces.drop_last();
        lemma_deduped_no_repeats(front);
        let kept = deduped(front);
        let out = deduped(spaces);
        if kept.last() != spaces.last() {
            assert forall|i: int| 0 <= i < out.len() - 1 implies #[trigger] out[i] != out[i + 1] by {
                if i < kept.len() - 1 {
                    assert(kept[i] != kept[i + 1]);
                }
            }
        }
    }
}

/// A flat space is left as it is.
pub proof fn lemma_flat_is_fixed(v: VsaV)
    requires
        is_flat(v),
    ensures
        flattened(v) == v,
    decreases v,
{
    match v {
        VsaV::Union(members) => {
            lemma_collected_of_flat(v, members.len());
            assert(members.take(members.len() as int) =~= members);
            lemma_deduped_of_no_repeats(members);
        },
        VsaV::Join { op, children, children_goals } => {
            lemma_flattened_join(op, children, children_goals);
            assert forall|i: int| 0 <= i < children.len() implies flattened(children[i])
                == #[trigger] children[i] by {
                lemma_flat_is_fixed(children[i]);
            }
            assert(all_flattened(children) =~= children);
        },
        _ => {},
    }
}

/// The members of a flat union contribute themselves.
pub proof fn lemma_collected_of_flat(v: VsaV, n: nat)
    requires
        v is Union,
        is_flat(v),
        n <= v->Union_0.len(),
    ensures
        collected(v, n) == v->Union_0.take(n as int),
    decreases v, n,
{
    let members = v->Union_0;
    if n > 0 {
        lemma_collected_of_flat(v, (n - 1) as nat);
        let member = members[n - 1];
        lemma_flat_is_fixed(member);
        assert(members.take(n as int) =~= members.take(n - 1) + seq![member]);
    } else {
        assert(members.take(0) =~= Seq::empty());
    }
}

/// Removing repeated neighbours keeps spaces that are flat and no unions.
pub proof fn lemma_deduped_plain(spaces: Seq<VsaV>)
    requires
        plain_and_flat(spaces),
    ensures
        plain_and_flat(deduped(spaces)),
{
    let out = deduped(spaces);
    assert forall|i: int| #![trigger out[i]] 0 <= i < out.len() implies is_flat(out[i]) && !(
    out[i] is Union) by {
        lemma_deduped_lists(spaces, out[i]);
        assert(out.contains(out[i]));
        let back = choose|k: int| 0 <= k < spaces.len() && spaces[k] == out[i];
        assert(is_flat(spaces[back]));
    }
}

/// A flattened space is flat.
pub proof fn lemma_flattened_is_flat(v: VsaV)
    ensures
        is_flat(flattened(v)),
    decreases v,
{
    match v {
        VsaV::Union(spaces) => {
            lemma_collected_plain(v, spaces.len());
            let parts = collected(v, spaces.len());
            lemma_deduped_plain(parts);
            lemma_deduped_no_repeats(parts);
            let members = deduped(parts);
            let full = members.filter(not_empty());
            if full.len() == 1 {
                lemma_filter_lists(members, not_empty(), full[0]);
                assert(full.contains(full[0]));
                let at = choose|i: int| 0 <= i < members.len() && members[i] == full[0];
                assert(is_flat(members[at]));
            } else {
                let out = VsaV::Union(members);
                assert forall|i: int|
                    #![trigger out->Union_0[i]]
                    0 <= i < out->Union_0.len() implies is_flat(out->Union_0[i]) && !(
                out->Union_0[i] is Union) by {
                    assert(is_flat(members[i]));
                }
            }
        },
        VsaV::Join { op, children, children_goals } => {
            lemma_flattened_join(op, children, children_goals);
            let out = flattened(v);
            assert forall|i: int|
                #![trigger out->Join_children[i]]
                0 <= i < out->Join_children.len() implies is_flat(out->Join_children[i]) by {
                lemma_flattened_is_flat(children[i]);
            }
        },
        _ => {},
    }
}

/// What the members of a union contribute when flattened is flat and no union.
pub proof fn lemma_collected_plain(v: VsaV, n: nat)
    requires
        v is Union,
        n <= v->Union_0.len(),
    ensures
        plain_and_flat(collected(v, n)),
    decreases v, n,
{
    let spaces = v->Union_0;
    if n > 0 {
        lemma_collected_plain(v, (n - 1) as nat);
        let before = collected(v, (n - 1) as nat);
        let member = spaces[n - 1];
        lemma_flattened_is_flat(member);
        let f = flattened(member);
        let parts = parts_of(f);
        let all = before + parts;
        assert forall|i: int| #![trigger all[i]] 0 <= i < all.len() implies is_flat(all[i]) && !(
        all[i] is Union) by {
            if i < before.len() {
                assert(is_flat(before[i]));
            } else {
                let k = i - before.len();
                assert(all[i] == parts[k]);
                match f {
                    VsaV::Union(inner) => {
                        assert(is_flat(f->Union_0[k]));
                    },
                    _ => {},
                }
            }
        }
    }
}

/// Flattening is idempotent: flattening a flattened space changes nothing.
pub proof fn lemma_flatten_idempotent(v: VsaV)
    ensures
        flattened(flattened(v)) == flattened(v),
{
    lemma_flattened_is_flat(v);
    lemma_flat_is_fixed(flattened(v));
}

} // verus!
