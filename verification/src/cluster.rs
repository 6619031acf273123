use std::rc::Rc;
use vstd::prelude::*;
use crate::ast::AstV;
use crate::ast::AST;
use crate::bottom_up_laws::lemma_first_place_exists;
use crate::cache::merged;
use crate::cache::place_of;
use crate::cache::GoalCache;
use crate::eval::lemma_value_of_app;
use crate::eval::unwrapped;
use crate::eval::value_of;
use crate::eval::values_of;
use crate::eval::ForeignEvaluator;
use crate::fun::apply_fun;
use crate::fun::Fun;
use crate::fun::Language;
use crate::laws::lemma_unify_denotes_union;
use crate::lit::lit_views;
use crate::lit::Lit;
use crate::lit::LitV;
use crate::pattern::RegexCache;
use crate::vsa::copy_lits;
use crate::vsa::copy_spaces;
use crate::vsa::held_by;
use crate::vsa::holds;
use crate::vsa::leaf_views;
use crate::vsa::lemma_join_view;
use crate::vsa::lemma_union_view;
use crate::vsa::share;
use crate::vsa::vsa_views;
use crate::vsa::VsaV;
use crate::vsa::VSA;

verus! {

/// Whether the entry for the value holds the program.
pub open spec fn holds_in(entries: Seq<(LitV, VsaV)>, value: LitV, p: AstV) -> bool {
    exists|k: int| 0 <= k < entries.len() && (#[trigger] entries[k]).0 == value && holds(entries[k].1, p)
}

/// Whether the entries sort the given programs by their value on the input:
/// no two entries are for the same value; each entry holds only programs of the
/// given ones, with its value; and each of the given programs that has a value
/// is held by the entry for that value.
pub open spec fn gathers<E: ForeignEvaluator>(
    entries: Seq<(LitV, VsaV)>,
    input: LitV,
    foreign: E,
    given: spec_fn(AstV) -> bool,
) -> bool {
    &&& forall|i: int, j: int|
        0 <= i < j < entries.len() ==> (#[trigger] entries[i]).0 != (#[trigger] entries[j]).0
    &&& forall|k: int, p: AstV|
        0 <= k < entries.len() && #[trigger] holds(entries[k].1, p) ==> given(p) && value_of(
            p,
            input,
            foreign,
        ) == Some(entries[k].0)
    &&& forall|p: AstV|
        #[trigger] given(p) && value_of(p, input, foreign) is Some ==> holds_in(
            entries,
            value_of(p, input, foreign)->0,
            p,
        )
}

/// Whether the entries sort the programs of the space by their value on the
/// input.
pub open spec fn clusters<E: ForeignEvaluator>(
    entries: Seq<(LitV, VsaV)>,
    v: VsaV,
    input: LitV,
    foreign: E,
) -> bool {
    gathers(entries, input, foreign, held_by(v))
}

/// Entries that sort some programs sort as well any programs that differ from
/// them only in programs without a value.
pub proof fn lemma_gathers_also<E: ForeignEvaluator>(
    entries: Seq<(LitV, VsaV)>,
    input: LitV,
    foreign: E,
    given: spec_fn(AstV) -> bool,
    wider: spec_fn(AstV) -> bool,
)
    requires
        gathers(entries, input, foreign, given),
        forall|p: AstV| #[trigger] given(p) && value_of(p, input, foreign) is Some ==> wider(p),
        forall|p: AstV| #[trigger] wider(p) && value_of(p, input, foreign) is Some ==> given(p),
    ensures
        gathers(entries, input, foreign, wider),
{
    assert forall|k: int, p: AstV| 0 <= k < entries.len() && #[trigger] holds(
        entries[k].1,
        p,
    ) implies wider(p) && value_of(p, input, foreign) == Some(entries[k].0) by {
        assert(given(p));
    }
    assert forall|p: AstV| #[trigger] wider(p) && value_of(p, input, foreign) is Some implies holds_in(
        entries,
        value_of(p, input, foreign)->0,
        p,
    ) by {
        assert(given(p));
    }
}

/// Storing a space whose programs all have the value keeps the entries sorted,
/// for the programs given before together with those of the space.
pub proof fn lemma_merged_gathers<E: ForeignEvaluator>(
    entries: Seq<(LitV, VsaV)>,
    input: LitV,
    foreign: E,
    given: spec_fn(AstV) -> bool,
    value: LitV,
    space: VsaV,
    wider: spec_fn(AstV) -> bool,
)
    requires
        gathers(entries, input, foreign, given),
        forall|p: AstV| #[trigger] holds(space, p) ==> value_of(p, input, foreign) == Some(value),
        forall|p: AstV| #[trigger] wider(p) <==> given(p) || holds(space, p),
    ensures
        gathers(merged(entries, value, space), input, foreign, wider),
{
    let at = place_of(entries, value);
    let after = merged(entries, value, space);
    lemma_first_place_exists(entries, value);
    assert forall|i: int, j: int| 0 <= i < j < after.len() implies (#[trigger] after[i]).0 != (
    #[trigger] after[j]).0 by {
        if j < entries.len() {
            assert(entries[i].0 != entries[j].0);
        } else {
            assert(entries[i].0 != value);
        }
    }
    assert forall|k: int, p: AstV| 0 <= k < after.len() && #[trigger] holds(
        after[k].1,
        p,
    ) implies wider(p) && value_of(p, input, foreign) == Some(after[k].0) by {
        if k == at {
            if at < entries.len() {
                lemma_unify_denotes_union(space, entries[at].1, p);
                if holds(entries[at].1, p) {
                    assert(given(p));
                }
            }
        } else {
            assert(holds(entries[k].1, p));
        }
    }
    assert forall|p: AstV| #[trigger] wider(p) && value_of(p, input, foreign) is Some implies holds_in(
        after,
        value_of(p, input, foreign)->0,
        p,
    ) by {
        let o = value_of(p, input, foreign)->0;
        if holds(space, p) {
            if at < entries.len() {
                lemma_unify_denotes_union(space, entries[at].1, p);
            }
            assert(after[at].0 == value && holds(after[at].1, p));
        } else {
            assert(given(p));
            let k = choose|k: int|
                0 <= k < entries.len() && (#[trigger] entries[k]).0 == o && holds(entries[k].1, p);
            if k == at {
                lemma_unify_denotes_union(space, entries[at].1, p);
            }
            assert(after[k].0 == o && holds(after[k].1, p));
        }
    }
}

/// The entries of a sequence of caches.
pub open spec fn cache_views(caches: Seq<GoalCache>) -> Seq<Seq<(LitV, VsaV)>> {
    Seq::new(caches.len(), |i: int| caches[i].entries())
}

/// Whether the program applies the operator to arguments of which the first
/// are held by the chosen spaces, one by one, and each further one by an entry
/// of the cache at its place.
pub open spec fn fits(
    op: Fun,
    chosen: Seq<VsaV>,
    caches: Seq<Seq<(LitV, VsaV)>>,
    p: AstV,
) -> bool {
    match p {
        AstV::App { fun, args } => {
            &&& fun == op
            &&& args.len() == caches.len()
            &&& forall|i: int| 0 <= i < chosen.len() ==> holds(#[trigger] chosen[i], args[i])
            &&& forall|i: int|
                chosen.len() <= i < caches.len() ==> #[trigger] in_some_entry(caches[i], args[i])
        },
        _ => false,
    }
}

/// Whether one of the entries holds the program.
pub open spec fn in_some_entry(entries: Seq<(LitV, VsaV)>, p: AstV) -> bool {
    exists|k: int| 0 <= k < entries.len() && holds(#[trigger] entries[k].1, p)
}

/// The value of an application whose arguments have the given values.
pub proof fn lemma_value_of_joined<E: ForeignEvaluator>(
    op: Fun,
    args: Seq<AstV>,
    values: Seq<LitV>,
    input: LitV,
    foreign: E,
)
    requires
        args.len() == values.len(),
        forall|i: int|
            0 <= i < args.len() ==> value_of(#[trigger] args[i], input, foreign) == Some(values[i]),
    ensures
        value_of(AstV::App { fun: op, args }, input, foreign) == apply_fun(op, values, input),
{
    lemma_value_of_app(op, args, input, foreign);
    let found = values_of(args, input, foreign);
    assert forall|i: int| 0 <= i < found.len() implies (#[trigger] found[i]) is Some by {
        assert(value_of(args[i], input, foreign) == Some(values[i]));
    }
    assert(unwrapped(found) =~= values) by {
        assert forall|i: int| 0 <= i < values.len() implies unwrapped(found)[i] == values[i] by {
            assert(value_of(args[i], input, foreign) == Some(values[i]));
        }
    }
}

/// An application with a value has arguments with values.
pub proof fn lemma_valued_arguments<E: ForeignEvaluator>(
    op: Fun,
    args: Seq<AstV>,
    input: LitV,
    foreign: E,
    i: int,
)
    requires
        value_of(AstV::App { fun: op, args }, input, foreign) is Some,
        0 <= i < args.len(),
    ensures
        value_of(args[i], input, foreign) is Some,
{
    lemma_value_of_app(op, args, input, foreign);
    assert(values_of(args, input, foreign)[i] is Some);
}

/// Whether each cache sorts the programs of the space at its place, and is
/// built as it should be.
pub open spec fn each_clusters<E: ForeignEvaluator>(
    caches: Seq<GoalCache>,
    children: Seq<VsaV>,
    input: LitV,
    foreign: E,
) -> bool {
    &&& caches.len() == children.len()
    &&& forall|i: int|
        0 <= i < caches.len() ==> (#[trigger] caches[i]).wf() && clusters(
            caches[i].entries(),
            children[i],
            input,
            foreign,
        )
}

/// The test whether a program is among the first `n` of the listed ones.
pub open spec fn listed_upto(programs: Seq<AstV>, n: int) -> spec_fn(AstV) -> bool {
    |p: AstV| programs.take(n).contains(p)
}

/// The test whether a program is given or held by the space.
pub open spec fn or_held(given: spec_fn(AstV) -> bool, space: VsaV) -> spec_fn(AstV) -> bool {
    |p: AstV| given(p) || holds(space, p)
}

/// The test whether a program is given or held by one of the first `n`
/// entries.
pub open spec fn or_in_first(given: spec_fn(AstV) -> bool, entries: Seq<(LitV, VsaV)>, n: int) -> spec_fn(
    AstV,
) -> bool {
    |p: AstV| given(p) || exists|k: int| 0 <= k < n && holds(#[trigger] entries[k].1, p)
}

/// The test whether one of the first `n` spaces holds a program.
pub open spec fn held_by_first(spaces: Seq<VsaV>, n: int) -> spec_fn(AstV) -> bool {
    |p: AstV| exists|k: int| 0 <= k < n && holds(#[trigger] spaces[k], p)
}

/// The test whether a program is given or fits the chosen spaces and the
/// caches.
pub open spec fn or_fits(
    given: spec_fn(AstV) -> bool,
    op: Fun,
    chosen: Seq<VsaV>,
    caches: Seq<Seq<(LitV, VsaV)>>,
) -> spec_fn(AstV) -> bool {
    |p: AstV| given(p) || fits(op, chosen, caches, p)
}

/// The test whether a program is given or fits the chosen spaces, one of the
/// first `n` entries of the next cache, and the caches after it.
pub open spec fn or_fits_first(
    given: spec_fn(AstV) -> bool,
    op: Fun,
    chosen: Seq<VsaV>,
    caches: Seq<Seq<(LitV, VsaV)>>,
    n: int,
) -> spec_fn(AstV) -> bool {
    |p: AstV|
        given(p) || exists|k: int|
            0 <= k < n && #[trigger] fits(
                op,
                chosen.push(caches[chosen.len() as int][k].1),
                caches,
                p,
            )
}

/// The programs of a leaf sorted by their value on the input.
pub fn cluster_leaf<E: ForeignEvaluator>(
    programs: &Vec<Rc<AST>>,
    input: &Lit,
    regexes: &mut RegexCache,
    foreign: &E,
) -> (out: GoalCache)
    requires
        old(regexes).wf(),
        foreign.usable(),
    ensures
        final(regexes).wf(),
        final(regexes).limit() == old(regexes).limit(),
        out.wf(),
        clusters(out.entries(), VsaV::Leaf(leaf_views(programs@)), input@, *foreign),
{
    let ghost all = leaf_views(programs@);
    let mut out = GoalCache::new();
    let mut i: usize = 0;
    proof {
        assert(all.take(0) =~= Seq::empty());
        assert(gathers(out.entries(), input@, *foreign, listed_upto(all, 0)));
    }
    while i < programs.len()
        invariant
            i <= programs.len(),
            all == leaf_views(programs@),
            out.wf(),
            foreign.usable(),
            regexes.wf(),
            regexes.limit() == old(regexes).limit(),
            gathers(out.entries(), input@, *foreign, listed_upto(all, i as int)),
        decreases programs.len() - i,
    {
        let ghost x = programs@[i as int]@;
        let ghost before = out.entries();
        proof {
            assert(all.take(i + 1) =~= all.take(i as int).push(x));
            assert forall|p: AstV| #[trigger]
                listed_upto(all, i + 1)(p) <==> listed_upto(all, i as int)(p) || p == x by {
                let short = all.take(i as int);
                let long = all.take(i + 1);
                if short.contains(p) {
                    let at = choose|k: int| 0 <= k < short.len() && short[k] == p;
                    assert(long[at] == p);
                }
                if p == x {
                    assert(long[i as int] == p);
                }
                if long.contains(p) {
                    let at = choose|k: int| 0 <= k < long.len() && long[k] == p;
                    if at < i {
                        assert(short[at] == p);
                    }
                }
            }
        }
        match programs[i].try_eval(input, regexes, foreign) {
            Some(value) => {
                let one = Rc::new(VSA::singleton((*programs[i]).clone()));
                proof {
                    assert forall|p: AstV| #[trigger] holds(one@, p) implies value_of(
                        p,
                        input@,
                        *foreign,
                    ) == Some(value@) by {
                        assert(seq![x].contains(p));
                        let at = choose|k: int| 0 <= k < seq![x].len() && seq![x][k] == p;
                        assert(p == x);
                    }
                    assert forall|p: AstV| #[trigger]
                        listed_upto(all, i + 1)(p) <==> listed_upto(all, i as int)(p) || holds(
                            one@,
                            p,
                        ) by {
                        assert(listed_upto(all, i + 1)(p) <==> listed_upto(all, i as int)(p) || p
                            == x);
                        if p == x {
                            assert(seq![x][0] == p);
                        }
                        if holds(one@, p) {
                            let at = choose|k: int| 0 <= k < seq![x].len() && seq![x][k] == p;
                        }
                    }
                    lemma_merged_gathers(
                        before,
                        input@,
                        *foreign,
                        listed_upto(all, i as int),
                        value@,
                        one@,
                        listed_upto(all, i + 1),
                    );
                }
                out.merge(value, one);
            },
            None => {
                proof {
                    assert forall|p: AstV| #[trigger]
                        listed_upto(all, i + 1)(p) && value_of(
                            p,
                            input@,
                            *foreign,
                        ) is Some implies listed_upto(all, i as int)(p) by {
                        assert(listed_upto(all, i + 1)(p) <==> listed_upto(all, i as int)(p) || p
                            == x);
                    }
                    assert forall|p: AstV| #[trigger]
                        listed_upto(all, i as int)(p) implies listed_upto(all, i + 1)(p) by {
                        assert(listed_upto(all, i + 1)(p) <==> listed_upto(all, i as int)(p) || p
                            == x);
                    }
                    lemma_gathers_also(
                        before,
                        input@,
                        *foreign,
                        listed_upto(all, i as int),
                        listed_upto(all, i + 1),
                    );
                }
            },
        }
        i += 1;
    }
    proof {
        assert(all.take(i as int) =~= all);
        let v = VsaV::Leaf(all);
        assert forall|p: AstV| #[trigger] listed_upto(all, i as int)(p) <==> holds(v, p) by {}
        assert forall|p: AstV| #[trigger] held_by(v)(p) implies listed_upto(all, i as int)(p) by {}
        lemma_gathers_also(
            out.entries(),
            input@,
            *foreign,
            listed_upto(all, i as int),
            held_by(v),
        );
    }
    out
}

/// Stores the spaces of a cache that sorts the programs of a space, each for
/// its value.
fn absorb_cache<E: ForeignEvaluator>(
    out: &mut GoalCache,
    sub: &GoalCache,
    foreign: &E,
    Ghost(given): Ghost<spec_fn(AstV) -> bool>,
    Ghost(member): Ghost<VsaV>,
    Ghost(input): Ghost<LitV>,
)
    requires
        old(out).wf(),
        sub.wf(),
        gathers(old(out).entries(), input, *foreign, given),
        clusters(sub.entries(), member, input, *foreign),
    ensures
        final(out).wf(),
        gathers(final(out).entries(), input, *foreign, or_held(given, member)),
{
    let ghost foreign = *foreign;
    let ghost entries = sub.entries();
    let n = sub.len();
    let mut j: usize = 0;
    proof {
        lemma_gathers_also(
            out.entries(),
            input,
            foreign,
            given,
            or_in_first(given, entries, 0),
        );
    }
    while j < n
        invariant
            j <= n,
            n == entries.len(),
            entries == sub.entries(),
            sub.wf(),
            out.wf(),
            clusters(entries, member, input, foreign),
            gathers(out.entries(), input, foreign, or_in_first(given, entries, j as int)),
        decreases n - j,
    {
        let ghost before = out.entries();
        let ghost space = entries[j as int].1;
        let ghost value = entries[j as int].0;
        proof {
            assert forall|p: AstV| #[trigger] holds(space, p) implies value_of(p, input, foreign)
                == Some(value) by {
                assert(holds(entries[j as int].1, p));
            }
            assert forall|p: AstV| #[trigger]
                or_in_first(given, entries, j + 1)(p) <==> or_in_first(given, entries, j as int)(p)
                    || holds(space, p) by {
                if holds(space, p) {
                    assert(holds(entries[j as int].1, p));
                }
                if or_in_first(given, entries, j + 1)(p) && !given(p) {
                    let k = choose|k: int| 0 <= k < j + 1 && holds(#[trigger] entries[k].1, p);
                    if k < j {
                        assert(holds(entries[k].1, p));
                    }
                }
                if or_in_first(given, entries, j as int)(p) && !given(p) {
                    let k = choose|k: int| 0 <= k < j && holds(#[trigger] entries[k].1, p);
                    assert(holds(entries[k].1, p));
                }
            }
            lemma_merged_gathers(
                before,
                input,
                foreign,
                or_in_first(given, entries, j as int),
                value,
                space,
                or_in_first(given, entries, j + 1),
            );
        }
        out.merge(sub.goal(j).clone(), share(sub.space(j)));
        j += 1;
    }
    proof {
        let narrow = or_in_first(given, entries, j as int);
        let wide = or_held(given, member);
        assert forall|p: AstV| #[trigger] narrow(p) && value_of(p, input, foreign) is Some implies wide(
            p,
        ) by {
            if !given(p) {
                let k = choose|k: int| 0 <= k < j && holds(#[trigger] entries[k].1, p);
                assert(holds(entries[k].1, p));
            }
        }
        assert forall|p: AstV| #[trigger] wide(p) && value_of(p, input, foreign) is Some implies narrow(
            p,
        ) by {
            if !given(p) {
                assert(holds(member, p));
                assert(held_by(member)(p));
                let o = value_of(p, input, foreign)->0;
                assert(holds_in(entries, o, p));
                let k = choose|k: int|
                    0 <= k < entries.len() && (#[trigger] entries[k]).0 == o && holds(
                        entries[k].1,
                        p,
                    );
                assert(holds(entries[k].1, p));
            }
        }
        lemma_gathers_also(out.entries(), input, foreign, narrow, wide);
    }
}

/// The test that no program passes.
pub open spec fn none_given() -> spec_fn(AstV) -> bool {
    |p: AstV| false
}

/// A program fits exactly where it fits with one of the entries of the next
/// cache chosen.
pub proof fn lemma_fits_step(op: Fun, chosen: Seq<VsaV>, caches: Seq<Seq<(LitV, VsaV)>>, p: AstV)
    requires
        chosen.len() < caches.len(),
    ensures
        fits(op, chosen, caches, p) <==> exists|k: int|
            0 <= k < caches[chosen.len() as int].len() && #[trigger] fits(
                op,
                chosen.push(caches[chosen.len() as int][k].1),
                caches,
                p,
            ),
{
    let at = chosen.len() as int;
    if fits(op, chosen, caches, p) {
        let args = p->App_args;
        assert(in_some_entry(caches[at], args[at]));
        let k = choose|k: int| 0 <= k < caches[at].len() && holds(#[trigger] caches[at][k].1, args[at]);
        let more = chosen.push(caches[at][k].1);
        assert(more.len() == at + 1);
        assert forall|i: int| 0 <= i < more.len() implies holds(#[trigger] more[i], args[i]) by {
            if i < at {
                assert(more[i] == chosen[i]);
                assert(holds(chosen[i], args[i]));
            } else {
                assert(more[i] == caches[at][k].1);
            }
        }
        assert forall|i: int| more.len() <= i < caches.len() implies #[trigger] in_some_entry(
            caches[i],
            args[i],
        ) by {
            assert(chosen.len() <= i < caches.len());
        }
        assert(fits(op, more, caches, p));
    }
    if exists|k: int|
        0 <= k < caches[at].len() && #[trigger] fits(op, chosen.push(caches[at][k].1), caches, p) {
        let k = choose|k: int|
            0 <= k < caches[at].len() && #[trigger] fits(
                op,
                chosen.push(caches[at][k].1),
                caches,
                p,
            );
        let more = chosen.push(caches[at][k].1);
        let args = p->App_args;
        assert(more.len() == at + 1);
        assert forall|i: int| 0 <= i < chosen.len() implies holds(#[trigger] chosen[i], args[i]) by {
            assert(more[i] == chosen[i]);
            assert(holds(more[i], args[i]));
        }
        assert forall|i: int| chosen.len() <= i < caches.len() implies #[trigger] in_some_entry(
            caches[i],
            args[i],
        ) by {
            if i == at {
                assert(more[at] == caches[at][k].1);
                assert(holds(more[at], args[at]));
                assert(holds(caches[at][k].1, args[at]));
            } else {
                assert(more.len() <= i < caches.len());
            }
        }
    }
}

/// Stores, for each choice of one entry from each of the caches after the
/// chosen ones, the join of the chosen spaces for the value of the operator on
/// their values, where it has one.
fn combine<E: ForeignEvaluator>(
    op: Fun,
    goals: &Vec<Lit>,
    caches: &Vec<GoalCache>,
    keys: &Vec<Lit>,
    chosen: &Vec<Rc<VSA>>,
    out: &mut GoalCache,
    input: &Lit,
    regexes: &mut RegexCache,
    evaluator: &E,
    Ghost(given): Ghost<spec_fn(AstV) -> bool>,
    Ghost(children): Ghost<Seq<VsaV>>,
)
    requires
        keys@.len() == chosen@.len(),
        chosen@.len() <= caches@.len(),
        each_clusters(caches@, children, input@, *evaluator),
        forall|i: int, p: AstV|
            0 <= i < chosen@.len() && #[trigger] holds(chosen@[i]@, p) ==> value_of(
                p,
                input@,
                *evaluator,
            ) == Some(keys@[i]@),
        old(out).wf(),
        old(regexes).wf(),
        gathers(old(out).entries(), input@, *evaluator, given),
    ensures
        final(out).wf(),
        final(regexes).wf(),
        final(regexes).limit() == old(regexes).limit(),
        gathers(
            final(out).entries(),
            input@,
            *evaluator,
            or_fits(given, op, vsa_views(chosen@), cache_views(caches@)),
        ),
    decreases caches@.len() - keys@.len(),
{
    let ghost foreign = *evaluator;
    let ghost cv = vsa_views(chosen@);
    let ghost kv = lit_views(keys@);
    let ghost all = cache_views(caches@);
    let ghost before = out.entries();
    if keys.len() == caches.len() {
        let space = VSA::Join {
            op,
            children: copy_spaces(chosen),
            children_goals: copy_lits(goals),
        };
        proof {
            lemma_join_view(op, space->Join_children, space->Join_children_goals);
            assert forall|p: AstV| fits(op, cv, all, p) <==> #[trigger] holds(space@, p) by {
                if fits(op, cv, all, p) {
                    let args = p->App_args;
                    assert forall|i: int|
                        #![trigger space@->Join_children[i]]
                        0 <= i < space@->Join_children.len() implies holds(
                        space@->Join_children[i],
                        args[i],
                    ) by {
                        assert(holds(cv[i], args[i]));
                    }
                }
                if holds(space@, p) {
                    let args = p->App_args;
                    assert forall|i: int| 0 <= i < cv.len() implies holds(
                        #[trigger] cv[i],
                        args[i],
                    ) by {
                        assert(holds(space@->Join_children[i], args[i]));
                    }
                }
            }
            assert forall|p: AstV| #[trigger] holds(space@, p) implies value_of(p, input@, foreign)
                == apply_fun(op, kv, input@) by {
                let args = p->App_args;
                assert forall|i: int| 0 <= i < args.len() implies value_of(
                    #[trigger] args[i],
                    input@,
                    foreign,
                ) == Some(kv[i]) by {
                    assert(holds(space@->Join_children[i], args[i]));
                    assert(holds(chosen@[i]@, args[i]));
                }
                lemma_value_of_joined(op, args, kv, input@, foreign);
            }
            assert(Seq::new(keys@.len(), |i: int| keys@[i]@) =~= kv);
        }
        if op.accepts(keys.as_slice(), input) {
            let value = op.eval(keys.as_slice(), input, regexes);
            proof {
                assert forall|p: AstV| #[trigger]
                    or_fits(given, op, cv, all)(p) <==> given(p) || holds(space@, p) by {}
                lemma_merged_gathers(
                    before,
                    input@,
                    foreign,
                    given,
                    value@,
                    space@,
                    or_fits(given, op, cv, all),
                );
            }
            out.merge(value, Rc::new(space));
        } else {
            proof {
                assert forall|p: AstV| #[trigger]
                    or_fits(given, op, cv, all)(p) && value_of(
                        p,
                        input@,
                        foreign,
                    ) is Some implies given(p) by {
                    if fits(op, cv, all, p) {
                        assert(holds(space@, p));
                    }
                }
                lemma_gathers_also(before, input@, foreign, given, or_fits(given, op, cv, all));
            }
        }
    } else {
        let at = keys.len();
        let next = &caches[at];
        let n = next.len();
        let ghost entries = next.entries();
        let mut k: usize = 0;
        proof {
            assert(all[at as int] == entries);
            assert(caches@[at as int].wf());
            lemma_gathers_also(before, input@, foreign, given, or_fits_first(given, op, cv, all, 0));
        }
        while k < n
            invariant
                k <= n,
                n == entries.len(),
                foreign == *evaluator,
                at == keys@.len(),
                at < caches@.len(),
                keys@.len() == chosen@.len(),
                entries == caches@[at as int].entries(),
                all == cache_views(caches@),
                cv == vsa_views(chosen@),
                kv == lit_views(keys@),
                each_clusters(caches@, children, input@, foreign),
                forall|i: int, p: AstV|
                    0 <= i < chosen@.len() && #[trigger] holds(chosen@[i]@, p) ==> value_of(
                        p,
                        input@,
                        foreign,
                    ) == Some(keys@[i]@),
                out.wf(),
                regexes.wf(),
                regexes.limit() == old(regexes).limit(),
                gathers(
                    out.entries(),
                    input@,
                    foreign,
                    or_fits_first(given, op, cv, all, k as int),
                ),
            decreases n - k,
        {
            let mut more_keys = copy_lits(keys);
            more_keys.push(caches[at].goal(k).clone());
            let mut more_chosen = copy_spaces(chosen);
            more_chosen.push(share(caches[at].space(k)));
            let ghost so_far = or_fits_first(given, op, cv, all, k as int);
            let ghost picked = entries[k as int].1;
            proof {
                assert(vsa_views(more_chosen@) =~= cv.push(picked));
                assert(lit_views(more_keys@) =~= kv.push(entries[k as int].0));
                assert(clusters(entries, children[at as int], input@, foreign));
                assert forall|i: int, p: AstV|
                    0 <= i < more_chosen@.len() && #[trigger] holds(
                        more_chosen@[i]@,
                        p,
                    ) implies value_of(p, input@, foreign) == Some(more_keys@[i]@) by {
                    if i < at {
                        assert(more_chosen@[i] == chosen@[i]);
                        assert(holds(chosen@[i]@, p));
                        assert(lit_views(more_keys@)[i] == kv[i]);
                    } else {
                        assert(holds(entries[k as int].1, p));
                        assert(lit_views(more_keys@)[i] == entries[k as int].0);
                    }
                }
            }
            combine(
                op,
                goals,
                caches,
                &more_keys,
                &more_chosen,
                out,
                input,
                regexes,
                evaluator,
                Ghost(so_far),
                Ghost(children),
            );
            proof {
                let got = or_fits(so_far, op, cv.push(picked), all);
                let wanted = or_fits_first(given, op, cv, all, k + 1);
                assert forall|p: AstV| #[trigger] got(p) implies wanted(p) by {
                    if fits(op, cv.push(picked), all, p) {
                        assert(fits(op, cv.push(all[cv.len() as int][k as int].1), all, p));
                    } else if !given(p) {
                        let j = choose|j: int|
                            0 <= j < k && #[trigger] fits(
                                op,
                                cv.push(all[cv.len() as int][j].1),
                                all,
                                p,
                            );
                        assert(fits(op, cv.push(all[cv.len() as int][j].1), all, p));
                    }
                }
                assert forall|p: AstV| #[trigger] wanted(p) implies got(p) by {
                    if !given(p) {
                        let j = choose|j: int|
                            0 <= j < k + 1 && #[trigger] fits(
                                op,
                                cv.push(all[cv.len() as int][j].1),
                                all,
                                p,
                            );
                        if j < k {
                            assert(so_far(p));
                        }
                    }
                }
                lemma_gathers_also(out.entries(), input@, foreign, got, wanted);
            }
            k += 1;
        }
        proof {
            let got = or_fits_first(given, op, cv, all, k as int);
            let wanted = or_fits(given, op, cv, all);
            assert forall|p: AstV| #[trigger] got(p) <==> wanted(p) by {
                lemma_fits_step(op, cv, all, p);
            }
            assert forall|p: AstV| #[trigger] wanted(p) implies got(p) by {
                assert(got(p) <==> wanted(p));
            }
            lemma_gathers_also(out.entries(), input@, foreign, got, wanted);
        }
    }
}

impl VSA {
    /// The programs of the space sorted by their value on the input: for each
    /// value that a program of the space has, a space that holds the programs
    /// with that value, and no others. Programs without a value are left out.
    #[verifier::loop_isolation(false)]
    pub fn cluster<E: ForeignEvaluator>(
        vsa: Rc<VSA>,
        input: &Lit,
        regexes: &mut RegexCache,
        foreign: &E,
    ) -> (out: GoalCache)
        requires
            old(regexes).wf(),
            foreign.usable(),
        ensures
            final(regexes).wf(),
            final(regexes).limit() == old(regexes).limit(),
            out.wf(),
            clusters(out.entries(), vsa@, input@, *foreign),
        decreases vsa@,
    {
        match &*vsa {
            VSA::Leaf(programs) => cluster_leaf(programs, input, regexes, foreign),
            VSA::Union(members) => {
                proof {
                    lemma_union_view(*members);
                }
                let ghost views = vsa_views(members@);
                let mut out = GoalCache::new();
                let mut i: usize = 0;
                proof {
                    assert(gathers(out.entries(), input@, *foreign, held_by_first(views, 0)));
                }
                while i < members.len()
                    invariant
                        i <= members.len(),
                        out.wf(),
                        regexes.wf(),
                        regexes.limit() == old(regexes).limit(),
                        gathers(out.entries(), input@, *foreign, held_by_first(views, i as int)),
                    decreases members.len() - i,
                {
                    assert(vsa_views(members@)[i as int] == members@[i as int]@);
                    assert(vsa@->Union_0 == vsa_views(members@));
                    let sub = VSA::cluster(share(&members[i]), input, regexes, foreign);
                    absorb_cache(
                        &mut out,
                        &sub,
                        foreign,
                        Ghost(held_by_first(views, i as int)),
                        Ghost(views[i as int]),
                        Ghost(input@),
                    );
                    proof {
                        let got = or_held(held_by_first(views, i as int), views[i as int]);
                        let wanted = held_by_first(views, i + 1);
                        assert forall|p: AstV| #[trigger] got(p) implies wanted(p) by {
                            if holds(views[i as int], p) {
                            } else {
                                let k = choose|k: int| 0 <= k < i && holds(#[trigger] views[k], p);
                                assert(holds(views[k], p));
                            }
                        }
                        assert forall|p: AstV| #[trigger] wanted(p) implies got(p) by {
                            let k = choose|k: int| 0 <= k < i + 1 && holds(#[trigger] views[k], p);
                            if k < i {
                                assert(holds(views[k], p));
                            }
                        }
                        lemma_gathers_also(out.entries(), input@, *foreign, got, wanted);
                    }
                    i += 1;
                }
                proof {
                    let got = held_by_first(views, i as int);
                    let wanted = held_by(vsa@);
                    assert forall|p: AstV| #[trigger] got(p) implies wanted(p) by {
                        let k = choose|k: int| 0 <= k < i && holds(#[trigger] views[k], p);
                        crate::vsa::lemma_member_holds(views, k, p);
                    }
                    assert forall|p: AstV| #[trigger] wanted(p) implies got(p) by {
                        crate::flat_laws::lemma_union_holds(views, p);
                        let k = choose|k: int| 0 <= k < views.len() && holds(#[trigger] views[k], p);
                        assert(holds(views[k], p));
                    }
                    lemma_gathers_also(out.entries(), input@, *foreign, got, wanted);
                }
                out
            },
            VSA::Join { op, children, children_goals } => {
                proof {
                    lemma_join_view(*op, *children, *children_goals);
                }
                let ghost views = vsa_views(children@);
                let mut caches: Vec<GoalCache> = Vec::new();
                let mut i: usize = 0;
                while i < children.len()
                    invariant
                        i <= children.len(),
                        caches@.len() == i,
                        regexes.wf(),
                        regexes.limit() == old(regexes).limit(),
                        forall|k: int|
                            0 <= k < i ==> (#[trigger] caches@[k]).wf() && clusters(
                                caches@[k].entries(),
                                views[k],
                                input@,
                                *foreign,
                            ),
                    decreases children.len() - i,
                {
                    assert(vsa_views(children@)[i as int] == children@[i as int]@);
                    assert(vsa@->Join_children == vsa_views(children@));
                    let sub = VSA::cluster(share(&children[i]), input, regexes, foreign);
                    caches.push(sub);
                    i += 1;
                }
                let mut out = GoalCache::new();
                let keys: Vec<Lit> = Vec::new();
                let chosen: Vec<Rc<VSA>> = Vec::new();
                proof {
                    assert(gathers(out.entries(), input@, *foreign, none_given()));
                }
                combine(
                    *op,
                    children_goals,
                    &caches,
                    &keys,
                    &chosen,
                    &mut out,
                    input,
                    regexes,
                    foreign,
                    Ghost(none_given()),
                    Ghost(views),
                );
                proof {
                    let all = cache_views(caches@);
                    let none: Seq<VsaV> = vsa_views(chosen@);
                    let got = or_fits(none_given(), *op, none, all);
                    let wanted = held_by(vsa@);
                    assert forall|p: AstV| #[trigger] got(p) implies wanted(p) by {
                        let args = p->App_args;
                        assert forall|k: int|
                            #![trigger vsa@->Join_children[k]]
                            0 <= k < views.len() implies holds(vsa@->Join_children[k], args[k]) by {
                            assert(in_some_entry(all[k], args[k]));
                            let j = choose|j: int|
                                0 <= j < all[k].len() && holds(#[trigger] all[k][j].1, args[k]);
                            assert(caches@[k].wf());
                            assert(holds(caches@[k].entries()[j].1, args[k]));
                            assert(held_by(views[k])(args[k]));
                        }
                    }
                    assert forall|p: AstV| #[trigger]
                        wanted(p) && value_of(p, input@, *foreign) is Some implies got(p) by {
                        let args = p->App_args;
                        assert forall|k: int| 0 <= k < all.len() implies #[trigger] in_some_entry(
                            all[k],
                            args[k],
                        ) by {
                            assert(holds(vsa@->Join_children[k], args[k]));
                            lemma_valued_arguments(*op, args, input@, *foreign, k);
                            assert(caches@[k].wf());
                            assert(held_by(views[k])(args[k]));
                            let o = value_of(args[k], input@, *foreign)->0;
                            assert(holds_in(caches@[k].entries(), o, args[k]));
                            let j = choose|j: int|
                                0 <= j < caches@[k].entries().len() && (
                                #[trigger] caches@[k].entries()[j]).0 == o && holds(
                                    caches@[k].entries()[j].1,
                                    args[k],
                                );
                            assert(holds(all[k][j].1, args[k]));
                        }
                        assert(none.len() == 0);
                        assert(all.len() == views.len());
                        assert(p is App && p->App_fun == *op && args.len() == all.len());
                        assert(fits(*op, none, all, p));
                    }
                    lemma_gathers_also(out.entries(), input@, *foreign, got, wanted);
                }
                out
            },
            VSA::Unlearned { start, goal } => {
                let out = GoalCache::new();
                proof {
                    assert(gathers(out.entries(), input@, *foreign, held_by(vsa@)));
                }
                out
            },
        }
    }
}

} // verus!
