use vstd::prelude::*;
use crate::ast::AstV;
use crate::bottom_up::cache_after;
use crate::bottom_up::kept_of;
use crate::bottom_up::outputs_of;
use crate::cache::absorbed;
use crate::cache::first_place;
use crate::cache::is_new;
use crate::cache::lemma_place_of;
use crate::cache::place_of;
use crate::eval::ForeignEvaluator;
use crate::laws::lemma_unify_denotes_union;
use crate::lit::LitV;
use crate::vsa::holds;
use crate::vsa::VsaV;

verus! {

/// Whether the programs can be told apart on the inputs: no two of them that
/// have outputs have the same.
pub open spec fn told_apart<E: ForeignEvaluator>(
    programs: Seq<AstV>,
    inputs: Seq<LitV>,
    foreign: E,
) -> bool {
    forall|i: int, j: int|
        0 <= i < j < programs.len() && outputs_of(#[trigger] programs[i], inputs, foreign) is Some
            ==> outputs_of(programs[i], inputs, foreign) != outputs_of(
            #[trigger] programs[j],
            inputs,
            foreign,
        )
}

/// Whether the program, where it has outputs, is held by the space that the
/// cache stores for them.
pub open spec fn stored_for<E: ForeignEvaluator>(
    entries: Seq<(Seq<LitV>, VsaV)>,
    p: AstV,
    inputs: Seq<LitV>,
    foreign: E,
) -> bool {
    outputs_of(p, inputs, foreign) matches Some(outs) ==> {
        let at = place_of(entries, outs);
        at < entries.len() && holds(entries[at].1, p)
    }
}

/// Whether each of the programs is held by the space stored for its outputs.
pub open spec fn all_stored<E: ForeignEvaluator>(
    entries: Seq<(Seq<LitV>, VsaV)>,
    programs: Seq<AstV>,
    inputs: Seq<LitV>,
    foreign: E,
) -> bool {
    forall|i: int|
        0 <= i < programs.len() ==> stored_for(entries, #[trigger] programs[i], inputs, foreign)
}

/// There is a first place of each key.
pub proof fn lemma_first_place_exists<K, V>(entries: Seq<(K, V)>, key: K)
    ensures
        first_place(entries, key, place_of(entries, key)),
    decreases entries.len(),
{
    if entries.len() == 0 {
        assert(first_place(entries, key, 0));
    } else {
        let front = entries.drop_last();
        lemma_first_place_exists(front, key);
        let at = place_of(front, key);
        if at < front.len() {
            assert(first_place(entries, key, at)) by {
                assert(entries[at] == front[at]);
                assert forall|j: int| 0 <= j < at implies (#[trigger] entries[j]).0 != key by {
                    assert(entries[j] == front[j]);
                }
            }
        } else if entries.last().0 == key {
            assert(first_place(entries, key, at)) by {
                assert forall|j: int| 0 <= j < at implies (#[trigger] entries[j]).0 != key by {
                    assert(entries[j] == front[j]);
                }
            }
        } else {
            assert(first_place(entries, key, at + 1)) by {
                assert forall|j: int| 0 <= j < at + 1 implies (#[trigger] entries[j]).0 != key by {
                    if j < at {
                        assert(entries[j] == front[j]);
                    }
                }
            }
        }
    }
}

/// A program that is held stays held when another is taken in.
pub proof fn lemma_absorbed_keeps_stored<E: ForeignEvaluator>(
    entries: Seq<(Seq<LitV>, VsaV)>,
    outs: Seq<LitV>,
    taken: AstV,
    p: AstV,
    inputs: Seq<LitV>,
    foreign: E,
)
    requires
        stored_for(entries, p, inputs, foreign),
    ensures
        stored_for(absorbed(entries, outs, taken), p, inputs, foreign),
{
    if outputs_of(p, inputs, foreign) is Some {
        let mine = outputs_of(p, inputs, foreign)->0;
        let at = place_of(entries, mine);
        let to = place_of(entries, outs);
        let after = absorbed(entries, outs, taken);
        lemma_first_place_exists(entries, mine);
        lemma_first_place_exists(entries, outs);
        assert(first_place(after, mine, at)) by {
            assert forall|j: int| 0 <= j < at implies (#[trigger] after[j]).0 != mine by {
                assert(entries[j].0 != mine);
            }
        }
        lemma_place_of(after, mine, at);
        if to < entries.len() && to == at {
            lemma_unify_denotes_union(entries[at].1, VsaV::Leaf(seq![taken]), p);
        }
    }
}

/// A program that is taken in is held by the space stored for its outputs.
pub proof fn lemma_absorbed_stores<E: ForeignEvaluator>(
    entries: Seq<(Seq<LitV>, VsaV)>,
    outs: Seq<LitV>,
    taken: AstV,
    inputs: Seq<LitV>,
    foreign: E,
)
    requires
        outputs_of(taken, inputs, foreign) == Some(outs),
    ensures
        stored_for(absorbed(entries, outs, taken), taken, inputs, foreign),
{
    let to = place_of(entries, outs);
    let after = absorbed(entries, outs, taken);
    lemma_first_place_exists(entries, outs);
    let one = VsaV::Leaf(seq![taken]);
    assert(holds(one, taken)) by {
        assert(seq![taken][0] == taken);
    }
    assert(first_place(after, outs, to)) by {
        assert forall|j: int| 0 <= j < to implies (#[trigger] after[j]).0 != outs by {
            assert(entries[j].0 != outs);
        }
    }
    lemma_place_of(after, outs, to);
    if to < entries.len() {
        lemma_unify_denotes_union(entries[to].1, one, taken);
    }
}

/// Enumeration keeps the bank told apart: where no two programs of the bank
/// have the same outputs on the inputs, and each is held by the space stored for
/// its outputs, the same is true after a round of the programs of the bank
/// together with those that the round keeps; and every candidate of the round
/// that has outputs is held by the space stored for them, kept or not.
pub proof fn lemma_round_tells_apart<E: ForeignEvaluator>(
    entries: Seq<(Seq<LitV>, VsaV)>,
    inputs: Seq<LitV>,
    programs: Seq<AstV>,
    tried: Seq<AstV>,
    foreign: E,
)
    requires
        told_apart(programs, inputs, foreign),
        all_stored(entries, programs, inputs, foreign),
    ensures
        told_apart(programs + kept_of(entries, inputs, tried, foreign), inputs, foreign),
        all_stored(
            cache_after(entries, inputs, tried, foreign),
            programs + kept_of(entries, inputs, tried, foreign),
            inputs,
            foreign,
        ),
        all_stored(cache_after(entries, inputs, tried, foreign), tried, inputs, foreign),
        forall|k: int|
            0 <= k < kept_of(entries, inputs, tried, foreign).len() ==> outputs_of(
                #[trigger] kept_of(entries, inputs, tried, foreign)[k],
                inputs,
                foreign,
            ) is Some,
    decreases tried.len(),
{
    if tried.len() == 0 {
        assert(programs + kept_of(entries, inputs, tried, foreign) =~= programs);
    } else {
        let front = tried.drop_last();
        let x = tried.last();
        lemma_round_tells_apart(entries, inputs, programs, front, foreign);
        let before = cache_after(entries, inputs, front, foreign);
        let kept = kept_of(entries, inputs, front, foreign);
        let known = programs + kept;
        let after = cache_after(entries, inputs, tried, foreign);
        let now = programs + kept_of(entries, inputs, tried, foreign);
        match outputs_of(x, inputs, foreign) {
            None => {
                assert forall|i: int| 0 <= i < tried.len() implies stored_for(
                    after,
                    #[trigger] tried[i],
                    inputs,
                    foreign,
                ) by {
                    if i < front.len() {
                        assert(tried[i] == front[i]);
                    }
                }
            },
            Some(outs) => {
                assert forall|i: int| 0 <= i < tried.len() implies stored_for(
                    after,
                    #[trigger] tried[i],
                    inputs,
                    foreign,
                ) by {
                    if i < front.len() {
                        assert(tried[i] == front[i]);
                        lemma_absorbed_keeps_stored(before, outs, x, front[i], inputs, foreign);
                    } else {
                        lemma_absorbed_stores(before, outs, x, inputs, foreign);
                    }
                }
                assert forall|i: int| 0 <= i < known.len() implies stored_for(
                    after,
                    #[trigger] known[i],
                    inputs,
                    foreign,
                ) by {
                    lemma_absorbed_keeps_stored(before, outs, x, known[i], inputs, foreign);
                }
                if is_new(before, outs) {
                    assert(now =~= known.push(x));
                    lemma_absorbed_stores(before, outs, x, inputs, foreign);
                    assert forall|i: int| 0 <= i < now.len() implies stored_for(
                        after,
                        #[trigger] now[i],
                        inputs,
                        foreign,
                    ) by {
                        if i < known.len() {
                            assert(now[i] == known[i]);
                        }
                    }
                    assert forall|i: int, j: int|
                        0 <= i < j < now.len() && outputs_of(
                            #[trigger] now[i],
                            inputs,
                            foreign,
                        ) is Some implies outputs_of(now[i], inputs, foreign) != outputs_of(
                        #[trigger] now[j],
                        inputs,
                        foreign,
                    ) by {
                        assert(now[i] == known[i]);
                        if j < known.len() {
                            assert(now[j] == known[j]);
                        } else {
                            assert(stored_for(before, known[i], inputs, foreign));
                        }
                    }
                    let kept_now = kept_of(entries, inputs, tried, foreign);
                    assert forall|k: int| 0 <= k < kept_now.len() implies outputs_of(
                        #[trigger] kept_now[k],
                        inputs,
                        foreign,
                    ) is Some by {
                        if k < kept.len() {
                            assert(kept_now[k] == kept[k]);
                        }
                    }
                } else {
                    assert(now =~= known);
                }
            },
        }
    }
}

} // verus!
