use vstd::prelude::*;
use crate::ast::ast_views;
use crate::ast::AstV;
use crate::ast::AST;
use crate::bank::Bank;
use crate::cache::absorbed;
use crate::cache::is_new;
use crate::cache::OutputCache;
use crate::enumerate::candidates;
use crate::enumerate::candidates_of;
use crate::eval::all_some;
use crate::eval::unwrapped;
use crate::eval::value_of;
use crate::eval::ForeignEvaluator;
use crate::lit::lit_views;
use crate::lit::Lit;
use crate::lit::LitV;
use crate::pattern::RegexCache;
use crate::vsa::VsaV;

verus! {

/// The values of a program on the inputs, one for each input.
pub open spec fn values_on<E: ForeignEvaluator>(p: AstV, inputs: Seq<LitV>, foreign: E) -> Seq<
    Option<LitV>,
> {
    Seq::new(inputs.len(), |i: int| value_of(p, inputs[i], foreign))
}

/// The outputs of a program on the inputs, where it has a value on each.
pub open spec fn outputs_of<E: ForeignEvaluator>(p: AstV, inputs: Seq<LitV>, foreign: E) -> Option<
    Seq<LitV>,
> {
    let values = values_on(p, inputs, foreign);
    if all_some(values) {
        Some(unwrapped(values))
    } else {
        None
    }
}

/// The entries of the cache after the candidates were taken in, one after the
/// other. A candidate without outputs changes nothing.
pub open spec fn cache_after<E: ForeignEvaluator>(
    entries: Seq<(Seq<LitV>, VsaV)>,
    inputs: Seq<LitV>,
    tried: Seq<AstV>,
    foreign: E,
) -> Seq<(Seq<LitV>, VsaV)>
    decreases tried.len(),
{
    if tried.len() == 0 {
        entries
    } else {
        let before = cache_after(entries, inputs, tried.drop_last(), foreign);
        match outputs_of(tried.last(), inputs, foreign) {
            Some(outs) => absorbed(before, outs, tried.last()),
            None => before,
        }
    }
}

/// The candidates that are kept for the bank: those whose outputs the cache had
/// not met when their turn came.
pub open spec fn kept_of<E: ForeignEvaluator>(
    entries: Seq<(Seq<LitV>, VsaV)>,
    inputs: Seq<LitV>,
    tried: Seq<AstV>,
    foreign: E,
) -> Seq<AstV>
    decreases tried.len(),
{
    if tried.len() == 0 {
        Seq::empty()
    } else {
        let before = cache_after(entries, inputs, tried.drop_last(), foreign);
        let kept = kept_of(entries, inputs, tried.drop_last(), foreign);
        match outputs_of(tried.last(), inputs, foreign) {
            Some(outs) => if is_new(before, outs) {
                kept.push(tried.last())
            } else {
                kept
            },
            None => kept,
        }
    }
}

/// The buckets with empty buckets added until there is one for each size up to
/// `size`.
pub open spec fn grown(buckets: Seq<Seq<AstV>>, size: nat) -> Seq<Seq<AstV>> {
    if size > buckets.len() {
        buckets + Seq::new((size - buckets.len()) as nat, |k: int| Seq::<AstV>::empty())
    } else {
        buckets
    }
}

/// The outputs of the program on the inputs, where it has a value on each.
pub fn outputs<E: ForeignEvaluator>(
    program: &AST,
    inputs: &Vec<Lit>,
    regexes: &mut RegexCache,
    foreign: &E,
) -> (out: Option<Vec<Lit>>)
    requires
        old(regexes).wf(),
        foreign.usable(),
    ensures
        final(regexes).wf(),
        final(regexes).limit() == old(regexes).limit(),
        match out {
            Some(outs) => Some(lit_views(outs@)) == outputs_of(program@, lit_views(inputs@), *foreign),
            None => outputs_of(program@, lit_views(inputs@), *foreign) is None,
        },
{
    let ghost expected = values_on(program@, lit_views(inputs@), *foreign);
    let mut outs: Vec<Lit> = Vec::new();
    let mut i: usize = 0;
    while i < inputs.len()
        invariant
            i <= inputs.len(),
            outs@.len() == i,
            foreign.usable(),
            regexes.wf(),
            regexes.limit() == old(regexes).limit(),
            expected == values_on(program@, lit_views(inputs@), *foreign),
            forall|k: int|
                #![trigger expected[k]]
                #![trigger outs@[k]]
                0 <= k < i ==> expected[k] == Some(outs@[k]@),
        decreases inputs.len() - i,
    {
        match program.try_eval(&inputs[i], regexes, foreign) {
            Some(v) => {
                outs.push(v);
            },
            None => {
                proof {
                    assert(expected[i as int] is None);
                }
                return None;
            },
        }
        i += 1;
    }
    proof {
        assert(all_some(expected));
        assert(lit_views(outs@) =~= unwrapped(expected));
    }
    Some(outs)
}

/// Grows the bank by the programs of `size` nodes that can be told apart on the
/// inputs. Each candidate is built from smaller programs of the bank and of the
/// bank of regular expressions. Where the cache has met its outputs, it joins
/// the space stored for them; where not, it is stored for them and kept for the
/// bank.
pub fn bottom_up<E: ForeignEvaluator>(
    inputs: &Vec<Lit>,
    size: usize,
    cache: &mut OutputCache,
    bank: &mut Bank,
    regex_bank: &mut Bank,
    enable_bools: bool,
    regexes: &mut RegexCache,
    foreign: &E,
)
    requires
        size >= 1,
        old(cache).wf(),
        old(regexes).wf(),
        foreign.usable(),
    ensures
        final(cache).wf(),
        final(regexes).wf(),
        final(regexes).limit() == old(regexes).limit(),
        final(regex_bank)@ == grown(old(regex_bank)@, size as nat),
        crate::bank::sized(old(bank)@) && crate::bank::sized(old(regex_bank)@) ==> crate::bank::sized(
            final(bank)@,
        ) && crate::bank::sized(final(regex_bank)@),
        crate::wf_laws::cache_well_formed(old(cache).entries())
            ==> crate::wf_laws::cache_well_formed(final(cache).entries()),
        final(cache).entries() == cache_after(
            old(cache).entries(),
            lit_views(inputs@),
            candidates(
                grown(old(bank)@, size as nat),
                grown(old(regex_bank)@, size as nat),
                size as int,
                enable_bools,
            ),
            *foreign,
        ),
        final(bank)@ == grown(old(bank)@, size as nat).update(
            size - 1,
            grown(old(bank)@, size as nat)[size - 1] + kept_of(
                old(cache).entries(),
                lit_views(inputs@),
                candidates(
                    grown(old(bank)@, size as nat),
                    grown(old(regex_bank)@, size as nat),
                    size as int,
                    enable_bools,
                ),
                *foreign,
            ),
        ),
{
    let ghost bank_before = bank@;
    let ghost regex_before = regex_bank@;
    let ghost entries = cache.entries();
    proof {
        if crate::bank::sized(bank@) && crate::bank::sized(regex_bank@) {
            crate::size_laws::lemma_round_keeps_sizes(
                bank@,
                regex_bank@,
                entries,
                lit_views(inputs@),
                size as nat,
                enable_bools,
                *foreign,
            );
        }
        if crate::wf_laws::cache_well_formed(entries) {
            crate::wf_laws::lemma_cache_after_well_formed(
                entries,
                lit_views(inputs@),
                candidates(
                    grown(bank@, size as nat),
                    grown(regex_bank@, size as nat),
                    size as int,
                    enable_bools,
                ),
                *foreign,
            );
        }
    }
    bank.grow_to(size);
    regex_bank.grow_to(size);
    proof {
        assert(bank@ =~= grown(bank_before, size as nat));
        assert(regex_bank@ =~= grown(regex_before, size as nat));
    }
    let ghost base = bank@;
    let tried = candidates_of(bank, regex_bank, size, enable_bools);
    let ghost all = ast_views(tried@);
    let ghost ins = lit_views(inputs@);
    let mut kept: Vec<AST> = Vec::new();
    let mut i: usize = 0;
    proof {
        assert(all.take(0) =~= Seq::empty());
        assert(ast_views(kept@) =~= Seq::empty());
    }
    while i < tried.len()
        invariant
            i <= tried.len(),
            all == ast_views(tried@),
            ins == lit_views(inputs@),
            cache.wf(),
            foreign.usable(),
            regexes.wf(),
            regexes.limit() == old(regexes).limit(),
            cache.entries() == cache_after(entries, ins, all.take(i as int), *foreign),
            ast_views(kept@) == kept_of(entries, ins, all.take(i as int), *foreign),
        decreases tried.len() - i,
    {
        proof {
            assert(all.take(i + 1).drop_last() =~= all.take(i as int));
            assert(all.take(i + 1).last() == tried@[i as int]@);
        }
        match outputs(&tried[i], inputs, regexes, foreign) {
            Some(outs) => {
                if cache.absorb(outs, tried[i].clone()) {
                    let ghost mid = kept@;
                    kept.push(tried[i].clone());
                    proof {
                        assert(ast_views(kept@) =~= ast_views(mid).push(tried@[i as int]@));
                    }
                }
            },
            None => {},
        }
        i += 1;
    }
    proof {
        assert(all.take(i as int) =~= all);
    }
    let ghost found = ast_views(kept@);
    let mut j: usize = 0;
    proof {
        assert(found.take(0) =~= Seq::empty());
        assert(bank@ =~= base.update(size - 1, base[size - 1] + found.take(0)));
    }
    while j < kept.len()
        invariant
            j <= kept.len(),
            1 <= size <= base.len(),
            found == ast_views(kept@),
            bank@ == base.update(size - 1, base[size - 1] + found.take(j as int)),
        decreases kept.len() - j,
    {
        bank.push(size, kept[j].clone());
        proof {
            assert(found.take(j + 1) =~= found.take(j as int).push(kept@[j as int]@));
            assert(bank@ =~= base.update(size - 1, base[size - 1] + found.take(j + 1)));
        }
        j += 1;
    }
    proof {
        assert(found.take(j as int) =~= found);
    }
}

} // verus!
