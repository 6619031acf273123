use std::rc::Rc;
use vstd::prelude::*;
use crate::ast::AstV;
use crate::ast::AST;
use crate::bank::Bank;
use crate::best::best_of;
use crate::best::ranking_of;
use crate::best::ByCost;
use crate::bottom_up::cache_after;
use crate::bottom_up::grown;
use crate::bottom_up::kept_of;
use crate::cache::merged;
use crate::cache::GoalCache;
use crate::cache::OutputCache;
use crate::enumerate::candidates;
use crate::eval::value_of;
use crate::eval::Echo;
use crate::eval::ForeignEvaluator;
use crate::learn::full_depth;
use crate::learn::learn;
use crate::learn::learned;
use crate::lit::lit_views;
use crate::lit::Lit;
use crate::lit::LitV;
use crate::pattern::RegexCache;
use crate::seed::as_programs;
use crate::seed::common_marks;
use crate::seed::constants;
use crate::seed::example_views;
use crate::seed::regex_atoms;
use crate::seed::seeded_cache;
use crate::vsa::intersected;
use crate::vsa::opt_ast_view;
use crate::vsa::share;
use crate::vsa::VsaV;
use crate::vsa::VSA;

verus! {

/// What the search has found: the bank, the bank of regular expressions, and
/// the spaces stored by their outputs.
pub struct Progress {
    pub bank: Seq<Seq<AstV>>,
    pub regex_bank: Seq<Seq<AstV>>,
    pub cache: Seq<(Seq<LitV>, VsaV)>,
}

/// The largest size of programs that the search enumerates.
pub const LARGEST_SIZE: usize = 6;

/// The inputs of the examples.
pub open spec fn inputs_of(examples: Seq<(LitV, LitV)>) -> Seq<LitV> {
    Seq::new(examples.len(), |i: int| examples[i].0)
}

/// Whether an example asks for a truth value.
pub open spec fn wants_bools(examples: Seq<(LitV, LitV)>) -> bool {
    exists|i: int| 0 <= i < examples.len() && (#[trigger] examples[i]).1 is BoolConst
}

/// What the search starts from: the constants and the marks that every example
/// has, as programs of size 1 and each stored for itself.
pub open spec fn start(examples: Seq<(LitV, LitV)>) -> Progress {
    let marks = common_marks(examples);
    Progress {
        bank: seq![as_programs(constants() + marks)],
        regex_bank: seq![as_programs(regex_atoms() + marks)],
        cache: seeded_cache(constants() + marks, examples.len()),
    }
}

/// What the search has found after the programs of `size` were enumerated.
pub open spec fn after_round<E: ForeignEvaluator>(
    before: Progress,
    examples: Seq<(LitV, LitV)>,
    size: nat,
    foreign: E,
) -> Progress {
    let bank = grown(before.bank, size);
    let regex_bank = grown(before.regex_bank, size);
    let tried = candidates(bank, regex_bank, size as int, wants_bools(examples));
    Progress {
        bank: bank.update(
            size - 1,
            bank[size - 1] + kept_of(before.cache, inputs_of(examples), tried, foreign),
        ),
        regex_bank,
        cache: cache_after(before.cache, inputs_of(examples), tried, foreign),
    }
}

/// The spaces of the cache by the output on the input at place `i`: spaces with
/// the same output there are united, the later one first.
pub open spec fn projected(entries: Seq<(Seq<LitV>, VsaV)>, i: int) -> Seq<(LitV, VsaV)>
    decreases entries.len(),
{
    if entries.len() == 0 {
        Seq::empty()
    } else {
        let before = projected(entries.drop_last(), i);
        let last = entries.last();
        if 0 <= i < last.0.len() {
            merged(before, last.0[i], last.1)
        } else {
            before
        }
    }
}

/// The space learned for the example at place `i`.
pub open spec fn space_for(examples: Seq<(LitV, LitV)>, found: Progress, i: int) -> VsaV {
    learned(
        examples[i].0,
        examples[i].1,
        projected(found.cache, i),
        found.bank,
        full_depth(examples[i].1),
    )
}

/// Whether the program gives on each input of the examples its output.
pub open spec fn satisfies<E: ForeignEvaluator>(
    p: AstV,
    examples: Seq<(LitV, LitV)>,
    foreign: E,
) -> bool {
    forall|i: int|
        0 <= i < examples.len() ==> value_of(p, (#[trigger] examples[i]).0, foreign) == Some(
            examples[i].1,
        )
}

/// Whether the cheapest program of the space satisfies the examples.
pub open spec fn settled<E: ForeignEvaluator>(
    v: VsaV,
    examples: Seq<(LitV, LitV)>,
    foreign: E,
) -> bool {
    match best_of(v, ranking_of(ByCost)) {
        Some(p) => satisfies(p, examples, foreign),
        None => false,
    }
}

/// The space for the examples up to place `upto`: that of the first example,
/// intersected with that of each further one in turn until the cheapest
/// program satisfies all examples.
pub open spec fn folded<E: ForeignEvaluator>(
    examples: Seq<(LitV, LitV)>,
    found: Progress,
    foreign: E,
    upto: int,
) -> VsaV
    decreases upto,
{
    if upto <= 0 {
        space_for(examples, found, 0)
    } else {
        let before = folded(examples, found, foreign, upto - 1);
        if settled(before, examples, foreign) {
            before
        } else {
            intersected(before, space_for(examples, found, upto))
        }
    }
}

/// The outcome of the search from the given size on: after each round the
/// spaces of the examples are intersected; the first round whose space has a
/// cheapest program ends the search with it; after the largest size the search
/// ends without a program.
pub open spec fn search<E: ForeignEvaluator>(
    examples: Seq<(LitV, LitV)>,
    before: Progress,
    size: nat,
    foreign: E,
) -> (VsaV, Option<AstV>)
    decreases LARGEST_SIZE + 1 - size,
{
    let found = after_round(before, examples, size, foreign);
    let result = folded(examples, found, foreign, examples.len() - 1);
    match best_of(result, ranking_of(ByCost)) {
        Some(p) => (result, Some(p)),
        None => if size >= LARGEST_SIZE {
            (result, None)
        } else {
            search(examples, found, size + 1, foreign)
        },
    }
}

/// The outcome of synthesis for the examples.
pub open spec fn synthesis<E: ForeignEvaluator>(examples: Seq<(LitV, LitV)>, foreign: E) -> (
    VsaV,
    Option<AstV>,
) {
    search(examples, start(examples), 1, foreign)
}

/// Where the space that synthesis gives is settled, the program that it gives
/// satisfies every example.
pub proof fn lemma_settled_synthesis_satisfies<E: ForeignEvaluator>(
    examples: Seq<(LitV, LitV)>,
    foreign: E,
)
    requires
        settled(synthesis(examples, foreign).0, examples, foreign),
    ensures
        synthesis(examples, foreign).1 matches Some(p) && satisfies(p, examples, foreign),
{
    lemma_search_gives_best(examples, start(examples), 1, foreign);
}

/// The program that a search gives is the cheapest of the space that it gives.
pub proof fn lemma_search_gives_best<E: ForeignEvaluator>(
    examples: Seq<(LitV, LitV)>,
    before: Progress,
    size: nat,
    foreign: E,
)
    ensures
        search(examples, before, size, foreign).1 == best_of(
            search(examples, before, size, foreign).0,
            ranking_of(ByCost),
        ),
    decreases LARGEST_SIZE + 1 - size,
{
    let found = after_round(before, examples, size, foreign);
    let result = folded(examples, found, foreign, examples.len() - 1);
    if best_of(result, ranking_of(ByCost)) is None && size < LARGEST_SIZE {
        lemma_search_gives_best(examples, found, size + 1, foreign);
    }
}

/// Once the cheapest program satisfies the examples, further examples change
/// nothing.
pub proof fn lemma_folded_settled<E: ForeignEvaluator>(
    examples: Seq<(LitV, LitV)>,
    found: Progress,
    foreign: E,
    at: int,
    upto: int,
)
    requires
        0 <= at <= upto,
        settled(folded(examples, found, foreign, at), examples, foreign),
    ensures
        folded(examples, found, foreign, upto) == folded(examples, found, foreign, at),
    decreases upto - at,
{
    if at < upto {
        lemma_folded_settled(examples, found, foreign, at, upto - 1);
    }
}

/// The spaces of the cache by the output on the input at place `i`.
pub fn project(cache: &OutputCache, i: usize) -> (out: GoalCache)
    requires
        cache.wf(),
    ensures
        out.wf(),
        out.entries() == projected(cache.entries(), i as int),
{
    let mut out = GoalCache::new();
    let ghost all = cache.entries();
    let mut k: usize = 0;
    proof {
        assert(all.take(0) =~= Seq::empty());
    }
    let n = cache.len();
    while k < n
        invariant
            k <= n,
            n == cache.entries().len(),
            cache.wf(),
            all == cache.entries(),
            out.wf(),
            out.entries() == projected(all.take(k as int), i as int),
        decreases n - k,
    {
        proof {
            assert(all.take(k + 1).drop_last() =~= all.take(k as int));
            assert(all.take(k + 1).last() == all[k as int]);
        }
        let outs = cache.outputs(k);
        if i < outs.len() {
            out.merge(outs[i].clone(), share(cache.space(k)));
        }
        k += 1;
    }
    proof {
        assert(all.take(k as int) =~= all);
    }
    out
}

/// Whether the program gives on each input of the examples its output.
pub fn agrees<E: ForeignEvaluator>(
    program: &AST,
    examples: &[(Lit, Lit)],
    regexes: &mut RegexCache,
    foreign: &E,
) -> (yes: bool)
    requires
        old(regexes).wf(),
        foreign.usable(),
    ensures
        final(regexes).wf(),
        final(regexes).limit() == old(regexes).limit(),
        yes == satisfies(program@, example_views(examples@), *foreign),
{
    let ghost views = example_views(examples@);
    let mut i: usize = 0;
    while i < examples.len()
        invariant
            i <= examples.len(),
            views == example_views(examples@),
            foreign.usable(),
            regexes.wf(),
            regexes.limit() == old(regexes).limit(),
            forall|k: int|
                0 <= k < i ==> value_of(program@, (#[trigger] views[k]).0, *foreign) == Some(
                    views[k].1,
                ),
        decreases examples.len() - i,
    {
        let got = program.try_eval(&examples[i].0, regexes, foreign);
        let fits = match got {
            Some(v) => v == examples[i].1,
            None => false,
        };
        if !fits {
            proof {
                assert(views[i as int] == (examples@[i as int].0@, examples@[i as int].1@));
                assert(value_of(program@, views[i as int].0, *foreign) != Some(views[i as int].1));
            }
            return false;
        }
        proof {
            assert(views[i as int] == (examples@[i as int].0@, examples@[i as int].1@));
        }
        i += 1;
    }
    true
}

/// Whether the cheapest program of the space satisfies the examples.
pub fn is_settled<E: ForeignEvaluator>(
    space: &VSA,
    examples: &[(Lit, Lit)],
    regexes: &mut RegexCache,
    foreign: &E,
) -> (yes: bool)
    requires
        old(regexes).wf(),
        foreign.usable(),
    ensures
        final(regexes).wf(),
        final(regexes).limit() == old(regexes).limit(),
        yes == settled(space@, example_views(examples@), *foreign),
{
    match space.pick_ranked(&ByCost) {
        Some(p) => agrees(&p, examples, regexes, foreign),
        None => false,
    }
}

/// Whether an example asks for a truth value.
pub fn any_bools(examples: &[(Lit, Lit)]) -> (yes: bool)
    ensures
        yes == wants_bools(example_views(examples@)),
{
    let ghost views = example_views(examples@);
    let mut i: usize = 0;
    while i < examples.len()
        invariant
            i <= examples.len(),
            views == example_views(examples@),
            forall|k: int| 0 <= k < i ==> !((#[trigger] views[k]).1 is BoolConst),
        decreases examples.len() - i,
    {
        match &examples[i].1 {
            Lit::BoolConst(_) => {
                assert(views[i as int].1 is BoolConst);
                return true;
            },
            _ => {
                assert(!(views[i as int].1 is BoolConst));
            },
        }
        i += 1;
    }
    false
}

/// Copies of the inputs of the examples.
pub fn inputs(examples: &[(Lit, Lit)]) -> (out: Vec<Lit>)
    ensures
        lit_views(out@) == inputs_of(example_views(examples@)),
{
    let mut out: Vec<Lit> = Vec::new();
    let mut i: usize = 0;
    while i < examples.len()
        invariant
            i <= examples.len(),
            out@.len() == i,
            forall|k: int| 0 <= k < i ==> (#[trigger] out@[k])@ == examples@[k].0@,
        decreases examples.len() - i,
    {
        out.push(examples[i].0.clone());
        i += 1;
    }
    proof {
        assert(lit_views(out@) =~= inputs_of(example_views(examples@)));
    }
    out
}

/// The space learned for the example at the place.
fn learn_example(
    examples: &[(Lit, Lit)],
    cache: &OutputCache,
    bank: &Bank,
    i: usize,
    regexes: &mut RegexCache,
    Ghost(found): Ghost<Progress>,
) -> (out: Rc<VSA>)
    requires
        i < examples@.len(),
        cache.wf(),
        old(regexes).wf(),
        found.cache == cache.entries(),
        found.bank == bank@,
    ensures
        final(regexes).wf(),
        final(regexes).limit() == old(regexes).limit(),
        out@ == space_for(example_views(examples@), found, i as int),
{
    let goals = project(cache, i);
    learn(&examples[i].0, &examples[i].1, &goals, bank, regexes)
}

/// The space for all examples: that of the first, intersected with that of each
/// further one in turn until the cheapest program satisfies all examples.
fn fold_examples<E: ForeignEvaluator>(
    examples: &[(Lit, Lit)],
    cache: &OutputCache,
    bank: &Bank,
    regexes: &mut RegexCache,
    foreign: &E,
    Ghost(found): Ghost<Progress>,
) -> (out: Rc<VSA>)
    requires
        examples@.len() > 0,
        cache.wf(),
        old(regexes).wf(),
        foreign.usable(),
        found.cache == cache.entries(),
        found.bank == bank@,
    ensures
        final(regexes).wf(),
        final(regexes).limit() == old(regexes).limit(),
        out@ == folded(example_views(examples@), found, *foreign, examples@.len() - 1),
{
    let ghost views = example_views(examples@);
    let mut res = learn_example(examples, cache, bank, 0, regexes, Ghost(found));
    let mut j: usize = 1;
    while j < examples.len()
        invariant
            1 <= j <= examples.len(),
            views == example_views(examples@),
            cache.wf(),
            foreign.usable(),
            regexes.wf(),
            regexes.limit() == old(regexes).limit(),
            found.cache == cache.entries(),
            found.bank == bank@,
            res@ == folded(views, found, *foreign, j - 1),
        decreases examples.len() - j,
    {
        if is_settled(&res, examples, regexes, foreign) {
            proof {
                lemma_folded_settled(views, found, *foreign, j - 1, examples@.len() - 1);
            }
            return res;
        }
        let next = learn_example(examples, cache, bank, j, regexes, Ghost(found));
        res = Rc::new(res.intersect(&next));
        j += 1;
    }
    res
}

/// Synthesis from examples of inputs and outputs: the space of the programs
/// found for them, and the cheapest program of that space where it has one.
/// Programs are enumerated by size, from 1 to the largest size; the first size
/// at which the space has a program ends the search.
pub fn synthesize<E: ForeignEvaluator>(
    examples: &[(Lit, Lit)],
    regexes: &mut RegexCache,
    foreign: &E,
) -> (out: (VSA, Option<AST>))
    requires
        examples@.len() > 0,
        old(regexes).wf(),
        foreign.usable(),
    ensures
        final(regexes).wf(),
        final(regexes).limit() == old(regexes).limit(),
        (out.0@, opt_ast_view(out.1)) == synthesis(example_views(examples@), *foreign),
        crate::vsa::well_formed(out.0@),
        opt_ast_view(out.1) == best_of(out.0@, ranking_of(ByCost)),
        out.1 matches Some(p) ==> crate::vsa::holds(out.0@, p@),
{
    let ghost views = example_views(examples@);
    proof {
        crate::wf_laws::lemma_synthesis_well_formed(views, *foreign);
    }
    let marks = crate::seed::common(examples);
    let prims = crate::seed::chain(crate::seed::constant_lits(), &marks);
    let atoms = crate::seed::chain(crate::seed::regex_atom_lits(), &marks);
    let mut bank = crate::seed::bank_of(&prims);
    let mut regex_bank = crate::seed::bank_of(&atoms);
    let mut cache = crate::seed::cache_of(&prims, examples.len());
    let enable_bools = any_bools(examples);
    let ins = inputs(examples);
    let mut size: usize = 1;
    loop
        invariant
            1 <= size <= LARGEST_SIZE,
            views == example_views(examples@),
            examples@.len() > 0,
            cache.wf(),
            foreign.usable(),
            regexes.wf(),
            regexes.limit() == old(regexes).limit(),
            enable_bools == wants_bools(views),
            lit_views(ins@) == inputs_of(views),
            crate::vsa::well_formed(synthesis(views, *foreign).0),
            synthesis(views, *foreign) == search(
                views,
                Progress { bank: bank@, regex_bank: regex_bank@, cache: cache.entries() },
                size as nat,
                *foreign,
            ),
        decreases LARGEST_SIZE - size,
    {
        let ghost before = Progress {
            bank: bank@,
            regex_bank: regex_bank@,
            cache: cache.entries(),
        };
        crate::bottom_up::bottom_up(
            &ins,
            size,
            &mut cache,
            &mut bank,
            &mut regex_bank,
            enable_bools,
            regexes,
            foreign,
        );
        let ghost found = Progress {
            bank: bank@,
            regex_bank: regex_bank@,
            cache: cache.entries(),
        };
        proof {
            assert(found == after_round(before, views, size as nat, *foreign));
        }
        let res = fold_examples(examples, &cache, &bank, regexes, foreign, Ghost(found));
        match res.pick_ranked(&ByCost) {
            Some(best) => {
                return ((*res).clone(), Some(best));
            },
            None => {
                if size >= LARGEST_SIZE {
                    return ((*res).clone(), None);
                }
                size += 1;
            },
        }
    }
}

/// Synthesis from examples with a cache of regular expressions of its own and
/// without foreign code.
pub fn top_down(examples: &[(Lit, Lit)]) -> (out: (VSA, Option<AST>))
    requires
        examples@.len() > 0,
    ensures
        (out.0@, opt_ast_view(out.1)) == synthesis(example_views(examples@), Echo),
        crate::vsa::well_formed(out.0@),
        opt_ast_view(out.1) == best_of(out.0@, ranking_of(ByCost)),
        out.1 matches Some(p) ==> crate::vsa::holds(out.0@, p@),
{
    let mut regexes = RegexCache::with_default_capacity();
    synthesize(examples, &mut regexes, &Echo)
}

/// Synthesis from examples, as `top_down` does it.
pub fn top_down_vsa(examples: &[(Lit, Lit)]) -> (out: (VSA, Option<AST>))
    requires
        examples@.len() > 0,
    ensures
        (out.0@, opt_ast_view(out.1)) == synthesis(example_views(examples@), Echo),
        crate::vsa::well_formed(out.0@),
        opt_ast_view(out.1) == best_of(out.0@, ranking_of(ByCost)),
        out.1 matches Some(p) ==> crate::vsa::holds(out.0@, p@),
{
    top_down(examples)
}

} // verus!
