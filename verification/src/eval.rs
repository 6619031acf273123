use vstd::prelude::*;
use crate::ast::ast_views;
use crate::ast::lemma_app_view;
use crate::ast::AstV;
use crate::ast::AST;
use crate::fun::apply_fun;
use crate::fun::Fun;
use crate::fun::Language;
use crate::lit::lit_views;
use crate::lit::InputLit;
use crate::lit::Lit;
use crate::lit::LitV;
use crate::pattern::RegexCache;

verus! {

/// The evaluator to which foreign calls are handed. Its answer is a function of
/// the code and of the argument.
pub trait ForeignEvaluator {
    /// What the evaluator needs to hold before it is asked.
    spec fn usable(&self) -> bool;

    /// The value of the code on the argument.
    spec fn answer(&self, code: Seq<char>, input: LitV) -> LitV;

    /// Runs the code on the argument.
    fn invoke(&self, code: &str, input: &Lit) -> (out: Lit)
        requires
            self.usable(),
        ensures
            out@ == self.answer(code@, input@),
    ;
}

/// The evaluator for programs without foreign code: whatever the code, its answer
/// is the argument.
pub struct Echo;

impl ForeignEvaluator for Echo {
    open spec fn usable(&self) -> bool {
        true
    }

    open spec fn answer(&self, code: Seq<char>, input: LitV) -> LitV {
        input
    }

    fn invoke(&self, code: &str, input: &Lit) -> (out: Lit) {
        input.clone()
    }
}

/// Whether a function can be asked for every code and argument, and gives the
/// same answer to the same question.
pub open spec fn answers<F: Fn(&str, &Lit) -> Lit>(f: F) -> bool {
    &&& forall|c: &str, i: &Lit| #[trigger] f.requires((c, i))
    &&& forall|c1: &str, i1: &Lit, r1: Lit, c2: &str, i2: &Lit, r2: Lit|
        c1@ == c2@ && i1@ == i2@ && #[trigger] f.ensures((c1, i1), r1) && #[trigger] f.ensures(
            (c2, i2),
            r2,
        ) ==> r1@ == r2@
}

/// Whether the function can give the answer to the question.
pub open spec fn given<F: Fn(&str, &Lit) -> Lit>(
    f: F,
    code: Seq<char>,
    input: LitV,
    answer: LitV,
) -> bool {
    exists|c: &str, i: &Lit, out: Lit|
        c@ == code && i@ == input && out@ == answer && #[trigger] f.ensures((c, i), out)
}

/// The evaluator that hands foreign calls to a function.
pub struct Delegate<F: Fn(&str, &Lit) -> Lit>(pub F);

impl<F: Fn(&str, &Lit) -> Lit> ForeignEvaluator for Delegate<F> {
    open spec fn usable(&self) -> bool {
        answers(self.0)
    }

    open spec fn answer(&self, code: Seq<char>, input: LitV) -> LitV {
        choose|answer: LitV| given(self.0, code, input, answer)
    }

    fn invoke(&self, code: &str, input: &Lit) -> (out: Lit) {
        let out = (self.0)(code, input);
        proof {
            assert(given(self.0, code@, input@, out@));
            let chosen = self.answer(code@, input@);
            assert(given(self.0, code@, input@, chosen));
            let (c, i, r): (&str, &Lit, Lit) = choose|c: &str, i: &Lit, r: Lit|
                c@ == code@ && i@ == input@ && r@ == chosen && #[trigger] self.0.ensures((c, i), r);
            assert(self.0.ensures((c, i), r));
        }
        out
    }
}

/// The view of a value that may be missing.
pub open spec fn opt_view(value: Option<Lit>) -> Option<LitV> {
    match value {
        Some(v) => Some(v@),
        None => None,
    }
}

/// Whether every value is there.
pub open spec fn all_some(values: Seq<Option<LitV>>) -> bool {
    forall|i: int| 0 <= i < values.len() ==> (#[trigger] values[i]) is Some
}

/// The values, where every one is there.
pub open spec fn unwrapped(values: Seq<Option<LitV>>) -> Seq<LitV> {
    Seq::new(values.len(), |i: int| values[i]->0)
}

/// The value of a program on an input: the input for the placeholder, a literal
/// for itself, an operator applied to the values of its arguments, foreign code
/// applied to the value of its argument. `None` where an operator meets
/// arguments of a kind that it does not take.
pub open spec fn value_of<E: ForeignEvaluator>(p: AstV, input: LitV, foreign: E) -> Option<LitV>
    decreases p, 1nat,
{
    match p {
        AstV::Lit(l) => Some(
            if l == LitV::Input {
                input
            } else {
                l
            },
        ),
        AstV::App { fun, args } => {
            let values = arg_values(p, input, foreign);
            if all_some(values) {
                apply_fun(fun, unwrapped(values), input)
            } else {
                None
            }
        },
        AstV::ForeignCall { code, input: inner, typ } => match value_of(*inner, input, foreign) {
            Some(v) => Some(foreign.answer(code, v)),
            None => None,
        },
    }
}

/// The values of the arguments of an application.
pub open spec fn arg_values<E: ForeignEvaluator>(p: AstV, input: LitV, foreign: E) -> Seq<
    Option<LitV>,
>
    decreases p, 0nat,
{
    match p {
        AstV::App { fun, args } => Seq::new(
            args.len(),
            |i: int|
                if 0 <= i < args.len() {
                    value_of(args[i], input, foreign)
                } else {
                    None
                },
        ),
        _ => Seq::empty(),
    }
}

/// The values of a sequence of programs on an input.
pub open spec fn values_of<E: ForeignEvaluator>(args: Seq<AstV>, input: LitV, foreign: E) -> Seq<
    Option<LitV>,
> {
    Seq::new(args.len(), |i: int| value_of(args[i], input, foreign))
}

/// The value of an application is the operator applied to the values of the
/// arguments.
pub proof fn lemma_value_of_app<E: ForeignEvaluator>(
    fun: Fun,
    args: Seq<AstV>,
    input: LitV,
    foreign: E,
)
    ensures
        value_of(AstV::App { fun, args }, input, foreign) == if all_some(
            values_of(args, input, foreign),
        ) {
            apply_fun(fun, unwrapped(values_of(args, input, foreign)), input)
        } else {
            None
        },
{
    assert(arg_values(AstV::App { fun, args }, input, foreign) =~= values_of(args, input, foreign));
}

impl AST {
    /// The value of the program on the input, where it has one.
    #[verifier::loop_isolation(false)]
    pub fn try_eval<E: ForeignEvaluator>(
        &self,
        inp: &Lit,
        regexes: &mut RegexCache,
        foreign: &E,
    ) -> (out: Option<Lit>)
        requires
            old(regexes).wf(),
            foreign.usable(),
        ensures
            final(regexes).wf(),
            final(regexes).limit() == old(regexes).limit(),
            opt_view(out) == value_of(self@, inp@, *foreign),
        decreases self,
    {
        match self {
            AST::Lit(l) => {
                if l.is_input() {
                    Some(inp.clone())
                } else {
                    Some(l.clone())
                }
            },
            AST::App { fun, args } => {
                proof {
                    lemma_app_view(*fun, *args);
                    lemma_value_of_app(*fun, ast_views(args@), inp@, *foreign);
                }
                let ghost expected = values_of(ast_views(args@), inp@, *foreign);
                let mut values: Vec<Lit> = Vec::new();
                let mut i: usize = 0;
                while i < args.len()
                    invariant
                        i <= args.len(),
                        values@.len() == i,
                        regexes.wf(),
                        regexes.limit() == old(regexes).limit(),
                        forall|k: int|
                            #![trigger expected[k]]
                            #![trigger values@[k]]
                            0 <= k < i ==> expected[k] == Some(values@[k]@),
                    decreases args.len() - i,
                {
                    match args[i].try_eval(inp, regexes, foreign) {
                        Some(v) => {
                            values.push(v);
                        },
                        None => {
                            proof {
                                assert(expected[i as int] is None);
                            }
                            return None;
                        },
                    }
                    i += 1;
                }
                proof {
                    assert(all_some(expected));
                    assert(lit_views(values@) =~= unwrapped(expected));
                }
                if fun.accepts(values.as_slice(), inp) {
                    proof {
                        assert(Seq::new(values@.len(), |i: int| values@[i]@) =~= lit_views(
                            values@,
                        ));
                    }
                    Some(fun.eval(values.as_slice(), inp, regexes))
                } else {
                    None
                }
            },
            AST::ForeignCall { code, input, typ } => {
                match input.try_eval(inp, regexes, foreign) {
                    Some(v) => Some(foreign.invoke(code.as_str(), &v)),
                    None => None,
                }
            },
        }
    }

    /// The value of the program on the input. The program must have one: no
    /// operator in it may meet arguments of a kind that it does not take.
    pub fn eval<E: ForeignEvaluator>(&self, inp: &Lit, regexes: &mut RegexCache, foreign: &E) -> (out:
        Lit)
        requires
            old(regexes).wf(),
            foreign.usable(),
            value_of(self@, inp@, *foreign) is Some,
        ensures
            final(regexes).wf(),
            final(regexes).limit() == old(regexes).limit(),
            Some(out@) == value_of(self@, inp@, *foreign),
    {
        self.try_eval(inp, regexes, foreign).unwrap()
    }
}

impl crate::vsa::VSA {
    /// The value of the first program of the space on the input. The space must
    /// have a first program, and that program a value.
    pub fn eval<E: ForeignEvaluator>(&self, inp: &Lit, regexes: &mut RegexCache, foreign: &E) -> (out:
        Lit)
        requires
            old(regexes).wf(),
            foreign.usable(),
            crate::vsa::picked(self@) matches Some(p) && value_of(p, inp@, *foreign) is Some,
        ensures
            final(regexes).wf(),
            final(regexes).limit() == old(regexes).limit(),
            Some(out@) == value_of(crate::vsa::picked(self@)->0, inp@, *foreign),
    {
        self.pick_one().unwrap().eval(inp, regexes, foreign)
    }
}

} // verus!
