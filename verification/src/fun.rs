use vstd::prelude::*;
use crate::lit::lit_views;
use crate::lit::Cost;
use crate::lit::Lit;
use crate::lit::LitV;
use crate::pattern::matches_of;
use crate::pattern::spans;
use crate::pattern::RegexCache;
use crate::text::byte_len;
use crate::text::cuts_cleanly;
use crate::text::join;
use crate::text::lowercase_of;
use crate::text::piece;
use crate::text::substring;
use crate::text::to_lower;
use crate::text::to_upper;
use crate::text::uppercase_of;

verus! {

/// The operators of the language.
#[derive(Debug, PartialEq, Eq, Clone, Copy, Hash, Structural)]
pub enum Fun {
    Concat,
    Find,
    FindEnd,
    Slice,
    LocAdd,
    LocSub,
    Lowercase,
    Uppercase,
    ConcatMap,
    Equal,
}

/// An operator set that can be applied to evaluated arguments.
pub trait Language<L: View> {
    /// The value of applying the operator to the arguments on the input; `None`
    /// where the arguments are not of a kind that the operator takes.
    spec fn apply(&self, args: Seq<L::V>, input: L::V) -> Option<L::V>;

    /// Applies the operator. The arguments must be of a kind that it takes.
    fn eval(&self, args: &[L], input: &L, regexes: &mut RegexCache) -> (out: L)
        requires
            old(regexes).wf(),
            self.apply(Seq::new(args@.len(), |i: int| args@[i]@), input@) is Some,
        ensures
            final(regexes).wf(),
            final(regexes).limit() == old(regexes).limit(),
            Some(out@) == self.apply(Seq::new(args@.len(), |i: int| args@[i]@), input@),
    ;
}

/// The number of arguments that an operator takes.
pub open spec fn arity(fun: Fun) -> nat {
    match fun {
        Fun::Find | Fun::FindEnd => 3,
        Fun::Lowercase | Fun::Uppercase => 1,
        _ => 2,
    }
}

/// The index that `Find` and `FindEnd` look up: the location itself, or the
/// length of the searched string for the end location.
pub open spec fn match_index(index: LitV, outer: Seq<char>) -> nat {
    match index {
        LitV::LocConst(i) => i,
        _ => byte_len(outer),
    }
}

/// The start (or, for `at_end`, the end) of the match with the given index among
/// the matches of `pattern` in `outer`; the end location where there are fewer.
pub open spec fn found(outer: Seq<char>, pattern: Seq<char>, index: LitV, at_end: bool) -> LitV {
    let ms = matches_of(pattern, outer);
    let i = match_index(index, outer);
    if i < ms.len() {
        if at_end {
            LitV::LocConst(ms[i as int].1 as nat)
        } else {
            LitV::LocConst(ms[i as int].0 as nat)
        }
    } else {
        LitV::LocEnd
    }
}

/// The part of the input between two locations; the empty string where the
/// input is no string, the locations are none, or they do not cut out a string.
pub open spec fn sliced(args: Seq<LitV>, input: LitV) -> Seq<char> {
    if args.len() == 2 {
        match (args[0], args[1], input) {
            (LitV::LocConst(s), LitV::LocConst(e), LitV::StringConst(text)) => if cuts_cleanly(
                text,
                s as int,
                e as int,
            ) {
                piece(text, s as int, e as int)
            } else {
                Seq::empty()
            },
            (LitV::LocConst(s), LitV::LocEnd, LitV::StringConst(text)) => if cuts_cleanly(
                text,
                s as int,
                byte_len(text) as int,
            ) {
                piece(text, s as int, byte_len(text) as int)
            } else {
                Seq::empty()
            },
            _ => Seq::empty(),
        }
    } else {
        Seq::empty()
    }
}

/// Whether two evaluated arguments are equal on the input. The end location
/// equals the length of a string input, and the input placeholder equals a
/// string input; what cannot be compared is unequal.
pub open spec fn equal(args: Seq<LitV>, input: LitV) -> bool {
    if args.len() == 2 {
        match (args[0], args[1]) {
            (LitV::LocConst(a), LitV::LocConst(b)) => a == b,
            (LitV::LocConst(a), LitV::LocEnd) | (LitV::LocEnd, LitV::LocConst(a)) => match input {
                LitV::StringConst(text) => a == byte_len(text),
                _ => false,
            },
            (LitV::StringConst(a), LitV::StringConst(b)) => a == b,
            (LitV::Input, LitV::StringConst(b)) | (LitV::StringConst(b), LitV::Input) => match input {
                LitV::StringConst(text) => b == text,
                _ => false,
            },
            _ => false,
        }
    } else {
        false
    }
}

/// The value of an operator on evaluated arguments; `None` where the arguments
/// are not of a kind that the operator takes, or a sum leaves `usize`.
pub open spec fn apply_fun(fun: Fun, args: Seq<LitV>, input: LitV) -> Option<LitV> {
    match fun {
        Fun::Concat => if args.len() == 2 {
            match (args[0], args[1]) {
                (LitV::StringConst(a), LitV::StringConst(b)) => Some(LitV::StringConst(a + b)),
                _ => None,
            }
        } else {
            None
        },
        Fun::ConcatMap => None,
        Fun::Find | Fun::FindEnd => if args.len() == 3 {
            match (args[0], args[1], args[2]) {
                (LitV::StringConst(outer), LitV::StringConst(inner), LitV::LocConst(_))
                | (LitV::StringConst(outer), LitV::StringConst(inner), LitV::LocEnd) => Some(
                    found(outer, inner, args[2], fun == Fun::FindEnd),
                ),
                _ => None,
            }
        } else {
            None
        },
        Fun::Slice => Some(LitV::StringConst(sliced(args, input))),
        Fun::LocAdd => if args.len() == 2 {
            match (args[0], args[1]) {
                (LitV::LocConst(a), LitV::LocConst(b)) => if a + b <= usize::MAX {
                    Some(LitV::LocConst(a + b))
                } else {
                    None
                },
                (LitV::LocEnd, _) | (_, LitV::LocEnd) => Some(LitV::LocEnd),
                _ => None,
            }
        } else {
            None
        },
        Fun::LocSub => if args.len() == 2 {
            match (args[0], args[1]) {
                (LitV::LocConst(a), LitV::LocConst(b)) => Some(
                    LitV::LocConst(
                        if a >= b {
                            (a - b) as nat
                        } else {
                            0
                        },
                    ),
                ),
                (LitV::LocEnd, _) | (_, LitV::LocEnd) => Some(LitV::LocEnd),
                _ => None,
            }
        } else {
            None
        },
        Fun::Equal => Some(LitV::BoolConst(equal(args, input))),
        Fun::Lowercase => if args.len() == 1 {
            match args[0] {
                LitV::StringConst(s) => Some(LitV::StringConst(lowercase_of(s))),
                _ => None,
            }
        } else {
            None
        },
        Fun::Uppercase => if args.len() == 1 {
            match args[0] {
                LitV::StringConst(s) => Some(LitV::StringConst(uppercase_of(s))),
                _ => None,
            }
        } else {
            None
        },
    }
}

/// The operators that cannot fail: a slice has a value on all arguments, the
/// empty string where the locations leave the input or run backwards; a
/// difference of two locations stops at 0; a sum or a difference with the end
/// location on either side is the end location.
pub proof fn lemma_saturating_operators(args: Seq<LitV>, input: LitV, a: nat, b: nat, other: LitV)
    ensures
        apply_fun(Fun::Slice, args, input) is Some,
        input matches LitV::StringConst(text) && !(a <= b <= byte_len(text)) ==> apply_fun(
            Fun::Slice,
            seq![LitV::LocConst(a), LitV::LocConst(b)],
            input,
        ) == Some(LitV::StringConst(Seq::empty())),
        !(input is StringConst) ==> apply_fun(Fun::Slice, args, input) == Some(
            LitV::StringConst(Seq::empty()),
        ),
        a >= b ==> apply_fun(Fun::LocSub, seq![LitV::LocConst(a), LitV::LocConst(b)], input)
            == Some(LitV::LocConst((a - b) as nat)),
        a < b ==> apply_fun(Fun::LocSub, seq![LitV::LocConst(a), LitV::LocConst(b)], input)
            == Some(LitV::LocConst(0)),
        apply_fun(Fun::LocAdd, seq![LitV::LocEnd, other], input) == Some(LitV::LocEnd),
        apply_fun(Fun::LocAdd, seq![other, LitV::LocEnd], input) == Some(LitV::LocEnd),
        apply_fun(Fun::LocSub, seq![LitV::LocEnd, other], input) == Some(LitV::LocEnd),
        apply_fun(Fun::LocSub, seq![other, LitV::LocEnd], input) == Some(LitV::LocEnd),
{
}

/// The length of a string in bytes.
pub fn length(s: &str) -> (n: usize)
    ensures
        n as nat == byte_len(s@),
{
    s.as_bytes().len()
}

impl Fun {
    /// Whether the arguments are of a kind that the operator takes.
    pub fn accepts(&self, args: &[Lit], input: &Lit) -> (yes: bool)
        ensures
            yes == (apply_fun(*self, lit_views(args@), input@) is Some),
    {
        match self {
            Fun::Concat => args.len() == 2 && match (&args[0], &args[1]) {
                (Lit::StringConst(_), Lit::StringConst(_)) => true,
                _ => false,
            },
            Fun::ConcatMap => false,
            Fun::Find | Fun::FindEnd => args.len() == 3 && match (&args[0], &args[1], &args[2]) {
                (Lit::StringConst(_), Lit::StringConst(_), Lit::LocConst(_)) => true,
                (Lit::StringConst(_), Lit::StringConst(_), Lit::LocEnd) => true,
                _ => false,
            },
            Fun::Slice => true,
            Fun::LocAdd => args.len() == 2 && match (&args[0], &args[1]) {
                (Lit::LocConst(a), Lit::LocConst(b)) => *a <= usize::MAX - *b,
                (Lit::LocEnd, _) => true,
                (_, Lit::LocEnd) => true,
                _ => false,
            },
            Fun::LocSub => args.len() == 2 && match (&args[0], &args[1]) {
                (Lit::LocConst(_), Lit::LocConst(_)) => true,
                (Lit::LocEnd, _) => true,
                (_, Lit::LocEnd) => true,
                _ => false,
            },
            Fun::Equal => true,
            Fun::Lowercase | Fun::Uppercase => args.len() == 1 && match &args[0] {
                Lit::StringConst(_) => true,
                _ => false,
            },
        }
    }
}

impl Fun {
    /// The number of arguments that the operator takes.
    pub fn arity(&self) -> (n: usize)
        ensures
            n == arity(*self),
    {
        match self {
            Fun::Find | Fun::FindEnd => 3,
            Fun::Lowercase | Fun::Uppercase => 1,
            _ => 2,
        }
    }
}

impl Cost for Fun {
    open spec fn cost_spec(&self) -> nat {
        match self {
            Fun::Concat => 2,
            _ => 1,
        }
    }

    fn cost(&self) -> (c: usize) {
        match self {
            Fun::Concat => 2,
            _ => 1,
        }
    }
}

fn eval_find(args: &[Lit], regexes: &mut RegexCache, at_end: bool) -> (out: Lit)
    requires
        old(regexes).wf(),
        apply_fun(Fun::Find, lit_views(args@), LitV::Input) is Some,
    ensures
        final(regexes).wf(),
        final(regexes).limit() == old(regexes).limit(),
        Some(out@) == apply_fun(
            if at_end {
                Fun::FindEnd
            } else {
                Fun::Find
            },
            lit_views(args@),
            LitV::Input,
        ),
{
    match (&args[0], &args[1]) {
        (Lit::StringConst(outer), Lit::StringConst(inner)) => {
            let i = match &args[2] {
                Lit::LocConst(i) => *i,
                _ => length(outer.as_str()),
            };
            let re = crate::pattern::regex(regexes, inner);
            let ms = spans(&re, outer.as_str());
            if i < ms.len() {
                if at_end {
                    Lit::LocConst(ms[i].1)
                } else {
                    Lit::LocConst(ms[i].0)
                }
            } else {
                Lit::LocEnd
            }
        },
        _ => Lit::LocEnd,
    }
}

fn eval_slice(args: &[Lit], input: &Lit) -> (out: Lit)
    ensures
        out@ == LitV::StringConst(sliced(lit_views(args@), input@)),
{
    if args.len() == 2 {
        match (&args[0], &args[1], input) {
            (Lit::LocConst(s), Lit::LocConst(e), Lit::StringConst(text)) => {
                match substring(text.as_str(), *s, *e) {
                    Some(part) => Lit::StringConst(part),
                    None => Lit::StringConst(String::new()),
                }
            },
            (Lit::LocConst(s), Lit::LocEnd, Lit::StringConst(text)) => {
                match substring(text.as_str(), *s, length(text.as_str())) {
                    Some(part) => Lit::StringConst(part),
                    None => Lit::StringConst(String::new()),
                }
            },
            _ => Lit::StringConst(String::new()),
        }
    } else {
        Lit::StringConst(String::new())
    }
}

fn eval_equal(args: &[Lit], input: &Lit) -> (out: bool)
    ensures
        out == equal(lit_views(args@), input@),
{
    if args.len() == 2 {
        match (&args[0], &args[1]) {
            (Lit::LocConst(a), Lit::LocConst(b)) => *a == *b,
            (Lit::LocConst(a), Lit::LocEnd) | (Lit::LocEnd, Lit::LocConst(a)) => match input {
                Lit::StringConst(text) => *a == length(text.as_str()),
                _ => false,
            },
            (Lit::StringConst(a), Lit::StringConst(b)) => *a == *b,
            (Lit::Input, Lit::StringConst(b)) | (Lit::StringConst(b), Lit::Input) => match input {
                Lit::StringConst(text) => *b == *text,
                _ => false,
            },
            _ => false,
        }
    } else {
        false
    }
}

impl Language<Lit> for Fun {
    open spec fn apply(&self, args: Seq<LitV>, input: LitV) -> Option<LitV> {
        apply_fun(*self, args, input)
    }

    fn eval(&self, args: &[Lit], input: &Lit, regexes: &mut RegexCache) -> (out: Lit) {
        assert(Seq::new(args@.len(), |i: int| args@[i]@) == lit_views(args@));
        match self {
            Fun::Concat => match (&args[0], &args[1]) {
                (Lit::StringConst(a), Lit::StringConst(b)) => Lit::StringConst(
                    join(a.as_str(), b.as_str()),
                ),
                _ => Lit::LocEnd,
            },
            Fun::ConcatMap => Lit::LocEnd,
            Fun::Find => eval_find(args, regexes, false),
            Fun::FindEnd => eval_find(args, regexes, true),
            Fun::Slice => eval_slice(args, input),
            Fun::LocAdd => match (&args[0], &args[1]) {
                (Lit::LocConst(a), Lit::LocConst(b)) => Lit::LocConst(*a + *b),
                _ => Lit::LocEnd,
            },
            Fun::LocSub => match (&args[0], &args[1]) {
                (Lit::LocConst(a), Lit::LocConst(b)) => Lit::LocConst(
                    if *a >= *b {
                        *a - *b
                    } else {
                        0
                    },
                ),
                _ => Lit::LocEnd,
            },
            Fun::Equal => Lit::BoolConst(eval_equal(args, input)),
            Fun::Lowercase => match &args[0] {
                Lit::StringConst(s) => Lit::StringConst(to_lower(s.as_str())),
                _ => Lit::LocEnd,
            },
            Fun::Uppercase => match &args[0] {
                Lit::StringConst(s) => Lit::StringConst(to_upper(s.as_str())),
                _ => Lit::LocEnd,
            },
        }
    }
}

} // verus!
