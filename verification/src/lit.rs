use vstd::prelude::*;

verus! {

/// What a literal stands for in contracts: strings as sequences of characters,
/// locations as natural numbers.
pub enum LitV {
    StringConst(Seq<char>),
    LocConst(nat),
    BoolConst(bool),
    LocEnd,
    Input,
}

/// A value of the language: a string (also used as a regular expression), a byte
/// position in the current input, the position just past the input's end, a
/// truth value, or the placeholder that stands for the input itself.
#[derive(Debug, Hash)]
pub enum Lit {
    StringConst(String),
    LocConst(usize),
    BoolConst(bool),
    LocEnd,
    Input,
}

impl View for Lit {
    type V = LitV;

    open spec fn view(&self) -> LitV {
        match self {
            Lit::StringConst(s) => LitV::StringConst(s@),
            Lit::LocConst(n) => LitV::LocConst(*n as nat),
            Lit::BoolConst(b) => LitV::BoolConst(*b),
            Lit::LocEnd => LitV::LocEnd,
            Lit::Input => LitV::Input,
        }
    }
}

impl Clone for Lit {
    fn clone(&self) -> (out: Lit)
        ensures
            out@ == self@,
    {
        match self {
            Lit::StringConst(s) => Lit::StringConst(s.clone()),
            Lit::LocConst(n) => Lit::LocConst(*n),
            Lit::BoolConst(b) => Lit::BoolConst(*b),
            Lit::LocEnd => Lit::LocEnd,
            Lit::Input => Lit::Input,
        }
    }
}

impl PartialEq for Lit {
    fn eq(&self, other: &Lit) -> (same: bool) {
        match (self, other) {
            (Lit::StringConst(a), Lit::StringConst(b)) => *a == *b,
            (Lit::LocConst(a), Lit::LocConst(b)) => *a == *b,
            (Lit::BoolConst(a), Lit::BoolConst(b)) => *a == *b,
            (Lit::LocEnd, Lit::LocEnd) => true,
            (Lit::Input, Lit::Input) => true,
            _ => false,
        }
    }
}

impl vstd::std_specs::cmp::PartialEqSpecImpl for Lit {
    open spec fn obeys_eq_spec() -> bool {
        true
    }

    open spec fn eq_spec(&self, other: &Lit) -> bool {
        self@ == other@
    }
}

impl Eq for Lit {}

/// The number `n` where a `usize` holds it, else the largest `usize`.
pub open spec fn clipped(n: nat) -> usize {
    if n <= usize::MAX {
        n as usize
    } else {
        usize::MAX
    }
}

/// What choosing a program element costs. The driver prefers cheap programs.
pub trait Cost {
    /// The cost as a number without bound.
    spec fn cost_spec(&self) -> nat;

    /// The cost; the largest `usize` where that cannot hold it.
    fn cost(&self) -> (c: usize)
        ensures
            c == clipped(self.cost_spec()),
    ;
}

/// Literals among which one stands for the current input.
pub trait InputLit {
    /// Whether this is the placeholder for the input.
    spec fn is_input_spec(&self) -> bool;

    fn is_input(&self) -> (yes: bool)
        ensures
            yes == self.is_input_spec(),
    ;
}

impl InputLit for Lit {
    open spec fn is_input_spec(&self) -> bool {
        self@ == LitV::Input
    }

    fn is_input(&self) -> (yes: bool) {
        match self {
            Lit::Input => true,
            _ => false,
        }
    }
}

impl Cost for Lit {
    open spec fn cost_spec(&self) -> nat {
        lit_cost(self@)
    }

    fn cost(&self) -> (c: usize) {
        match self {
            Lit::Input | Lit::LocEnd => 1,
            _ => 2,
        }
    }
}

/// The cost of a literal: 1 for the input and for the end location, 2 for a
/// constant.
pub open spec fn lit_cost(l: LitV) -> nat {
    match l {
        LitV::Input | LitV::LocEnd => 1,
        _ => 2,
    }
}

/// The type that a foreign call is declared to return.
#[derive(Debug, PartialEq, Eq, Clone, Copy, Hash, Structural)]
pub enum Typ {
    Str,
    Int,
    Bool,
}

/// The views of a sequence of literals.
pub open spec fn lit_views(lits: Seq<Lit>) -> Seq<LitV> {
    Seq::new(lits.len(), |i: int| lits[i]@)
}

} // verus!
