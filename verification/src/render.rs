use vstd::prelude::*;
use vstd::string::StringExecFns;
use crate::ast::ast_views;
use crate::ast::lemma_app_view;
use crate::ast::AstV;
use crate::ast::AST;
use crate::fun::arity;
use crate::fun::Fun;
use crate::lit::Lit;
use crate::lit::LitV;
use crate::text::join;

verus! {

/// The sign for a digit.
pub open spec fn digit(d: nat) -> char {
    if d == 0 {
        '0'
    } else if d == 1 {
        '1'
    } else if d == 2 {
        '2'
    } else if d == 3 {
        '3'
    } else if d == 4 {
        '4'
    } else if d == 5 {
        '5'
    } else if d == 6 {
        '6'
    } else if d == 7 {
        '7'
    } else if d == 8 {
        '8'
    } else {
        '9'
    }
}

/// A number written with decimal digits.
pub open spec fn decimal(n: nat) -> Seq<char>
    decreases n,
{
    if n < 10 {
        seq![digit(n)]
    } else {
        decimal(n / 10).push(digit(n % 10))
    }
}

/// `usize`'s `Display` through `format!`: the number written with decimal
/// digits.
#[verifier::external_body]
fn number(n: usize) -> (out: String)
    ensures
        out@ == decimal(n as nat),
{
    format!("{}", n)
}

/// Whether every operator in the program has as many arguments as it takes.
pub open spec fn well_built(p: AstV) -> bool
    decreases p,
{
    match p {
        AstV::Lit(_) => true,
        AstV::App { fun, args } => {
            &&& args.len() == arity(fun)
            &&& forall|i: int| #![trigger args[i]] 0 <= i < args.len() ==> well_built(args[i])
        },
        AstV::ForeignCall { code, input, typ } => well_built(*input),
    }
}

/// A literal as it is written.
pub open spec fn rendered_lit(l: LitV) -> Seq<char> {
    match l {
        LitV::StringConst(s) => "'"@ + s + "'"@,
        LitV::LocConst(n) => decimal(n),
        LitV::BoolConst(b) => if b {
            "true"@
        } else {
            "false"@
        },
        LitV::LocEnd => "$"@,
        LitV::Input => "X"@,
    }
}

/// The empty string as a program.
pub open spec fn empty_string() -> AstV {
    AstV::Lit(LitV::StringConst(Seq::empty()))
}

/// A program as it is written. A concatenation with the empty string is
/// written as its other part.
pub open spec fn rendered(p: AstV) -> Seq<char>
    decreases p,
{
    match p {
        AstV::Lit(l) => rendered_lit(l),
        AstV::ForeignCall { code, input, typ } => "(lambda X: "@ + code + ")("@ + rendered(*input)
            + ")"@,
        AstV::App { fun, args } => if args.len() == 1 {
            let x = rendered(args[0]);
            match fun {
                Fun::Lowercase => x + ".lower()"@,
                Fun::Uppercase => x + ".upper()"@,
                _ => Seq::empty(),
            }
        } else if args.len() == 2 {
            let a = rendered(args[0]);
            let b = rendered(args[1]);
            match fun {
                Fun::Concat => if args[0] == empty_string() {
                    b
                } else if args[1] == empty_string() {
                    a
                } else {
                    "("@ + a + " <> "@ + b + ")"@
                },
                Fun::ConcatMap => "X.split("@ + a + ").concat_map(\u{3bb}X."@ + b + ")"@,
                Fun::Slice => "(X["@ + a + ".."@ + b + "])"@,
                Fun::LocAdd => "("@ + a + " + "@ + b + ")"@,
                Fun::LocSub => "("@ + a + " - "@ + b + ")"@,
                Fun::Equal => "("@ + a + " == "@ + b + ")"@,
                _ => Seq::empty(),
            }
        } else if args.len() == 3 {
            let a = rendered(args[0]);
            let b = rendered(args[1]);
            let i = rendered(args[2]);
            match fun {
                Fun::Find => a + ".find("@ + b + ", "@ + i + ")"@,
                Fun::FindEnd => a + ".find_end("@ + b + ", "@ + i + ")"@,
                _ => Seq::empty(),
            }
        } else {
            Seq::empty()
        },
    }
}

/// The strings one after the other.
fn join3(a: &str, b: &str, c: &str) -> (out: String)
    ensures
        out@ == a@ + b@ + c@,
{
    let ab = join(a, b);
    join(ab.as_str(), c)
}

/// The strings one after the other.
fn join5(a: &str, b: &str, c: &str, d: &str, e: &str) -> (out: String)
    ensures
        out@ == a@ + b@ + c@ + d@ + e@,
{
    let abc = join3(a, b, c);
    join3(abc.as_str(), d, e)
}

impl Lit {
    /// The literal as it is written.
    pub fn render(&self) -> (out: String)
        ensures
            out@ == rendered_lit(self@),
    {
        match self {
            Lit::StringConst(s) => join3("'", s.as_str(), "'"),
            Lit::LocConst(n) => number(*n),
            Lit::BoolConst(b) => if *b {
                String::from_str("true")
            } else {
                String::from_str("false")
            },
            Lit::LocEnd => String::from_str("$"),
            Lit::Input => String::from_str("X"),
        }
    }
}

/// Whether the program is the empty string.
fn is_empty_string(p: &AST) -> (yes: bool)
    ensures
        yes == (p@ == empty_string()),
{
    match p {
        AST::Lit(Lit::StringConst(s)) => {
            assert(s@.len() == 0 ==> s@ =~= Seq::<char>::empty());
            s.as_str().is_empty()
        },
        AST::Lit(_) => false,
        AST::App { fun, args } => {
            proof {
                lemma_app_view(*fun, *args);
            }
            false
        },
        _ => false,
    }
}

impl AST {
    /// Whether every operator in the program has as many arguments as it takes.
    #[verifier::loop_isolation(false)]
    pub fn is_well_built(&self) -> (yes: bool)
        ensures
            yes == well_built(self@),
        decreases self,
    {
        match self {
            AST::Lit(_) => true,
            AST::ForeignCall { code, input, typ } => input.is_well_built(),
            AST::App { fun, args } => {
                proof {
                    lemma_app_view(*fun, *args);
                }
                if args.len() != fun.arity() {
                    return false;
                }
                let mut i: usize = 0;
                while i < args.len()
                    invariant
                        i <= args.len(),
                        forall|k: int| 0 <= k < i ==> well_built(#[trigger] ast_views(args@)[k]),
                    decreases args.len() - i,
                {
                    if !args[i].is_well_built() {
                        assert(!well_built(self@->App_args[i as int]));
                        return false;
                    }
                    i += 1;
                }
                assert forall|k: int|
                    #![trigger self@->App_args[k]]
                    0 <= k < self@->App_args.len() implies well_built(self@->App_args[k]) by {
                    assert(well_built(ast_views(args@)[k]));
                }
                true
            },
        }
    }

    /// The program as it is written. Every operator in it must have as many
    /// arguments as it takes.
    pub fn render(&self) -> (out: String)
        requires
            well_built(self@),
        ensures
            out@ == rendered(self@),
        decreases self,
    {
        match self {
            AST::Lit(l) => {
                assert(self@ == AstV::Lit(l@));
                assert(rendered(AstV::Lit(l@)) == rendered_lit(l@));
                l.render()
            },
            AST::ForeignCall { code, input, typ } => {
                let inner = input.render();
                join5("(lambda X: ", code.as_str(), ")(", inner.as_str(), ")")
            },
            AST::App { fun, args } => {
                proof {
                    lemma_app_view(*fun, *args);
                    assert(forall|i: int|
                        0 <= i < args@.len() ==> ast_views(args@)[i] == (#[trigger] args@[i])@);
                    assert(forall|i: int|
                        #![trigger ast_views(args@)[i]]
                        0 <= i < args@.len() ==> well_built(ast_views(args@)[i]));
                }
                match fun {
                    Fun::Lowercase => {
                        let x = args[0].render();
                        join(x.as_str(), ".lower()")
                    },
                    Fun::Uppercase => {
                        let x = args[0].render();
                        join(x.as_str(), ".upper()")
                    },
                    Fun::Find => {
                        let a = args[0].render();
                        let b = args[1].render();
                        let i = args[2].render();
                        let head = join3(a.as_str(), ".find(", b.as_str());
                        let most = join3(head.as_str(), ", ", i.as_str());
                        join(most.as_str(), ")")
                    },
                    Fun::FindEnd => {
                        let a = args[0].render();
                        let b = args[1].render();
                        let i = args[2].render();
                        let head = join3(a.as_str(), ".find_end(", b.as_str());
                        let most = join3(head.as_str(), ", ", i.as_str());
                        join(most.as_str(), ")")
                    },
                    Fun::Concat => {
                        if is_empty_string(&args[0]) {
                            args[1].render()
                        } else if is_empty_string(&args[1]) {
                            args[0].render()
                        } else {
                            let a = args[0].render();
                            let b = args[1].render();
                            join5("(", a.as_str(), " <> ", b.as_str(), ")")
                        }
                    },
                    Fun::ConcatMap => {
                        let a = args[0].render();
                        let b = args[1].render();
                        join5("X.split(", a.as_str(), ").concat_map(\u{3bb}X.", b.as_str(), ")")
                    },
                    Fun::Slice => {
                        let a = args[0].render();
                        let b = args[1].render();
                        join5("(X[", a.as_str(), "..", b.as_str(), "])")
                    },
                    Fun::LocAdd => {
                        let a = args[0].render();
                        let b = args[1].render();
                        join5("(", a.as_str(), " + ", b.as_str(), ")")
                    },
                    Fun::LocSub => {
                        let a = args[0].render();
                        let b = args[1].render();
                        join5("(", a.as_str(), " - ", b.as_str(), ")")
                    },
                    Fun::Equal => {
                        let a = args[0].render();
                        let b = args[1].render();
                        join5("(", a.as_str(), " == ", b.as_str(), ")")
                    },
                }
            },
        }
    }
}

} // verus!
