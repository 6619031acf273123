use vstd::prelude::*;
use crate::fun::Fun;
use crate::lit::clipped;
use crate::lit::lit_cost;
use crate::lit::Cost;
use crate::lit::Lit;
use crate::lit::LitV;
use crate::lit::Typ;

verus! {

/// What a program stands for in contracts.
pub enum AstV {
    App { fun: Fun, args: Seq<AstV> },
    Lit(LitV),
    ForeignCall { code: Seq<char>, input: Box<AstV>, typ: Typ },
}

/// A program: a literal, an operator applied to programs, or a piece of foreign
/// code applied to a program.
#[derive(Debug, Hash)]
pub enum AST {
    App { fun: Fun, args: Vec<AST> },
    Lit(Lit),
    ForeignCall { code: String, input: Box<AST>, typ: Typ },
}

impl AST {
    /// What the program stands for in contracts.
    pub open spec fn model(&self) -> AstV
        decreases self,
    {
        match self {
            AST::App { fun, args } => AstV::App {
                fun: *fun,
                args: Seq::new(
                    args@.len(),
                    |i: int|
                        if 0 <= i < args@.len() {
                            args@[i].model()
                        } else {
                            AstV::Lit(LitV::Input)
                        },
                ),
            },
            AST::Lit(l) => AstV::Lit(l@),
            AST::ForeignCall { code, input, typ } => AstV::ForeignCall {
                code: code@,
                input: Box::new(input.model()),
                typ: *typ,
            },
        }
    }
}

impl View for AST {
    type V = AstV;

    open spec fn view(&self) -> AstV {
        self.model()
    }
}

/// The views of a sequence of programs.
pub open spec fn ast_views(asts: Seq<AST>) -> Seq<AstV> {
    Seq::new(asts.len(), |i: int| asts[i]@)
}

/// The arguments of an application are viewed one by one.
pub proof fn lemma_app_view(fun: Fun, args: Vec<AST>)
    ensures
        (AST::App { fun, args })@ == (AstV::App { fun, args: ast_views(args@) }),
{
    assert((AST::App { fun, args })@->App_args =~= ast_views(args@));
}

/// The sum of a sequence of numbers.
pub open spec fn sum(xs: Seq<nat>) -> nat
    decreases xs.len(),
{
    if xs.len() == 0 {
        0
    } else {
        sum(xs.drop_last()) + xs.last()
    }
}

/// The number of nodes of a program.
pub open spec fn nodes(p: AstV) -> nat
    decreases p, 1nat,
{
    match p {
        AstV::Lit(_) => 1,
        AstV::App { fun, args } => 1 + sum(arg_nodes(p)),
        AstV::ForeignCall { code, input, typ } => 1 + nodes(*input),
    }
}

/// The node counts of the arguments of an application.
pub open spec fn arg_nodes(p: AstV) -> Seq<nat>
    decreases p, 0nat,
{
    match p {
        AstV::App { fun, args } => Seq::new(
            args.len(),
            |i: int|
                if 0 <= i < args.len() {
                    nodes(args[i])
                } else {
                    0
                },
        ),
        _ => Seq::empty(),
    }
}

/// The node counts of a sequence of programs.
pub open spec fn node_counts(args: Seq<AstV>) -> Seq<nat> {
    Seq::new(args.len(), |i: int| nodes(args[i]))
}

/// The cost of a program: that of a literal; for an application, the operator's
/// cost and the node counts of the arguments; for a foreign call, 1 and the cost
/// of its argument.
pub open spec fn cost_of(p: AstV) -> nat
    decreases p,
{
    match p {
        AstV::Lit(l) => lit_cost(l),
        AstV::App { fun, args } => fun.cost_spec() + sum(node_counts(args)),
        AstV::ForeignCall { code, input, typ } => 1 + cost_of(*input),
    }
}

/// The node count of an application is 1 and the counts of its arguments.
pub proof fn lemma_nodes_app(fun: Fun, args: Seq<AstV>)
    ensures
        nodes(AstV::App { fun, args }) == 1 + sum(node_counts(args)),
{
    assert(arg_nodes(AstV::App { fun, args }) =~= node_counts(args));
}

/// The sum of a sequence with one more number.
pub proof fn lemma_sum_push(xs: Seq<nat>, x: nat)
    ensures
        sum(xs.push(x)) == sum(xs) + x,
{
    assert(xs.push(x).drop_last() =~= xs);
}

impl AST {
    /// The number of nodes; the largest `usize` where that cannot hold it.
    pub fn size(&self) -> (n: usize)
        ensures
            n == clipped(nodes(self@)),
        decreases self,
    {
        match self {
            AST::Lit(_) => 1,
            AST::App { fun, args } => {
                let total = AST::sizes(args);
                proof {
                    lemma_app_view(*fun, *args);
                    lemma_nodes_app(*fun, ast_views(args@));
                }
                total.saturating_add(1)
            },
            AST::ForeignCall { code, input, typ } => input.size().saturating_add(1),
        }
    }

    /// The node counts of the programs together, clipped like `size`.
    fn sizes(args: &Vec<AST>) -> (total: usize)
        ensures
            total == clipped(sum(node_counts(ast_views(args@)))),
        decreases args,
    {
        let mut total: usize = 0;
        let mut i: usize = 0;
        while i < args.len()
            invariant
                i <= args.len(),
                total == clipped(sum(node_counts(ast_views(args@)).take(i as int))),
            decreases args.len() - i,
        {
            let one = args[i].size();
            proof {
                let counts = node_counts(ast_views(args@));
                assert(counts.take(i + 1) =~= counts.take(i as int).push(counts[i as int]));
                lemma_sum_push(counts.take(i as int), counts[i as int]);
            }
            total = total.saturating_add(one);
            i += 1;
        }
        proof {
            let counts = node_counts(ast_views(args@));
            assert(counts.take(i as int) =~= counts);
        }
        total
    }

    /// A copy of the program.
    #[verifier::loop_isolation(false)]
    pub fn duplicate(&self) -> (out: AST)
        ensures
            out@ == self@,
        decreases self,
    {
        match self {
            AST::Lit(l) => AST::Lit(l.clone()),
            AST::App { fun, args } => {
                let mut copies: Vec<AST> = Vec::new();
                let mut i: usize = 0;
                while i < args.len()
                    invariant
                        i <= args.len(),
                        copies@.len() == i,
                        forall|k: int| 0 <= k < i ==> (#[trigger] copies@[k])@ == args@[k]@,
                    decreases args.len() - i,
                {
                    copies.push(args[i].duplicate());
                    i += 1;
                }
                proof {
                    lemma_app_view(*fun, *args);
                    lemma_app_view(*fun, copies);
                    assert(ast_views(copies@) =~= ast_views(args@));
                }
                AST::App { fun: *fun, args: copies }
            },
            AST::ForeignCall { code, input, typ } => AST::ForeignCall {
                code: code.clone(),
                input: Box::new(input.duplicate()),
                typ: *typ,
            },
        }
    }

    /// Whether the two programs are the same.
    #[verifier::loop_isolation(false)]
    pub fn same(&self, other: &AST) -> (yes: bool)
        ensures
            yes == (self@ == other@),
        decreases self,
    {
        match (self, other) {
            (AST::Lit(a), AST::Lit(b)) => *a == *b,
            (AST::App { fun, args }, AST::App { fun: other_fun, args: other_args }) => {
                proof {
                    lemma_app_view(*fun, *args);
                    lemma_app_view(*other_fun, *other_args);
                }
                if *fun != *other_fun || args.len() != other_args.len() {
                    proof {
                        if args.len() != other_args.len() {
                            assert(ast_views(args@).len() != ast_views(other_args@).len());
                        }
                    }
                    return false;
                }
                let mut i: usize = 0;
                while i < args.len()
                    invariant
                        i <= args.len(),
                        args.len() == other_args.len(),
                        forall|k: int| 0 <= k < i ==> (#[trigger] args@[k])@ == other_args@[k]@,
                    decreases args.len() - i,
                {
                    if !args[i].same(&other_args[i]) {
                        proof {
                            assert(ast_views(args@)[i as int] != ast_views(other_args@)[i as int]);
                        }
                        return false;
                    }
                    i += 1;
                }
                proof {
                    assert(ast_views(args@) =~= ast_views(other_args@));
                }
                true
            },
            (
                AST::ForeignCall { code, input, typ },
                AST::ForeignCall { code: other_code, input: other_input, typ: other_typ },
            ) => *code == *other_code && *typ == *other_typ && input.same(other_input),
            _ => false,
        }
    }
}

impl Clone for AST {
    fn clone(&self) -> (out: AST)
        ensures
            out@ == self@,
    {
        self.duplicate()
    }
}

impl PartialEq for AST {
    fn eq(&self, other: &AST) -> (yes: bool) {
        self.same(other)
    }
}

impl vstd::std_specs::cmp::PartialEqSpecImpl for AST {
    open spec fn obeys_eq_spec() -> bool {
        true
    }

    open spec fn eq_spec(&self, other: &AST) -> bool {
        self@ == other@
    }
}

impl Eq for AST {}

impl Cost for AST {
    open spec fn cost_spec(&self) -> nat {
        cost_of(self@)
    }

    fn cost(&self) -> (c: usize) {
        self.cost_clipped()
    }
}

impl AST {
    fn cost_clipped(&self) -> (c: usize)
        ensures
            c == clipped(cost_of(self@)),
        decreases self,
    {
        match self {
            AST::Lit(l) => l.cost(),
            AST::App { fun, args } => {
                proof {
                    lemma_app_view(*fun, *args);
                }
                AST::sizes(args).saturating_add(fun.cost())
            },
            AST::ForeignCall { code, input, typ } => input.cost_clipped().saturating_add(1),
        }
    }
}

} // verus!
