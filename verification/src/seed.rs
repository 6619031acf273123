use vstd::prelude::*;
use vstd::string::StrSliceExecFns;
use vstd::string::StringExecFns;
use crate::ast::ast_views;
use crate::ast::AstV;
use crate::ast::AST;
use crate::bank::Bank;
use crate::cache::stored;
use crate::cache::OutputCache;
use crate::learn::literal;
use crate::learn::literal_space;
use crate::lit::lit_views;
use crate::lit::Lit;
use crate::lit::LitV;
use crate::text::alphanumeric;
use crate::text::char_string;
use crate::text::is_alphanumeric;
use crate::vsa::VsaV;

verus! {

/// The examples as contracts see them: each input with its output.
pub open spec fn example_views(examples: Seq<(Lit, Lit)>) -> Seq<(LitV, LitV)> {
    Seq::new(examples.len(), |i: int| (examples[i].0@, examples[i].1@))
}

/// A sign as it is written in a regular expression: the dot and the two braces
/// behind a backslash (both braces as the opening one), every other sign as it
/// is.
pub open spec fn escaped(c: char) -> Seq<char> {
    if c == '.' {
        "\\."@
    } else if c == '{' || c == '}' {
        "\\{"@
    } else {
        seq![c]
    }
}

/// The string constant for a sign.
pub open spec fn mark_of(c: char) -> LitV {
    LitV::StringConst(escaped(c))
}

/// The marks seen so far together with those of the signs of `text` that are
/// neither letters nor digits, each mark once, in the order of first
/// appearance.
pub open spec fn noted(seen: Seq<LitV>, text: Seq<char>) -> Seq<LitV>
    decreases text.len(),
{
    if text.len() == 0 {
        seen
    } else {
        let before = noted(seen, text.drop_last());
        let c = text.last();
        if alphanumeric(c) || before.contains(mark_of(c)) {
            before
        } else {
            before.push(mark_of(c))
        }
    }
}

/// The marks of an example of two strings: those of the input, then those of
/// the output. Another example has none.
pub open spec fn marks_of(example: (LitV, LitV)) -> Seq<LitV> {
    match example {
        (LitV::StringConst(inp), LitV::StringConst(out)) => noted(noted(Seq::empty(), inp), out),
        _ => Seq::empty(),
    }
}

/// The test whether a mark is among the marks of every example but the first.
pub open spec fn in_the_others(examples: Seq<(LitV, LitV)>) -> spec_fn(LitV) -> bool {
    |m: LitV| forall|j: int| 1 <= j < examples.len() ==> marks_of(#[trigger] examples[j]).contains(m)
}

/// The marks that every example has, in the order of the first example.
pub open spec fn common_marks(examples: Seq<(LitV, LitV)>) -> Seq<LitV> {
    if examples.len() == 0 {
        Seq::empty()
    } else {
        marks_of(examples[0]).filter(in_the_others(examples))
    }
}

/// The literals that every bank starts with.
pub open spec fn constants() -> Seq<LitV> {
    seq![
        LitV::Input,
        LitV::StringConst(""@),
        LitV::StringConst(" "@),
        LitV::StringConst("."@),
        LitV::LocConst(0),
        LitV::LocConst(1),
        LitV::LocEnd,
    ]
}

/// The regular expressions that every bank of regular expressions starts with.
pub open spec fn regex_atoms() -> Seq<LitV> {
    seq![
        LitV::StringConst("\\d"@),
        LitV::StringConst("\\b"@),
        LitV::StringConst("[a-z]"@),
        LitV::StringConst("[A-Z]"@),
    ]
}

/// The literals as programs.
pub open spec fn as_programs(lits: Seq<LitV>) -> Seq<AstV> {
    Seq::new(lits.len(), |i: int| AstV::Lit(lits[i]))
}

/// The literal `n` times.
pub open spec fn repeated(l: LitV, n: nat) -> Seq<LitV> {
    Seq::new(n, |i: int| l)
}

/// The cache in which each of the literals is stored for itself as the output
/// on each of `n` inputs.
pub open spec fn seeded_cache(prims: Seq<LitV>, n: nat) -> Seq<(Seq<LitV>, VsaV)>
    decreases prims.len(),
{
    if prims.len() == 0 {
        Seq::empty()
    } else {
        stored(
            seeded_cache(prims.drop_last(), n),
            repeated(prims.last(), n),
            literal(prims.last()),
        )
    }
}

/// The string for a sign as it is written in a regular expression.
pub fn escape(c: char) -> (out: String)
    ensures
        out@ == escaped(c),
{
    if c == '.' {
        String::from_str("\\.")
    } else if c == '{' || c == '}' {
        String::from_str("\\{")
    } else {
        char_string(c)
    }
}

/// Whether the literals include the literal.
pub fn has_lit(list: &Vec<Lit>, l: &Lit) -> (yes: bool)
    ensures
        yes == lit_views(list@).contains(l@),
{
    let mut i: usize = 0;
    while i < list.len()
        invariant
            i <= list.len(),
            forall|k: int| 0 <= k < i ==> (#[trigger] lit_views(list@)[k]) != l@,
        decreases list.len() - i,
    {
        if list[i] == *l {
            assert(lit_views(list@)[i as int] == l@);
            return true;
        }
        i += 1;
    }
    false
}

/// Adds the marks of the signs of `text` that are not yet among those seen.
pub fn note_marks(seen: &mut Vec<Lit>, text: &str)
    ensures
        lit_views(final(seen)@) == noted(lit_views(old(seen)@), text@),
{
    let ghost start = lit_views(seen@);
    let n = text.unicode_len();
    let mut i: usize = 0;
    proof {
        assert(text@.take(0) =~= Seq::empty());
    }
    while i < n
        invariant
            i <= n,
            n == text@.len(),
            lit_views(seen@) == noted(start, text@.take(i as int)),
        decreases n - i,
    {
        let c = text.get_char(i);
        proof {
            assert(text@.take(i + 1).drop_last() =~= text@.take(i as int));
            assert(text@.take(i + 1).last() == c);
        }
        if !is_alphanumeric(c) {
            let mark = Lit::StringConst(escape(c));
            if !has_lit(seen, &mark) {
                let ghost mid = seen@;
                seen.push(mark);
                proof {
                    assert(lit_views(seen@) =~= lit_views(mid).push(mark_of(c)));
                }
            }
        }
        i += 1;
    }
    proof {
        assert(text@.take(i as int) =~= text@);
    }
}

/// The marks of an example.
pub fn marks(example: &(Lit, Lit)) -> (out: Vec<Lit>)
    ensures
        lit_views(out@) == marks_of((example.0@, example.1@)),
{
    let mut out: Vec<Lit> = Vec::new();
    proof {
        assert(lit_views(out@) =~= Seq::empty());
    }
    match (&example.0, &example.1) {
        (Lit::StringConst(inp), Lit::StringConst(res)) => {
            note_marks(&mut out, inp.as_str());
            note_marks(&mut out, res.as_str());
        },
        _ => {},
    }
    out
}

/// The marks that every example has, in the order of the first example.
pub fn common(examples: &[(Lit, Lit)]) -> (out: Vec<Lit>)
    ensures
        lit_views(out@) == common_marks(example_views(examples@)),
{
    let ghost views = example_views(examples@);
    let mut out: Vec<Lit> = Vec::new();
    proof {
        assert(lit_views(out@) =~= Seq::empty());
    }
    if examples.len() == 0 {
        return out;
    }
    let mut sets: Vec<Vec<Lit>> = Vec::new();
    let mut j: usize = 0;
    while j < examples.len()
        invariant
            j <= examples.len(),
            sets@.len() == j,
            views == example_views(examples@),
            forall|k: int| 0 <= k < j ==> lit_views((#[trigger] sets@[k])@) == marks_of(views[k]),
        decreases examples.len() - j,
    {
        sets.push(marks(&examples[j]));
        j += 1;
    }
    let first = &sets[0];
    let ghost wanted = lit_views(first@);
    let mut i: usize = 0;
    proof {
        reveal(Seq::filter);
        assert(wanted.take(0) =~= Seq::empty());
    }
    while i < first.len()
        invariant
            i <= first.len(),
            wanted == lit_views(first@),
            views == example_views(examples@),
            sets@.len() == examples@.len(),
            sets@.len() > 0,
            forall|k: int|
                0 <= k < sets@.len() ==> lit_views((#[trigger] sets@[k])@) == marks_of(views[k]),
            lit_views(out@) == wanted.take(i as int).filter(in_the_others(views)),
        decreases first.len() - i,
    {
        let mut everywhere = true;
        let mut k: usize = 1;
        while k < sets.len()
            invariant
                1 <= k <= sets.len(),
                i < first.len(),
                views == example_views(examples@),
                sets@.len() == examples@.len(),
                forall|m: int|
                    0 <= m < sets@.len() ==> lit_views((#[trigger] sets@[m])@) == marks_of(
                        views[m],
                    ),
                everywhere == (forall|m: int|
                    1 <= m < k ==> marks_of(#[trigger] views[m]).contains(first@[i as int]@)),
            decreases sets.len() - k,
        {
            if !has_lit(&sets[k], &first[i]) {
                everywhere = false;
                proof {
                    assert(!marks_of(views[k as int]).contains(first@[i as int]@));
                }
            }
            k += 1;
        }
        proof {
            let before = wanted.take(i as int);
            assert(wanted.take(i + 1) =~= before.push(first@[i as int]@));
            before.lemma_filter_push(first@[i as int]@, in_the_others(views));
            assert(everywhere == in_the_others(views)(first@[i as int]@));
        }
        if everywhere {
            let ghost mid = out@;
            out.push(first[i].clone());
            proof {
                assert(lit_views(out@) =~= lit_views(mid).push(first@[i as int]@));
            }
        }
        i += 1;
    }
    proof {
        assert(wanted.take(i as int) =~= wanted);
        assert(wanted == marks_of(views[0]));
    }
    out
}

/// The literals that every bank starts with.
pub fn constant_lits() -> (out: Vec<Lit>)
    ensures
        lit_views(out@) == constants(),
{
    let mut out: Vec<Lit> = Vec::new();
    out.push(Lit::Input);
    out.push(Lit::StringConst(String::from_str("")));
    out.push(Lit::StringConst(String::from_str(" ")));
    out.push(Lit::StringConst(String::from_str(".")));
    out.push(Lit::LocConst(0));
    out.push(Lit::LocConst(1));
    out.push(Lit::LocEnd);
    proof {
        assert(lit_views(out@) =~= constants());
    }
    out
}

/// The regular expressions that every bank of regular expressions starts with.
pub fn regex_atom_lits() -> (out: Vec<Lit>)
    ensures
        lit_views(out@) == regex_atoms(),
{
    let mut out: Vec<Lit> = Vec::new();
    out.push(Lit::StringConst(String::from_str("\\d")));
    out.push(Lit::StringConst(String::from_str("\\b")));
    out.push(Lit::StringConst(String::from_str("[a-z]")));
    out.push(Lit::StringConst(String::from_str("[A-Z]")));
    proof {
        assert(lit_views(out@) =~= regex_atoms());
    }
    out
}

/// The literals of `first`, then those of `second`.
pub fn chain(first: Vec<Lit>, second: &Vec<Lit>) -> (out: Vec<Lit>)
    ensures
        lit_views(out@) == lit_views(first@) + lit_views(second@),
{
    let ghost start = lit_views(first@);
    let mut out = first;
    let mut i: usize = 0;
    proof {
        assert(lit_views(out@) =~= start + lit_views(second@).take(0));
    }
    while i < second.len()
        invariant
            i <= second.len(),
            lit_views(out@) == start + lit_views(second@).take(i as int),
        decreases second.len() - i,
    {
        let ghost mid = out@;
        out.push(second[i].clone());
        proof {
            assert(lit_views(out@) =~= lit_views(mid).push(second@[i as int]@));
            assert(lit_views(second@).take(i + 1) =~= lit_views(second@).take(i as int).push(
                second@[i as int]@,
            ));
            assert(lit_views(out@) =~= start + lit_views(second@).take(i + 1));
        }
        i += 1;
    }
    proof {
        assert(lit_views(second@).take(i as int) =~= lit_views(second@));
    }
    out
}

/// A bank whose one bucket holds the literals as programs.
pub fn bank_of(lits: &Vec<Lit>) -> (out: Bank)
    ensures
        out@ == seq![as_programs(lit_views(lits@))],
{
    let mut programs: Vec<AST> = Vec::new();
    let mut i: usize = 0;
    while i < lits.len()
        invariant
            i <= lits.len(),
            programs@.len() == i,
            forall|k: int| 0 <= k < i ==> (#[trigger] programs@[k])@ == AstV::Lit(lits@[k]@),
        decreases lits.len() - i,
    {
        programs.push(AST::Lit(lits[i].clone()));
        i += 1;
    }
    let mut entries: Vec<Vec<AST>> = Vec::new();
    entries.push(programs);
    let out = Bank { entries };
    proof {
        assert(ast_views(programs@) =~= as_programs(lit_views(lits@)));
        assert(out@ =~= seq![as_programs(lit_views(lits@))]);
    }
    out
}

/// A cache in which each of the literals is stored for itself as the output on
/// each of `n` inputs.
pub fn cache_of(lits: &Vec<Lit>, n: usize) -> (out: OutputCache)
    ensures
        out.wf(),
        out.entries() == seeded_cache(lit_views(lits@), n as nat),
{
    let mut out = OutputCache::new();
    let ghost all = lit_views(lits@);
    let mut i: usize = 0;
    proof {
        assert(all.take(0) =~= Seq::empty());
    }
    while i < lits.len()
        invariant
            i <= lits.len(),
            all == lit_views(lits@),
            out.wf(),
            out.entries() == seeded_cache(all.take(i as int), n as nat),
        decreases lits.len() - i,
    {
        let mut key: Vec<Lit> = Vec::new();
        let mut k: usize = 0;
        while k < n
            invariant
                k <= n,
                i < lits.len(),
                key@.len() == k,
                forall|m: int| 0 <= m < k ==> (#[trigger] key@[m])@ == lits@[i as int]@,
            decreases n - k,
        {
            key.push(lits[i].clone());
            k += 1;
        }
        proof {
            assert(lit_views(key@) =~= repeated(lits@[i as int]@, n as nat));
            assert(all.take(i + 1).drop_last() =~= all.take(i as int));
            assert(all.take(i + 1).last() == lits@[i as int]@);
        }
        out.insert(key, literal_space(lits[i].clone()));
        i += 1;
    }
    proof {
        assert(all.take(i as int) =~= all);
    }
    out
}

} // verus!
