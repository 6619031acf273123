use vstd::prelude::*;
use crate::ast::ast_views;
use crate::ast::lemma_app_view;
use crate::ast::AstV;
use crate::ast::AST;
use crate::bank::bucket;
use crate::bank::bucket_views;
use crate::bank::Bank;
use vstd::string::StringExecFns;
use crate::fun::Fun;
use crate::lit::Lit;
use crate::lit::LitV;
use crate::lit::Typ;

verus! {

/// Whether a program counts as a string: the input, a string constant, a
/// concatenation, a slice, or foreign code declared to give a string.
pub open spec fn is_string(p: AstV) -> bool {
    match p {
        AstV::Lit(LitV::Input) | AstV::Lit(LitV::StringConst(_)) => true,
        AstV::App { fun: Fun::Concat, .. } | AstV::App { fun: Fun::Slice, .. } => true,
        AstV::ForeignCall { typ: Typ::Str, .. } => true,
        _ => false,
    }
}

/// Whether a program counts as a location: a location constant, the end
/// location, a search, a sum or a difference.
pub open spec fn is_location(p: AstV) -> bool {
    match p {
        AstV::Lit(LitV::LocConst(_)) | AstV::Lit(LitV::LocEnd) => true,
        AstV::App { fun: Fun::Find, .. } | AstV::App { fun: Fun::LocAdd, .. } | AstV::App {
            fun: Fun::LocSub,
            ..
        } => true,
        _ => false,
    }
}

/// Whether a program counts as a truth value: a truth constant or a comparison.
pub open spec fn is_boolean(p: AstV) -> bool {
    match p {
        AstV::Lit(LitV::BoolConst(_)) => true,
        AstV::App { fun: Fun::Equal, .. } => true,
        _ => false,
    }
}

/// The three kinds of programs that the enumerator tells apart.
#[derive(Debug, PartialEq, Eq, Clone, Copy, Structural)]
pub enum Category {
    String,
    Location,
    Boolean,
}

/// The test for the programs of a category.
pub open spec fn of_category(category: Category) -> spec_fn(AstV) -> bool {
    |p: AstV|
        match category {
            Category::String => is_string(p),
            Category::Location => is_location(p),
            Category::Boolean => is_boolean(p),
        }
}

impl AST {
    /// Whether the program counts as a string.
    pub fn is_string(&self) -> (yes: bool)
        ensures
            yes == is_string(self@),
    {
        match self {
            AST::Lit(Lit::Input) => true,
            AST::Lit(Lit::StringConst(_)) => true,
            AST::App { fun: Fun::Concat, args } => {
                proof {
                    lemma_app_view(Fun::Concat, *args);
                }
                true
            },
            AST::App { fun: Fun::Slice, args } => {
                proof {
                    lemma_app_view(Fun::Slice, *args);
                }
                true
            },
            AST::App { fun, args } => {
                proof {
                    lemma_app_view(*fun, *args);
                }
                false
            },
            AST::ForeignCall { typ: Typ::Str, .. } => true,
            _ => false,
        }
    }

    /// Whether the program counts as a location.
    pub fn is_location(&self) -> (yes: bool)
        ensures
            yes == is_location(self@),
    {
        match self {
            AST::Lit(Lit::LocConst(_)) => true,
            AST::Lit(Lit::LocEnd) => true,
            AST::App { fun, args } => {
                proof {
                    lemma_app_view(*fun, *args);
                }
                match fun {
                    Fun::Find | Fun::LocAdd | Fun::LocSub => true,
                    _ => false,
                }
            },
            _ => false,
        }
    }

    /// Whether the program counts as a truth value.
    pub fn is_boolean(&self) -> (yes: bool)
        ensures
            yes == is_boolean(self@),
    {
        match self {
            AST::Lit(Lit::BoolConst(_)) => true,
            AST::App { fun, args } => {
                proof {
                    lemma_app_view(*fun, *args);
                }
                match fun {
                    Fun::Equal => true,
                    _ => false,
                }
            },
            _ => false,
        }
    }

    /// Whether the program is of the category.
    pub fn is_of(&self, category: Category) -> (yes: bool)
        ensures
            yes == of_category(category)(self@),
    {
        match category {
            Category::String => self.is_string(),
            Category::Location => self.is_location(),
            Category::Boolean => self.is_boolean(),
        }
    }
}

/// The operator applied to two programs.
pub open spec fn app2(fun: Fun, x: AstV, y: AstV) -> AstV {
    AstV::App { fun, args: seq![x, y] }
}

/// The operator applied to three programs.
pub open spec fn app3(fun: Fun, x: AstV, y: AstV, z: AstV) -> AstV {
    AstV::App { fun, args: seq![x, y, z] }
}

/// The operator applied to `x` and to each of `ys` in turn.
pub open spec fn row(fun: Fun, x: AstV, ys: Seq<AstV>) -> Seq<AstV> {
    Seq::new(ys.len(), |j: int| app2(fun, x, ys[j]))
}

/// The operator applied to each pair of a program of `xs` and one of `ys`, the
/// pairs of the first program of `xs` first.
pub open spec fn pairs(fun: Fun, xs: Seq<AstV>, ys: Seq<AstV>) -> Seq<AstV>
    decreases xs.len(),
{
    if xs.len() == 0 {
        Seq::empty()
    } else {
        pairs(fun, xs.drop_last(), ys) + row(fun, xs.last(), ys)
    }
}

/// For each of `zs` in turn, the search for the start and the search for the
/// end of a match, with `x` as the searched text and `y` as the pattern.
pub open spec fn find_row(x: AstV, y: AstV, zs: Seq<AstV>) -> Seq<AstV> {
    Seq::new(
        2 * zs.len(),
        |j: int|
            if j % 2 == 0 {
                app3(Fun::Find, x, y, zs[j / 2])
            } else {
                app3(Fun::FindEnd, x, y, zs[j / 2])
            },
    )
}

/// The searches in `x` for each pattern of `ys` and each index of `zs`, those
/// of the first pattern first.
pub open spec fn find_plane(x: AstV, ys: Seq<AstV>, zs: Seq<AstV>) -> Seq<AstV>
    decreases ys.len(),
{
    if ys.len() == 0 {
        Seq::empty()
    } else {
        find_plane(x, ys.drop_last(), zs) + find_row(x, ys.last(), zs)
    }
}

/// The searches in each text of `xs` for each pattern of `ys` and each index of
/// `zs`, those in the first text first.
pub open spec fn find_cube(xs: Seq<AstV>, ys: Seq<AstV>, zs: Seq<AstV>) -> Seq<AstV>
    decreases xs.len(),
{
    if xs.len() == 0 {
        Seq::empty()
    } else {
        find_cube(xs.drop_last(), ys, zs) + find_plane(xs.last(), ys, zs)
    }
}

/// The application of an operator to copies of two programs.
pub fn apply2(fun: Fun, x: &AST, y: &AST) -> (out: AST)
    ensures
        out@ == app2(fun, x@, y@),
{
    let mut args: Vec<AST> = Vec::new();
    args.push(x.clone());
    args.push(y.clone());
    proof {
        lemma_app_view(fun, args);
        assert(ast_views(args@) =~= seq![x@, y@]);
    }
    AST::App { fun, args }
}

/// The application of an operator to copies of three programs.
pub fn apply3(fun: Fun, x: &AST, y: &AST, z: &AST) -> (out: AST)
    ensures
        out@ == app3(fun, x@, y@, z@),
{
    let mut args: Vec<AST> = Vec::new();
    args.push(x.clone());
    args.push(y.clone());
    args.push(z.clone());
    proof {
        lemma_app_view(fun, args);
        assert(ast_views(args@) =~= seq![x@, y@, z@]);
    }
    AST::App { fun, args }
}

/// Appends the operator applied to each pair of a program of `xs` and one of
/// `ys`.
pub fn push_pairs(out: &mut Vec<AST>, fun: Fun, xs: &Vec<AST>, ys: &Vec<AST>)
    ensures
        ast_views(final(out)@) == ast_views(old(out)@) + pairs(fun, ast_views(xs@), ast_views(ys@)),
{
    let ghost start = ast_views(out@);
    let ghost xv = ast_views(xs@);
    let ghost yv = ast_views(ys@);
    let mut i: usize = 0;
    proof {
        assert(xv.take(0) =~= Seq::empty());
        assert(ast_views(out@) =~= start + pairs(fun, xv.take(0), yv));
    }
    while i < xs.len()
        invariant
            i <= xs.len(),
            xv == ast_views(xs@),
            yv == ast_views(ys@),
            ast_views(out@) == start + pairs(fun, xv.take(i as int), yv),
        decreases xs.len() - i,
    {
        let ghost before = ast_views(out@);
        let mut j: usize = 0;
        proof {
            assert(row(fun, xv[i as int], yv).take(0) =~= Seq::empty());
            assert(ast_views(out@) =~= before + row(fun, xv[i as int], yv).take(0));
        }
        while j < ys.len()
            invariant
                j <= ys.len(),
                i < xs.len(),
                xv == ast_views(xs@),
                yv == ast_views(ys@),
                ast_views(out@) == before + row(fun, xv[i as int], yv).take(j as int),
            decreases ys.len() - j,
        {
            let ghost mid = out@;
            out.push(apply2(fun, &xs[i], &ys[j]));
            proof {
                let r = row(fun, xv[i as int], yv);
                assert(ast_views(out@) =~= ast_views(mid).push(r[j as int]));
                assert(r.take(j + 1) =~= r.take(j as int).push(r[j as int]));
                assert(ast_views(out@) =~= before + r.take(j + 1));
            }
            j += 1;
        }
        proof {
            let r = row(fun, xv[i as int], yv);
            assert(r.take(j as int) =~= r);
            assert(xv.take(i + 1).drop_last() =~= xv.take(i as int));
            assert(xv.take(i + 1).last() == xv[i as int]);
            assert(ast_views(out@) =~= start + pairs(fun, xv.take(i + 1), yv));
        }
        i += 1;
    }
    proof {
        assert(xv.take(i as int) =~= xv);
    }
}

/// Appends the searches in each text of `xs` for each pattern of `ys` and each
/// index of `zs`.
pub fn push_finds(out: &mut Vec<AST>, xs: &Vec<AST>, ys: &Vec<AST>, zs: &Vec<AST>)
    ensures
        ast_views(final(out)@) == ast_views(old(out)@) + find_cube(
            ast_views(xs@),
            ast_views(ys@),
            ast_views(zs@),
        ),
{
    let ghost start = ast_views(out@);
    let ghost xv = ast_views(xs@);
    let ghost yv = ast_views(ys@);
    let ghost zv = ast_views(zs@);
    let mut i: usize = 0;
    proof {
        assert(xv.take(0) =~= Seq::empty());
        assert(ast_views(out@) =~= start + find_cube(xv.take(0), yv, zv));
    }
    while i < xs.len()
        invariant
            i <= xs.len(),
            xv == ast_views(xs@),
            yv == ast_views(ys@),
            zv == ast_views(zs@),
            ast_views(out@) == start + find_cube(xv.take(i as int), yv, zv),
        decreases xs.len() - i,
    {
        let ghost before = ast_views(out@);
        let mut j: usize = 0;
        proof {
            assert(yv.take(0) =~= Seq::empty());
            assert(ast_views(out@) =~= before + find_plane(xv[i as int], yv.take(0), zv));
        }
        while j < ys.len()
            invariant
                j <= ys.len(),
                i < xs.len(),
                xv == ast_views(xs@),
                yv == ast_views(ys@),
                zv == ast_views(zs@),
                ast_views(out@) == before + find_plane(xv[i as int], yv.take(j as int), zv),
            decreases ys.len() - j,
        {
            let ghost inner = ast_views(out@);
            let ghost r = find_row(xv[i as int], yv[j as int], zv);
            let mut k: usize = 0;
            proof {
                assert(ast_views(out@) =~= inner + r.take(0));
            }
            while k < zs.len()
                invariant
                    k <= zs.len(),
                    i < xs.len(),
                    j < ys.len(),
                    xv == ast_views(xs@),
                    yv == ast_views(ys@),
                    zv == ast_views(zs@),
                    r == find_row(xv[i as int], yv[j as int], zv),
                    ast_views(out@) == inner + r.take(2 * k),
                decreases zs.len() - k,
            {
                let ghost mid = out@;
                out.push(apply3(Fun::Find, &xs[i], &ys[j], &zs[k]));
                out.push(apply3(Fun::FindEnd, &xs[i], &ys[j], &zs[k]));
                proof {
                    assert(r[2 * k] == app3(Fun::Find, xv[i as int], yv[j as int], zv[k as int]));
                    assert(r[2 * k + 1] == app3(
                        Fun::FindEnd,
                        xv[i as int],
                        yv[j as int],
                        zv[k as int],
                    ));
                    assert(ast_views(out@) =~= ast_views(mid).push(r[2 * k]).push(r[2 * k + 1]));
                    assert(r.take(2 * (k + 1)) =~= r.take(2 * k).push(r[2 * k]).push(r[2 * k + 1]));
                    assert(ast_views(out@) =~= inner + r.take(2 * (k + 1)));
                }
                k += 1;
            }
            proof {
                assert(r.take(2 * k) =~= r);
                assert(yv.take(j + 1).drop_last() =~= yv.take(j as int));
                assert(yv.take(j + 1).last() == yv[j as int]);
                assert(ast_views(out@) =~= before + find_plane(xv[i as int], yv.take(j + 1), zv));
            }
            j += 1;
        }
        proof {
            assert(yv.take(j as int) =~= yv);
            assert(xv.take(i + 1).drop_last() =~= xv.take(i as int));
            assert(xv.take(i + 1).last() == xv[i as int]);
            assert(ast_views(out@) =~= start + find_cube(xv.take(i + 1), yv, zv));
        }
        i += 1;
    }
    proof {
        assert(xv.take(i as int) =~= xv);
    }
}

/// The buckets with only the programs that pass the test.
pub open spec fn only(buckets: Seq<Seq<AstV>>, test: spec_fn(AstV) -> bool) -> Seq<Seq<AstV>> {
    Seq::new(buckets.len(), |k: int| buckets[k].filter(test))
}

/// The buckets of strings, each followed by the regular expressions of its
/// size: what may stand as the pattern of a search.
pub open spec fn with_patterns(strings: Seq<Seq<AstV>>, regexes: Seq<Seq<AstV>>) -> Seq<Seq<AstV>> {
    Seq::new(strings.len(), |k: int| strings[k] + bucket(regexes, k + 1))
}

/// The operator applied to each pair of a left program and a right program
/// whose sizes add up to `total`, for the left sizes from 1 to `upto`, the
/// smaller left sizes first.
pub open spec fn binary(
    fun: Fun,
    lefts: Seq<Seq<AstV>>,
    rights: Seq<Seq<AstV>>,
    total: int,
    upto: int,
) -> Seq<AstV>
    decreases upto,
{
    if upto <= 0 {
        Seq::empty()
    } else {
        binary(fun, lefts, rights, total, upto - 1) + pairs(
            fun,
            bucket(lefts, upto),
            bucket(rights, total - upto),
        )
    }
}

/// The searches in texts of size `left` whose pattern and index have sizes that
/// add up with `left` to `total`, for the pattern sizes from 1 to `upto`.
pub open spec fn searches_from(
    texts: Seq<Seq<AstV>>,
    patterns: Seq<Seq<AstV>>,
    indexes: Seq<Seq<AstV>>,
    total: int,
    left: int,
    upto: int,
) -> Seq<AstV>
    decreases upto,
{
    if upto <= 0 {
        Seq::empty()
    } else {
        searches_from(texts, patterns, indexes, total, left, upto - 1) + find_cube(
            bucket(texts, left),
            bucket(patterns, upto),
            bucket(indexes, total - left - upto),
        )
    }
}

/// The searches whose text, pattern and index have sizes that add up to
/// `total`, for the text sizes from 1 to `upto`.
pub open spec fn searches(
    texts: Seq<Seq<AstV>>,
    patterns: Seq<Seq<AstV>>,
    indexes: Seq<Seq<AstV>>,
    total: int,
    upto: int,
) -> Seq<AstV>
    decreases upto,
{
    if upto <= 0 {
        Seq::empty()
    } else {
        searches(texts, patterns, indexes, total, upto - 1) + searches_from(
            texts,
            patterns,
            indexes,
            total,
            upto,
            total - upto - 1,
        )
    }
}

/// The sign that makes a regular expression match one or more times.
pub open spec fn plus() -> AstV {
    AstV::Lit(LitV::StringConst("+"@))
}

/// Each string followed by the sign for one or more times.
pub open spec fn repeats(strings: Seq<AstV>) -> Seq<AstV> {
    Seq::new(strings.len(), |i: int| app2(Fun::Concat, strings[i], plus()))
}

/// The programs of `size` nodes that the enumerator tries, in the order in
/// which it tries them: concatenations of two regular expressions, slices
/// between two locations, searches, strings with the sign for one or more
/// times, and, where truth values are wanted, comparisons of two locations.
pub open spec fn candidates(
    bank: Seq<Seq<AstV>>,
    regex_bank: Seq<Seq<AstV>>,
    size: int,
    enable_bools: bool,
) -> Seq<AstV> {
    let total = size - 1;
    let strings = only(bank, of_category(Category::String));
    let locations = only(bank, of_category(Category::Location));
    binary(Fun::Concat, regex_bank, regex_bank, total, total - 1) + binary(
        Fun::Slice,
        locations,
        locations,
        total,
        total - 1,
    ) + searches(strings, with_patterns(strings, regex_bank), locations, total, total - 2)
        + repeats(bucket(strings, size - 2)) + if enable_bools {
        binary(Fun::Equal, locations, locations, total, total - 1)
    } else {
        Seq::empty()
    }
}

/// The bucket for the size, or the empty list where there is none.
pub fn bucket_or<'a>(buckets: &'a Vec<Vec<AST>>, size: usize, none: &'a Vec<AST>) -> (out: &'a Vec<
    AST,
>)
    requires
        none@.len() == 0,
    ensures
        ast_views(out@) == bucket(bucket_views(buckets@), size as int),
{
    if 1 <= size && size <= buckets.len() {
        &buckets[size - 1]
    } else {
        assert(ast_views(none@) =~= Seq::empty());
        none
    }
}

/// Copies of the programs of each bucket that are of the category.
pub fn of_kind(bank: &Bank, category: Category) -> (out: Vec<Vec<AST>>)
    ensures
        bucket_views(out@) == only(bank@, of_category(category)),
{
    let mut out: Vec<Vec<AST>> = Vec::new();
    let mut k: usize = 0;
    while k < bank.entries.len()
        invariant
            k <= bank.entries.len(),
            out@.len() == k,
            forall|n: int|
                0 <= n < k ==> ast_views((#[trigger] out@[n])@) == bank@[n].filter(
                    of_category(category),
                ),
        decreases bank.entries.len() - k,
    {
        let source = &bank.entries[k];
        let mut kept: Vec<AST> = Vec::new();
        let mut i: usize = 0;
        proof {
            reveal(Seq::filter);
            assert(ast_views(source@).take(0) =~= Seq::empty());
            assert(ast_views(kept@) =~= Seq::empty());
        }
        while i < source.len()
            invariant
                i <= source.len(),
                ast_views(kept@) == ast_views(source@).take(i as int).filter(of_category(category)),
            decreases source.len() - i,
        {
            proof {
                let before = ast_views(source@).take(i as int);
                assert(ast_views(source@).take(i + 1) =~= before.push(source@[i as int]@));
                before.lemma_filter_push(source@[i as int]@, of_category(category));
            }
            if source[i].is_of(category) {
                let ghost mid = kept@;
                kept.push(source[i].clone());
                proof {
                    assert(ast_views(kept@) =~= ast_views(mid).push(source@[i as int]@));
                }
            }
            i += 1;
        }
        proof {
            assert(ast_views(source@).take(i as int) =~= ast_views(source@));
            assert(bank@[k as int] == ast_views(source@));
        }
        out.push(kept);
        k += 1;
    }
    proof {
        assert(bucket_views(out@) =~= only(bank@, of_category(category)));
    }
    out
}

/// The buckets of strings, each followed by copies of the regular expressions of
/// its size.
pub fn patterns_of(strings: &Vec<Vec<AST>>, regex_bank: &Bank) -> (out: Vec<Vec<AST>>)
    ensures
        bucket_views(out@) == with_patterns(bucket_views(strings@), regex_bank@),
{
    let none: Vec<AST> = Vec::new();
    let mut out: Vec<Vec<AST>> = Vec::new();
    let mut k: usize = 0;
    while k < strings.len()
        invariant
            k <= strings.len(),
            out@.len() == k,
            none@.len() == 0,
            forall|n: int|
                0 <= n < k ==> ast_views((#[trigger] out@[n])@) == ast_views(strings@[n]@) + bucket(
                    regex_bank@,
                    n + 1,
                ),
        decreases strings.len() - k,
    {
        let mut both: Vec<AST> = Vec::new();
        let first = &strings[k];
        let second = bucket_or(&regex_bank.entries, k + 1, &none);
        let mut i: usize = 0;
        proof {
            assert(ast_views(both@) =~= ast_views(first@).take(0));
        }
        while i < first.len()
            invariant
                i <= first.len(),
                ast_views(both@) == ast_views(first@).take(i as int),
            decreases first.len() - i,
        {
            let ghost mid = both@;
            both.push(first[i].clone());
            proof {
                assert(ast_views(both@) =~= ast_views(mid).push(first@[i as int]@));
                assert(ast_views(first@).take(i + 1) =~= ast_views(first@).take(i as int).push(
                    first@[i as int]@,
                ));
            }
            i += 1;
        }
        proof {
            assert(ast_views(first@).take(i as int) =~= ast_views(first@));
        }
        let mut j: usize = 0;
        proof {
            assert(ast_views(both@) =~= ast_views(first@) + ast_views(second@).take(0));
        }
        while j < second.len()
            invariant
                j <= second.len(),
                ast_views(both@) == ast_views(first@) + ast_views(second@).take(j as int),
            decreases second.len() - j,
        {
            let ghost mid = both@;
            both.push(second[j].clone());
            proof {
                assert(ast_views(both@) =~= ast_views(mid).push(second@[j as int]@));
                assert(ast_views(second@).take(j + 1) =~= ast_views(second@).take(j as int).push(
                    second@[j as int]@,
                ));
                assert(ast_views(both@) =~= ast_views(first@) + ast_views(second@).take(j + 1));
            }
            j += 1;
        }
        proof {
            assert(ast_views(second@).take(j as int) =~= ast_views(second@));
        }
        out.push(both);
        k += 1;
    }
    proof {
        assert(bucket_views(out@) =~= with_patterns(bucket_views(strings@), regex_bank@));
    }
    out
}

/// Appends the operator applied to each pair of a left program and a right
/// program whose sizes add up to `total`, for the left sizes from 1 to `upto`.
pub fn push_binary(
    out: &mut Vec<AST>,
    fun: Fun,
    lefts: &Vec<Vec<AST>>,
    rights: &Vec<Vec<AST>>,
    total: usize,
    upto: usize,
)
    requires
        upto <= total,
    ensures
        ast_views(final(out)@) == ast_views(old(out)@) + binary(
            fun,
            bucket_views(lefts@),
            bucket_views(rights@),
            total as int,
            upto as int,
        ),
{
    let none: Vec<AST> = Vec::new();
    let ghost start = ast_views(out@);
    let ghost lv = bucket_views(lefts@);
    let ghost rv = bucket_views(rights@);
    let mut left: usize = 0;
    proof {
        assert(ast_views(out@) =~= start + binary(fun, lv, rv, total as int, 0));
    }
    while left < upto
        invariant
            left <= upto <= total,
            none@.len() == 0,
            lv == bucket_views(lefts@),
            rv == bucket_views(rights@),
            ast_views(out@) == start + binary(fun, lv, rv, total as int, left as int),
        decreases upto - left,
    {
        left += 1;
        let xs = bucket_or(lefts, left, &none);
        let ys = bucket_or(rights, total - left, &none);
        let ghost before = ast_views(out@);
        push_pairs(out, fun, xs, ys);
        proof {
            assert(ast_views(out@) =~= start + binary(fun, lv, rv, total as int, left as int));
        }
    }
}

/// Appends the searches whose text, pattern and index have sizes that add up
/// to `total`, for the text sizes from 1 to `upto`.
pub fn push_searches(
    out: &mut Vec<AST>,
    texts: &Vec<Vec<AST>>,
    patterns: &Vec<Vec<AST>>,
    indexes: &Vec<Vec<AST>>,
    total: usize,
    upto: usize,
)
    requires
        upto < total,
    ensures
        ast_views(final(out)@) == ast_views(old(out)@) + searches(
            bucket_views(texts@),
            bucket_views(patterns@),
            bucket_views(indexes@),
            total as int,
            upto as int,
        ),
{
    let none: Vec<AST> = Vec::new();
    let ghost start = ast_views(out@);
    let ghost tv = bucket_views(texts@);
    let ghost pv = bucket_views(patterns@);
    let ghost iv = bucket_views(indexes@);
    let mut left: usize = 0;
    proof {
        assert(ast_views(out@) =~= start + searches(tv, pv, iv, total as int, 0));
    }
    while left < upto
        invariant
            left <= upto < total,
            none@.len() == 0,
            tv == bucket_views(texts@),
            pv == bucket_views(patterns@),
            iv == bucket_views(indexes@),
            ast_views(out@) == start + searches(tv, pv, iv, total as int, left as int),
        decreases upto - left,
    {
        left += 1;
        let ghost before = ast_views(out@);
        let most: usize = total - left - 1;
        let mut middle: usize = 0;
        proof {
            assert(ast_views(out@) =~= before + searches_from(
                tv,
                pv,
                iv,
                total as int,
                left as int,
                0,
            ));
        }
        while middle < most
            invariant
                middle <= most,
                most == total - left - 1,
                left < total,
                none@.len() == 0,
                tv == bucket_views(texts@),
                pv == bucket_views(patterns@),
                iv == bucket_views(indexes@),
                ast_views(out@) == before + searches_from(
                    tv,
                    pv,
                    iv,
                    total as int,
                    left as int,
                    middle as int,
                ),
            decreases most - middle,
        {
            middle += 1;
            let xs = bucket_or(texts, left, &none);
            let ys = bucket_or(patterns, middle, &none);
            let zs = bucket_or(indexes, total - left - middle, &none);
            push_finds(out, xs, ys, zs);
            proof {
                assert(ast_views(out@) =~= before + searches_from(
                    tv,
                    pv,
                    iv,
                    total as int,
                    left as int,
                    middle as int,
                ));
            }
        }
        proof {
            assert(ast_views(out@) =~= start + searches(tv, pv, iv, total as int, left as int));
        }
    }
}

/// The programs of `size` nodes that the enumerator tries.
pub fn candidates_of(bank: &Bank, regex_bank: &Bank, size: usize, enable_bools: bool) -> (out: Vec<
    AST,
>)
    requires
        size >= 1,
    ensures
        ast_views(out@) == candidates(bank@, regex_bank@, size as int, enable_bools),
{
    let none: Vec<AST> = Vec::new();
    let total: usize = size - 1;
    let strings = of_kind(bank, Category::String);
    let locations = of_kind(bank, Category::Location);
    let patterns = patterns_of(&strings, regex_bank);
    let mut out: Vec<AST> = Vec::new();
    proof {
        assert(ast_views(out@) =~= Seq::empty());
    }
    if total >= 1 {
        push_binary(&mut out, Fun::Concat, &regex_bank.entries, &regex_bank.entries, total, total - 1);
        push_binary(&mut out, Fun::Slice, &locations, &locations, total, total - 1);
    }
    let ghost first = ast_views(out@);
    proof {
        assert(first =~= binary(Fun::Concat, regex_bank@, regex_bank@, total as int, total - 1)
            + binary(
            Fun::Slice,
            bucket_views(locations@),
            bucket_views(locations@),
            total as int,
            total - 1,
        ));
    }
    if total >= 2 {
        push_searches(&mut out, &strings, &patterns, &locations, total, total - 2);
    }
    let ghost second = ast_views(out@);
    proof {
        assert(second =~= first + searches(
            bucket_views(strings@),
            bucket_views(patterns@),
            bucket_views(locations@),
            total as int,
            total - 2,
        ));
    }
    if size >= 2 {
        let sign = AST::Lit(Lit::StringConst(String::from_str("+")));
        let base = bucket_or(&strings, size - 2, &none);
        let mut i: usize = 0;
        let ghost goal = repeats(ast_views(base@));
        proof {
            assert(ast_views(out@) =~= second + goal.take(0));
        }
        while i < base.len()
            invariant
                i <= base.len(),
                sign@ == plus(),
                goal == repeats(ast_views(base@)),
                ast_views(out@) == second + goal.take(i as int),
            decreases base.len() - i,
        {
            let ghost mid = out@;
            out.push(apply2(Fun::Concat, &base[i], &sign));
            proof {
                assert(ast_views(out@) =~= ast_views(mid).push(goal[i as int]));
                assert(goal.take(i + 1) =~= goal.take(i as int).push(goal[i as int]));
                assert(ast_views(out@) =~= second + goal.take(i + 1));
            }
            i += 1;
        }
        proof {
            assert(goal.take(i as int) =~= goal);
        }
    } else {
        proof {
            assert(repeats(bucket(bucket_views(strings@), size - 2)) =~= Seq::empty());
            assert(ast_views(out@) =~= second + repeats(bucket(bucket_views(strings@), size - 2)));
        }
    }
    let ghost third = ast_views(out@);
    if enable_bools && total >= 1 {
        push_binary(&mut out, Fun::Equal, &locations, &locations, total, total - 1);
    }
    proof {
        assert(ast_views(out@) =~= third + if enable_bools {
            binary(
                Fun::Equal,
                bucket_views(locations@),
                bucket_views(locations@),
                total as int,
                total - 1,
            )
        } else {
            Seq::empty()
        });
    }
    out
}

} // verus!
