use vstd::prelude::*;
use crate::ast::lemma_nodes_app;
use crate::ast::node_counts;
use crate::ast::nodes;
use crate::ast::sum;
use crate::ast::AstV;
use crate::bank::bucket;
use crate::bank::sized;
use crate::bottom_up::grown;
use crate::bottom_up::kept_of;
use crate::enumerate::app2;
use crate::enumerate::app3;
use crate::enumerate::binary;
use crate::enumerate::candidates;
use crate::enumerate::find_cube;
use crate::enumerate::find_plane;
use crate::enumerate::find_row;
use crate::enumerate::of_category;
use crate::enumerate::only;
use crate::enumerate::pairs;
use crate::enumerate::plus;
use crate::enumerate::repeats;
use crate::enumerate::row;
use crate::enumerate::searches;
use crate::enumerate::searches_from;
use crate::enumerate::with_patterns;
use crate::enumerate::Category;
use crate::eval::ForeignEvaluator;
use crate::fun::Fun;
use crate::laws::lemma_filter_lists;
use crate::lit::LitV;
use crate::vsa::VsaV;

verus! {

/// Whether every program has the number of nodes.
pub open spec fn all_of_size(programs: Seq<AstV>, size: int) -> bool {
    forall|i: int| 0 <= i < programs.len() ==> nodes(#[trigger] programs[i]) == size
}

/// An operator applied to two programs has one node more than they have
/// together.
pub proof fn lemma_nodes_app2(fun: Fun, x: AstV, y: AstV)
    ensures
        nodes(app2(fun, x, y)) == 1 + nodes(x) + nodes(y),
{
    let args = seq![x, y];
    lemma_nodes_app(fun, args);
    let counts = node_counts(args);
    reveal_with_fuel(sum, 3);
    assert(counts.drop_last().drop_last() =~= Seq::<nat>::empty());
    assert(sum(counts.drop_last().drop_last()) == 0);
    assert(counts.drop_last().last() == nodes(x));
    assert(counts.last() == nodes(y));
}

/// An operator applied to three programs has one node more than they have
/// together.
pub proof fn lemma_nodes_app3(fun: Fun, x: AstV, y: AstV, z: AstV)
    ensures
        nodes(app3(fun, x, y, z)) == 1 + nodes(x) + nodes(y) + nodes(z),
{
    let args = seq![x, y, z];
    lemma_nodes_app(fun, args);
    let counts = node_counts(args);
    reveal_with_fuel(sum, 4);
    assert(counts.drop_last().drop_last().drop_last() =~= Seq::<nat>::empty());
    assert(sum(counts.drop_last().drop_last().drop_last()) == 0);
    assert(counts.drop_last().drop_last().last() == nodes(x));
    assert(counts.drop_last().last() == nodes(y));
    assert(counts.last() == nodes(z));
}

/// Programs of two sequences of given sizes, one after the other where the
/// sizes are the same.
pub proof fn lemma_concat_of_size(a: Seq<AstV>, b: Seq<AstV>, size: int)
    requires
        all_of_size(a, size),
        all_of_size(b, size),
    ensures
        all_of_size(a + b, size),
{
    let all = a + b;
    assert forall|i: int| 0 <= i < all.len() implies nodes(#[trigger] all[i]) == size by {
        if i < a.len() {
            assert(all[i] == a[i]);
        } else {
            assert(all[i] == b[i - a.len()]);
        }
    }
}

/// The pairs of programs of two sizes have one node more than the two sizes
/// together.
pub proof fn lemma_pairs_of_size(fun: Fun, xs: Seq<AstV>, ys: Seq<AstV>, a: int, b: int)
    requires
        all_of_size(xs, a),
        all_of_size(ys, b),
    ensures
        all_of_size(pairs(fun, xs, ys), 1 + a + b),
    decreases xs.len(),
{
    if xs.len() > 0 {
        let front = xs.drop_last();
        assert forall|i: int| 0 <= i < front.len() implies nodes(#[trigger] front[i]) == a by {
            assert(front[i] == xs[i]);
        }
        lemma_pairs_of_size(fun, front, ys, a, b);
        let last = row(fun, xs.last(), ys);
        assert forall|j: int| 0 <= j < last.len() implies nodes(#[trigger] last[j]) == 1 + a + b by {
            lemma_nodes_app2(fun, xs.last(), ys[j]);
            assert(nodes(xs[xs.len() - 1]) == a);
            assert(nodes(ys[j]) == b);
        }
        lemma_concat_of_size(pairs(fun, front, ys), last, 1 + a + b);
    }
}

/// The programs of a bucket of a bank that keeps programs by size have the size
/// of the bucket.
pub proof fn lemma_bucket_of_size(buckets: Seq<Seq<AstV>>, size: int)
    requires
        sized(buckets),
    ensures
        all_of_size(bucket(buckets, size), size),
{
    let programs = bucket(buckets, size);
    assert forall|i: int| 0 <= i < programs.len() implies nodes(#[trigger] programs[i]) == size by {
        assert(nodes(buckets[size - 1][i]) == size);
    }
}

/// The pairs whose sizes add up to `total` have one node more.
pub proof fn lemma_binary_of_size(
    fun: Fun,
    lefts: Seq<Seq<AstV>>,
    rights: Seq<Seq<AstV>>,
    total: int,
    upto: int,
)
    requires
        sized(lefts),
        sized(rights),
    ensures
        all_of_size(binary(fun, lefts, rights, total, upto), total + 1),
    decreases upto,
{
    if upto > 0 {
        lemma_binary_of_size(fun, lefts, rights, total, upto - 1);
        lemma_bucket_of_size(lefts, upto);
        lemma_bucket_of_size(rights, total - upto);
        lemma_pairs_of_size(fun, bucket(lefts, upto), bucket(rights, total - upto), upto, total - upto);
        lemma_concat_of_size(
            binary(fun, lefts, rights, total, upto - 1),
            pairs(fun, bucket(lefts, upto), bucket(rights, total - upto)),
            total + 1,
        );
    }
}

/// The searches in texts, for patterns and indexes of three sizes have one node
/// more than the three sizes together.
pub proof fn lemma_find_cube_of_size(
    xs: Seq<AstV>,
    ys: Seq<AstV>,
    zs: Seq<AstV>,
    a: int,
    b: int,
    c: int,
)
    requires
        all_of_size(xs, a),
        all_of_size(ys, b),
        all_of_size(zs, c),
    ensures
        all_of_size(find_cube(xs, ys, zs), 1 + a + b + c),
    decreases xs.len(),
{
    if xs.len() > 0 {
        let front = xs.drop_last();
        assert forall|i: int| 0 <= i < front.len() implies nodes(#[trigger] front[i]) == a by {
            assert(front[i] == xs[i]);
        }
        lemma_find_cube_of_size(front, ys, zs, a, b, c);
        assert(nodes(xs[xs.len() - 1]) == a);
        lemma_find_plane_of_size(xs.last(), ys, zs, a, b, c);
        lemma_concat_of_size(
            find_cube(front, ys, zs),
            find_plane(xs.last(), ys, zs),
            1 + a + b + c,
        );
    }
}

/// The searches in one text, for patterns and indexes of two sizes.
pub proof fn lemma_find_plane_of_size(
    x: AstV,
    ys: Seq<AstV>,
    zs: Seq<AstV>,
    a: int,
    b: int,
    c: int,
)
    requires
        nodes(x) == a,
        all_of_size(ys, b),
        all_of_size(zs, c),
    ensures
        all_of_size(find_plane(x, ys, zs), 1 + a + b + c),
    decreases ys.len(),
{
    if ys.len() > 0 {
        let front = ys.drop_last();
        assert forall|i: int| 0 <= i < front.len() implies nodes(#[trigger] front[i]) == b by {
            assert(front[i] == ys[i]);
        }
        lemma_find_plane_of_size(x, front, zs, a, b, c);
        assert(nodes(ys[ys.len() - 1]) == b);
        let last = find_row(x, ys.last(), zs);
        assert forall|j: int| 0 <= j < last.len() implies nodes(#[trigger] last[j]) == 1 + a + b
            + c by {
            assert(nodes(zs[j / 2]) == c);
            lemma_nodes_app3(Fun::Find, x, ys.last(), zs[j / 2]);
            lemma_nodes_app3(Fun::FindEnd, x, ys.last(), zs[j / 2]);
        }
        lemma_concat_of_size(find_plane(x, front, zs), last, 1 + a + b + c);
    }
}

/// The searches whose three sizes add up to `total` have one node more.
pub proof fn lemma_searches_from_of_size(
    texts: Seq<Seq<AstV>>,
    patterns: Seq<Seq<AstV>>,
    indexes: Seq<Seq<AstV>>,
    total: int,
    left: int,
    upto: int,
)
    requires
        sized(texts),
        sized(patterns),
        sized(indexes),
    ensures
        all_of_size(searches_from(texts, patterns, indexes, total, left, upto), total + 1),
    decreases upto,
{
    if upto > 0 {
        lemma_searches_from_of_size(texts, patterns, indexes, total, left, upto - 1);
        lemma_bucket_of_size(texts, left);
        lemma_bucket_of_size(patterns, upto);
        lemma_bucket_of_size(indexes, total - left - upto);
        lemma_find_cube_of_size(
            bucket(texts, left),
            bucket(patterns, upto),
            bucket(indexes, total - left - upto),
            left,
            upto,
            total - left - upto,
        );
        lemma_concat_of_size(
            searches_from(texts, patterns, indexes, total, left, upto - 1),
            find_cube(
                bucket(texts, left),
                bucket(patterns, upto),
                bucket(indexes, total - left - upto),
            ),
            total + 1,
        );
    }
}

/// The searches whose three sizes add up to `total` have one node more.
pub proof fn lemma_searches_of_size(
    texts: Seq<Seq<AstV>>,
    patterns: Seq<Seq<AstV>>,
    indexes: Seq<Seq<AstV>>,
    total: int,
    upto: int,
)
    requires
        sized(texts),
        sized(patterns),
        sized(indexes),
    ensures
        all_of_size(searches(texts, patterns, indexes, total, upto), total + 1),
    decreases upto,
{
    if upto > 0 {
        lemma_searches_of_size(texts, patterns, indexes, total, upto - 1);
        lemma_searches_from_of_size(texts, patterns, indexes, total, upto, total - upto - 1);
        lemma_concat_of_size(
            searches(texts, patterns, indexes, total, upto - 1),
            searches_from(texts, patterns, indexes, total, upto, total - upto - 1),
            total + 1,
        );
    }
}

/// The programs of one kind of a bank that keeps programs by size are kept by
/// size.
pub proof fn lemma_only_sized(buckets: Seq<Seq<AstV>>, test: spec_fn(AstV) -> bool)
    requires
        sized(buckets),
    ensures
        sized(only(buckets, test)),
{
    let kept = only(buckets, test);
    assert forall|k: int, i: int| 0 <= k < kept.len() && 0 <= i < kept[k].len() implies nodes(
        #[trigger] kept[k][i],
    ) == k + 1 by {
        let p = kept[k][i];
        assert(kept[k].contains(p));
        lemma_filter_lists(buckets[k], test, p);
        let at = choose|j: int| 0 <= j < buckets[k].len() && buckets[k][j] == p;
        assert(nodes(buckets[k][at]) == k + 1);
    }
}

/// Strings followed by the regular expressions of their size are kept by size.
pub proof fn lemma_with_patterns_sized(strings: Seq<Seq<AstV>>, regexes: Seq<Seq<AstV>>)
    requires
        sized(strings),
        sized(regexes),
    ensures
        sized(with_patterns(strings, regexes)),
{
    let all = with_patterns(strings, regexes);
    assert forall|k: int, i: int| 0 <= k < all.len() && 0 <= i < all[k].len() implies nodes(
        #[trigger] all[k][i],
    ) == k + 1 by {
        if i < strings[k].len() {
            assert(all[k][i] == strings[k][i]);
        } else {
            lemma_bucket_of_size(regexes, k + 1);
            assert(all[k][i] == bucket(regexes, k + 1)[i - strings[k].len()]);
        }
    }
}

/// The candidates of a size have that many nodes, where the banks keep their
/// programs by size.
pub proof fn lemma_candidates_of_size(
    bank: Seq<Seq<AstV>>,
    regex_bank: Seq<Seq<AstV>>,
    size: int,
    enable_bools: bool,
)
    requires
        sized(bank),
        sized(regex_bank),
    ensures
        all_of_size(candidates(bank, regex_bank, size, enable_bools), size),
{
    let total = size - 1;
    let strings = only(bank, of_category(Category::String));
    let locations = only(bank, of_category(Category::Location));
    lemma_only_sized(bank, of_category(Category::String));
    lemma_only_sized(bank, of_category(Category::Location));
    lemma_with_patterns_sized(strings, regex_bank);
    let one = binary(Fun::Concat, regex_bank, regex_bank, total, total - 1);
    let two = binary(Fun::Slice, locations, locations, total, total - 1);
    let three = searches(strings, with_patterns(strings, regex_bank), locations, total, total - 2);
    let four = repeats(bucket(strings, size - 2));
    let five = if enable_bools {
        binary(Fun::Equal, locations, locations, total, total - 1)
    } else {
        Seq::empty()
    };
    lemma_binary_of_size(Fun::Concat, regex_bank, regex_bank, total, total - 1);
    lemma_binary_of_size(Fun::Slice, locations, locations, total, total - 1);
    lemma_searches_of_size(strings, with_patterns(strings, regex_bank), locations, total, total - 2);
    lemma_bucket_of_size(strings, size - 2);
    assert forall|i: int| 0 <= i < four.len() implies nodes(#[trigger] four[i]) == size by {
        lemma_nodes_app2(Fun::Concat, bucket(strings, size - 2)[i], plus());
    }
    if enable_bools {
        lemma_binary_of_size(Fun::Equal, locations, locations, total, total - 1);
    }
    lemma_concat_of_size(one, two, size);
    lemma_concat_of_size(one + two, three, size);
    lemma_concat_of_size(one + two + three, four, size);
    lemma_concat_of_size(one + two + three + four, five, size);
}

/// The programs that a round keeps are among those that it tries.
pub proof fn lemma_kept_of_size<E: ForeignEvaluator>(
    entries: Seq<(Seq<LitV>, VsaV)>,
    inputs: Seq<LitV>,
    tried: Seq<AstV>,
    foreign: E,
    size: int,
)
    requires
        all_of_size(tried, size),
    ensures
        all_of_size(kept_of(entries, inputs, tried, foreign), size),
    decreases tried.len(),
{
    if tried.len() > 0 {
        let front = tried.drop_last();
        assert forall|i: int| 0 <= i < front.len() implies nodes(#[trigger] front[i]) == size by {
            assert(front[i] == tried[i]);
        }
        lemma_kept_of_size(entries, inputs, front, foreign, size);
        let kept = kept_of(entries, inputs, front, foreign);
        let now = kept_of(entries, inputs, tried, foreign);
        assert(nodes(tried[tried.len() - 1]) == size);
        assert forall|i: int| 0 <= i < now.len() implies nodes(#[trigger] now[i]) == size by {
            if i < kept.len() {
                assert(now[i] == kept[i]);
            }
        }
    }
}

/// A round keeps the bank sorted by size: where each program of the two banks
/// stands in the bucket for its number of nodes, the same is true of the bank
/// after a round of enumeration.
pub proof fn lemma_round_keeps_sizes<E: ForeignEvaluator>(
    bank: Seq<Seq<AstV>>,
    regex_bank: Seq<Seq<AstV>>,
    entries: Seq<(Seq<LitV>, VsaV)>,
    inputs: Seq<LitV>,
    size: nat,
    enable_bools: bool,
    foreign: E,
)
    requires
        size >= 1,
        sized(bank),
        sized(regex_bank),
    ensures
        sized(grown(regex_bank, size)),
        sized(
            grown(bank, size).update(
                size - 1,
                grown(bank, size)[size - 1] + kept_of(
                    entries,
                    inputs,
                    candidates(grown(bank, size), grown(regex_bank, size), size as int, enable_bools),
                    foreign,
                ),
            ),
        ),
{
    let more = grown(bank, size);
    let more_regexes = grown(regex_bank, size);
    assert(sized(more)) by {
        assert forall|k: int, i: int| 0 <= k < more.len() && 0 <= i < more[k].len() implies nodes(
            #[trigger] more[k][i],
        ) == k + 1 by {
            if k < bank.len() {
                assert(more[k] == bank[k]);
                assert(nodes(bank[k][i]) == k + 1);
            }
        }
    }
    assert(sized(more_regexes)) by {
        assert forall|k: int, i: int|
            0 <= k < more_regexes.len() && 0 <= i < more_regexes[k].len() implies nodes(
            #[trigger] more_regexes[k][i],
        ) == k + 1 by {
            if k < regex_bank.len() {
                assert(more_regexes[k] == regex_bank[k]);
                assert(nodes(regex_bank[k][i]) == k + 1);
            }
        }
    }
    let tried = candidates(more, more_regexes, size as int, enable_bools);
    lemma_candidates_of_size(more, more_regexes, size as int, enable_bools);
    lemma_kept_of_size(entries, inputs, tried, foreign, size as int);
    let kept = kept_of(entries, inputs, tried, foreign);
    let after = more.update(size - 1, more[size - 1] + kept);
    assert forall|k: int, i: int| 0 <= k < after.len() && 0 <= i < after[k].len() implies nodes(
        #[trigger] after[k][i],
    ) == k + 1 by {
        if k == size - 1 {
            if i < more[k].len() {
                assert(after[k][i] == more[k][i]);
                assert(nodes(more[k][i]) == k + 1);
            } else {
                assert(after[k][i] == kept[i - more[k].len()]);
            }
        } else {
            assert(after[k] == more[k]);
            assert(nodes(more[k][i]) == k + 1);
        }
    }
}

} // verus!
