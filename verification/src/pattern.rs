use vstd::prelude::*;
use crate::text::cuts_cleanly;

verus! {

/// `regex::Regex`, a compiled regular expression: carried through, never looked
/// into.
#[verifier::external_type_specification]
#[verifier::external_body]
pub struct ExRegex(regex::Regex);

/// `lru::DefaultHasher`, the hasher that an `LruCache` uses where none is named.
#[verifier::external_type_specification]
#[verifier::external_body]
pub struct ExDefaultHasher(lru::DefaultHasher);

/// `lru::LruCache`, a map of bounded size that drops the entry used longest ago.
#[verifier::external_type_specification]
#[verifier::external_body]
#[verifier::reject_recursive_types(K)]
#[verifier::reject_recursive_types(V)]
#[verifier::reject_recursive_types(S)]
pub struct ExLruCache<K, V, S>(lru::LruCache<K, V, S>);

/// Whether `regex::Regex::new` accepts the pattern.
pub uninterp spec fn regex_compiles(source: Seq<char>) -> bool;

/// The byte ranges of the successive matches that `Regex::find_iter` yields in
/// `hay` for the regular expression that `Regex::new` builds from `source`.
pub uninterp spec fn regex_spans(source: Seq<char>, hay: Seq<char>) -> Seq<(usize, usize)>;

/// What an `LruCache` of patterns holds, the entry used last coming first: each
/// key with the source of the pattern stored under it.
pub uninterp spec fn lru_entries(cache: lru::LruCache<String, Pattern>) -> Seq<
    (Seq<char>, Seq<char>),
>;

/// The number of entries that an `LruCache` was made to hold at most.
pub uninterp spec fn lru_limit(cache: lru::LruCache<String, Pattern>) -> nat;

/// A compiled regular expression together with the text it was compiled from.
/// Values are made by compiling only, so the two always belong together.
pub struct Pattern {
    source: String,
    automaton: regex::Regex,
}

impl Pattern {
    /// The text that the pattern was compiled from.
    pub closed spec fn source(&self) -> Seq<char> {
        self.source@
    }

    /// The text that the pattern was compiled from.
    pub fn as_str(&self) -> (out: &str)
        ensures
            out@ == self.source(),
    {
        self.source.as_str()
    }
}

/// The pattern that stands in for a text that does not compile: any one character.
pub open spec fn any_character() -> Seq<char> {
    seq!['.']
}

/// The pattern that is used when `text` is asked for.
pub open spec fn effective_source(text: Seq<char>) -> Seq<char> {
    if regex_compiles(text) {
        text
    } else {
        any_character()
    }
}

/// The matches of the pattern used for `text` in `hay`.
pub open spec fn matches_of(text: Seq<char>, hay: Seq<char>) -> Seq<(usize, usize)> {
    regex_spans(effective_source(text), hay)
}

/// Whether some entry has the key.
pub open spec fn holds_key(entries: Seq<(Seq<char>, Seq<char>)>, key: Seq<char>) -> bool {
    exists|i: int| 0 <= i < entries.len() && (#[trigger] entries[i]).0 == key
}

/// The place of an entry with the key, where there is one.
pub open spec fn index_of_key(entries: Seq<(Seq<char>, Seq<char>)>, key: Seq<char>) -> int {
    choose|i: int| 0 <= i < entries.len() && (#[trigger] entries[i]).0 == key
}

/// The entries after the entry with `key` was used.
pub open spec fn after_use(entries: Seq<(Seq<char>, Seq<char>)>, key: Seq<char>) -> Seq<
    (Seq<char>, Seq<char>),
> {
    if holds_key(entries, key) {
        let at = index_of_key(entries, key);
        seq![entries[at]] + entries.remove(at)
    } else {
        entries
    }
}

/// The entries after `key` was stored with `value` in a cache of at most `limit`
/// entries: the new entry comes first; an older entry with that key is replaced;
/// otherwise a full cache loses the entry used longest ago.
pub open spec fn after_store(
    entries: Seq<(Seq<char>, Seq<char>)>,
    limit: nat,
    key: Seq<char>,
    value: Seq<char>,
) -> Seq<(Seq<char>, Seq<char>)> {
    if holds_key(entries, key) {
        seq![(key, value)] + entries.remove(index_of_key(entries, key))
    } else if entries.len() >= limit && entries.len() > 0 {
        seq![(key, value)] + entries.drop_last()
    } else {
        seq![(key, value)] + entries
    }
}

/// `Regex::new`: a pattern for `source` where the crate accepts it, else `None`.
/// Whether it does depends on `source` alone, and it accepts the pattern of one
/// dot.
#[verifier::external_body]
fn compile(source: &str) -> (out: Option<Pattern>)
    ensures
        (out is Some) == regex_compiles(source@),
        out matches Some(p) ==> p.source() == source@,
        source@ == any_character() ==> out is Some,
{
    match regex::Regex::new(source) {
        Ok(automaton) => Some(Pattern { source: source.to_owned(), automaton }),
        Err(_) => None,
    }
}

/// `Regex::clone`: the copy is a pattern for the same text.
#[verifier::external_body]
fn duplicate(pattern: &Pattern) -> (out: Pattern)
    ensures
        out.source() == pattern.source(),
{
    Pattern { source: pattern.source.clone(), automaton: pattern.automaton.clone() }
}

/// `Regex::find_iter`, with `Match::start` and `Match::end` of each match: the
/// byte ranges of the successive matches in `hay`. They depend on the pattern's
/// text and on `hay` alone, and each begins and ends between two characters of
/// `hay`.
#[verifier::external_body]
pub(crate) fn spans(pattern: &Pattern, hay: &str) -> (out: Vec<(usize, usize)>)
    ensures
        out@ == regex_spans(pattern.source(), hay@),
        forall|i: int|
            0 <= i < out@.len() ==> cuts_cleanly(
                hay@,
                (#[trigger] out@[i]).0 as int,
                out@[i].1 as int,
            ),
{
    pattern.automaton.find_iter(hay).map(|m| (m.start(), m.end())).collect()
}

/// `LruCache::new`: an empty cache that holds at most `limit` entries.
#[verifier::external_body]
fn lru_new(limit: usize) -> (out: lru::LruCache<String, Pattern>)
    requires
        limit > 0,
    ensures
        lru_entries(out) == Seq::<(Seq<char>, Seq<char>)>::empty(),
        lru_limit(out) == limit as nat,
{
    lru::LruCache::new(std::num::NonZeroUsize::new(limit).unwrap())
}

/// `LruCache::contains`: whether an entry has the key. The cache is not changed.
#[verifier::external_body]
fn lru_contains(cache: &lru::LruCache<String, Pattern>, key: &String) -> (yes: bool)
    ensures
        yes == holds_key(lru_entries(*cache), key@),
{
    cache.contains(key)
}

/// `LruCache::get`: a copy of the pattern stored under the key, which then
/// counts as the entry used last; `None`, and no change, where no entry has the
/// key.
#[verifier::external_body]
fn lru_get(cache: &mut lru::LruCache<String, Pattern>, key: &String) -> (out: Option<Pattern>)
    ensures
        lru_limit(*final(cache)) == lru_limit(*old(cache)),
        lru_entries(*final(cache)) == after_use(lru_entries(*old(cache)), key@),
        (out is Some) == holds_key(lru_entries(*old(cache)), key@),
        out matches Some(p) ==> p.source() == lru_entries(*old(cache))[index_of_key(
            lru_entries(*old(cache)),
            key@,
        )].1,
{
    cache.get(key).map(duplicate)
}

/// `LruCache::push`: stores the pattern under the key as the entry used last. An
/// older entry with that key is replaced; otherwise a full cache drops the entry
/// used longest ago.
#[verifier::external_body]
fn lru_push(cache: &mut lru::LruCache<String, Pattern>, key: String, value: Pattern)
    ensures
        lru_limit(*final(cache)) == lru_limit(*old(cache)),
        lru_entries(*final(cache)) == after_store(
            lru_entries(*old(cache)),
            lru_limit(*old(cache)),
            key@,
            value.source(),
        ),
{
    let _ = cache.push(key, value);
}

/// A bounded store of compiled patterns, keyed by the text asked for. A text that
/// does not compile is stored with the pattern for any one character.
pub struct RegexCache {
    entries: lru::LruCache<String, Pattern>,
    fallback: Pattern,
}

/// The capacity of a cache made without stating one.
pub const DEFAULT_CAPACITY: usize = 2000;

impl RegexCache {
    /// The texts in the cache, the one asked for last coming first, each with the
    /// source of its pattern.
    pub closed spec fn entries(&self) -> Seq<(Seq<char>, Seq<char>)> {
        lru_entries(self.entries)
    }

    /// The number of entries that the cache holds at most.
    pub closed spec fn limit(&self) -> nat {
        lru_limit(self.entries)
    }

    /// Every text is stored once, with the pattern that is used for it, and the
    /// cache is within its limit.
    pub closed spec fn wf(&self) -> bool {
        &&& self.fallback.source() == any_character()
        &&& self.limit() > 0
        &&& entries_wf(self.entries(), self.limit())
    }

    /// An empty cache for at most `limit` patterns.
    pub fn new(limit: usize) -> (out: RegexCache)
        requires
            limit > 0,
        ensures
            out.wf(),
            out.limit() == limit as nat,
            out.entries().len() == 0,
    {
        proof {
            reveal_strlit(".");
            assert("."@ =~= any_character());
        }
        let fallback = compile(".");
        RegexCache { entries: lru_new(limit), fallback: fallback.unwrap() }
    }

    /// An empty cache of the default capacity.
    pub fn with_default_capacity() -> (out: RegexCache)
        ensures
            out.wf(),
            out.limit() == DEFAULT_CAPACITY as nat,
            out.entries().len() == 0,
    {
        RegexCache::new(DEFAULT_CAPACITY)
    }
}

/// What `wf` asks of the entries.
pub open spec fn entries_wf(entries: Seq<(Seq<char>, Seq<char>)>, limit: nat) -> bool {
    &&& entries.len() <= limit
    &&& forall|i: int|
        0 <= i < entries.len() ==> (#[trigger] entries[i]).1 == effective_source(entries[i].0)
    &&& forall|i: int, j: int|
        0 <= i < j < entries.len() ==> (#[trigger] entries[i]).0 != (#[trigger] entries[j]).0
}

/// The entries after `text` was asked for: its entry comes first, and is new
/// where the cache did not hold it.
pub open spec fn after_lookup(entries: Seq<(Seq<char>, Seq<char>)>, limit: nat, text: Seq<char>) -> Seq<
    (Seq<char>, Seq<char>),
> {
    if holds_key(entries, text) {
        after_use(entries, text)
    } else {
        after_store(entries, limit, text, effective_source(text))
    }
}

/// The compiled pattern for `text`, from the cache where it holds one, else
/// compiled now and stored. A text that is no regular expression gets the
/// pattern for any one character.
pub fn regex(cache: &mut RegexCache, text: &String) -> (out: Pattern)
    requires
        old(cache).wf(),
    ensures
        out.source() == effective_source(text@),
        final(cache).wf(),
        final(cache).limit() == old(cache).limit(),
        final(cache).entries() == after_lookup(old(cache).entries(), old(cache).limit(), text@),
{
    let ghost before = cache.entries();
    let ghost limit = cache.limit();
    if lru_contains(&cache.entries, text) {
        let found = lru_get(&mut cache.entries, text);
        proof {
            let at = index_of_key(before, text@);
            assert(cache.entries() == seq![before[at]] + before.remove(at));
            lemma_use_keeps_wf(before, limit, at);
        }
        found.unwrap()
    } else {
        let fresh = match compile(text.as_str()) {
            Some(p) => p,
            None => duplicate(&cache.fallback),
        };
        lru_push(&mut cache.entries, text.clone(), fresh);
        let ghost stored = cache.entries();
        proof {
            lemma_store_keeps_wf(before, limit, text@, effective_source(text@));
            assert(stored[0].0 == text@);
            assert(holds_key(stored, text@));
            let at = index_of_key(stored, text@);
            assert(at == 0) by {
                if at != 0 {
                    assert(stored[0].0 != stored[at].0);
                }
            }
            assert(seq![stored[0]] + stored.remove(0) =~= stored);
        }
        let found = lru_get(&mut cache.entries, text);
        found.unwrap()
    }
}

/// Using an entry keeps the entries well formed.
pub proof fn lemma_use_keeps_wf(entries: Seq<(Seq<char>, Seq<char>)>, limit: nat, at: int)
    requires
        entries_wf(entries, limit),
        0 <= at < entries.len(),
    ensures
        entries_wf(seq![entries[at]] + entries.remove(at), limit),
{
    let moved = seq![entries[at]] + entries.remove(at);
    assert forall|i: int, j: int| 0 <= i < j < moved.len() implies (#[trigger] moved[i]).0 != (
    #[trigger] moved[j]).0 by {
        let ki = if i == 0 { at } else if i <= at { i - 1 } else { i };
        let kj = if j <= at { j - 1 } else { j };
        assert(moved[i] == entries[ki]);
        assert(moved[j] == entries[kj]);
        assert(ki != kj);
        if ki < kj {
            assert(entries[ki].0 != entries[kj].0);
        } else {
            assert(entries[kj].0 != entries[ki].0);
        }
    }
    assert forall|i: int| 0 <= i < moved.len() implies (#[trigger] moved[i]).1 == effective_source(
        moved[i].0,
    ) by {
        let ki = if i == 0 { at } else if i <= at { i - 1 } else { i };
        assert(moved[i] == entries[ki]);
    }
}

/// Storing a text that the cache does not hold, with the pattern used for it,
/// keeps the entries well formed.
pub proof fn lemma_store_keeps_wf(
    entries: Seq<(Seq<char>, Seq<char>)>,
    limit: nat,
    key: Seq<char>,
    value: Seq<char>,
)
    requires
        entries_wf(entries, limit),
        limit > 0,
        !holds_key(entries, key),
        value == effective_source(key),
    ensures
        entries_wf(after_store(entries, limit, key, value), limit),
{
    let kept = if entries.len() >= limit && entries.len() > 0 {
        entries.drop_last()
    } else {
        entries
    };
    let stored = seq![(key, value)] + kept;
    assert(stored == after_store(entries, limit, key, value));
    assert forall|i: int| 0 < i < stored.len() implies stored[i] == entries[i - 1] by {
        assert(stored[i] == kept[i - 1]);
    }
    assert forall|i: int, j: int| 0 <= i < j < stored.len() implies (#[trigger] stored[i]).0 != (
    #[trigger] stored[j]).0 by {
        assert(stored[j] == entries[j - 1]);
        if i == 0 {
            assert(entries[j - 1].0 != key);
        } else {
            assert(stored[i] == entries[i - 1]);
            assert(entries[i - 1].0 != entries[j - 1].0);
        }
    }
    assert forall|i: int| 0 <= i < stored.len() implies (#[trigger] stored[i]).1
        == effective_source(stored[i].0) by {
        if i > 0 {
            assert(stored[i] == entries[i - 1]);
        }
    }
}

} // verus!
