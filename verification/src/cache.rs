use std::rc::Rc;
use vstd::prelude::*;
use crate::ast::AstV;
use crate::ast::AST;
use crate::lit::lit_views;
use crate::lit::Lit;
use crate::lit::LitV;
use crate::vsa::share;
use crate::vsa::unified;
use crate::vsa::VsaV;
use crate::vsa::VSA;

verus! {

/// Whether `at` is the first place of an entry with the key; the number of
/// entries where no entry has it.
pub open spec fn first_place<K, V>(entries: Seq<(K, V)>, key: K, at: int) -> bool {
    &&& 0 <= at <= entries.len()
    &&& at < entries.len() ==> entries[at].0 == key
    &&& forall|j: int| 0 <= j < at ==> (#[trigger] entries[j]).0 != key
}

/// The first place of an entry with the key; the number of entries where no
/// entry has it.
pub open spec fn place_of<K, V>(entries: Seq<(K, V)>, key: K) -> int {
    choose|at: int| first_place(entries, key, at)
}

/// A place that is the first of the key is the place of the key.
pub proof fn lemma_place_of<K, V>(entries: Seq<(K, V)>, key: K, at: int)
    requires
        first_place(entries, key, at),
    ensures
        place_of(entries, key) == at,
{
    let chosen = place_of(entries, key);
    assert(first_place(entries, key, chosen));
    if chosen < at {
        assert(entries[chosen].0 != key);
    } else if at < chosen {
        assert(entries[at].0 != key);
    }
}

/// Whether no two entries have the same key.
pub open spec fn distinct_keys<K, V>(entries: Seq<(K, V)>) -> bool {
    forall|i: int, j: int|
        0 <= i < j < entries.len() ==> (#[trigger] entries[i]).0 != (#[trigger] entries[j]).0
}

/// Replacing the value of an entry keeps the keys apart.
pub proof fn lemma_update_keeps_keys<K, V>(entries: Seq<(K, V)>, at: int, value: V)
    requires
        distinct_keys(entries),
        0 <= at < entries.len(),
    ensures
        distinct_keys(entries.update(at, (entries[at].0, value))),
{
    let after = entries.update(at, (entries[at].0, value));
    assert forall|i: int, j: int| 0 <= i < j < after.len() implies (#[trigger] after[i]).0 != (
    #[trigger] after[j]).0 by {
        assert(entries[i].0 != entries[j].0);
    }
}

/// Adding an entry for a key that no entry has keeps the keys apart.
pub proof fn lemma_push_keeps_keys<K, V>(entries: Seq<(K, V)>, key: K, value: V)
    requires
        distinct_keys(entries),
        first_place(entries, key, entries.len() as int),
    ensures
        distinct_keys(entries.push((key, value))),
{
    let after = entries.push((key, value));
    assert forall|i: int, j: int| 0 <= i < j < after.len() implies (#[trigger] after[i]).0 != (
    #[trigger] after[j]).0 by {
        if j < entries.len() {
            assert(entries[i].0 != entries[j].0);
        } else {
            assert(entries[i].0 != key);
        }
    }
}

/// The entries after the program was met with the outputs: the space stored for
/// these outputs takes the program in; where there is none, the space of the
/// one program is stored for them.
pub open spec fn absorbed(entries: Seq<(Seq<LitV>, VsaV)>, outs: Seq<LitV>, p: AstV) -> Seq<
    (Seq<LitV>, VsaV),
> {
    let at = place_of(entries, outs);
    if at < entries.len() {
        entries.update(at, (outs, unified(entries[at].1, VsaV::Leaf(seq![p]))))
    } else {
        entries.push((outs, VsaV::Leaf(seq![p])))
    }
}

/// Whether the outputs are new to the entries.
pub open spec fn is_new(entries: Seq<(Seq<LitV>, VsaV)>, outs: Seq<LitV>) -> bool {
    place_of(entries, outs) >= entries.len()
}

/// The entries after the space was stored for the key, in place of an older
/// space for it where there was one.
pub open spec fn stored<K>(entries: Seq<(K, VsaV)>, key: K, space: VsaV) -> Seq<(K, VsaV)> {
    let at = place_of(entries, key);
    if at < entries.len() {
        entries.update(at, (key, space))
    } else {
        entries.push((key, space))
    }
}

/// The entries after the space was stored for the goal; where an older space
/// was stored for it, the union of the new space and the older one takes its
/// place.
pub open spec fn merged(entries: Seq<(LitV, VsaV)>, goal: LitV, space: VsaV) -> Seq<(LitV, VsaV)> {
    let at = place_of(entries, goal);
    if at < entries.len() {
        entries.update(at, (goal, unified(space, entries[at].1)))
    } else {
        entries.push((goal, space))
    }
}

/// The spaces found so far, each stored for the outputs that its programs give
/// on the inputs, one output for each input.
pub struct OutputCache {
    keys: Vec<Vec<Lit>>,
    spaces: Vec<Rc<VSA>>,
}

/// Whether two sequences of literals are the same.
pub fn same_lits(a: &Vec<Lit>, b: &Vec<Lit>) -> (yes: bool)
    ensures
        yes == (lit_views(a@) == lit_views(b@)),
{
    if a.len() != b.len() {
        assert(lit_views(a@).len() != lit_views(b@).len());
        return false;
    }
    let mut i: usize = 0;
    while i < a.len()
        invariant
            i <= a.len(),
            a.len() == b.len(),
            forall|k: int| 0 <= k < i ==> (#[trigger] a@[k])@ == b@[k]@,
        decreases a.len() - i,
    {
        if a[i] != b[i] {
            assert(lit_views(a@)[i as int] != lit_views(b@)[i as int]);
            return false;
        }
        i += 1;
    }
    assert(lit_views(a@) =~= lit_views(b@));
    true
}

impl OutputCache {
    /// The entries in the order in which their outputs were first met.
    pub closed spec fn entries(&self) -> Seq<(Seq<LitV>, VsaV)> {
        Seq::new(self.keys@.len(), |i: int| (lit_views(self.keys@[i]@), self.spaces@[i]@))
    }

    /// Whether the cache is built as it should be: no outputs are stored twice.
    pub closed spec fn wf(&self) -> bool {
        &&& self.keys@.len() == self.spaces@.len()
        &&& distinct_keys(self.entries())
    }

    /// In a cache that is built as it should be no two entries are for the same
    /// outputs.
    pub proof fn lemma_distinct(&self)
        requires
            self.wf(),
        ensures
            distinct_keys(self.entries()),
    {
    }

    /// A cache without entries.
    pub fn new() -> (out: OutputCache)
        ensures
            out.wf(),
            out.entries() == Seq::<(Seq<LitV>, VsaV)>::empty(),
    {
        let out = OutputCache { keys: Vec::new(), spaces: Vec::new() };
        assert(out.entries() =~= Seq::empty());
        out
    }

    /// The number of entries.
    pub fn len(&self) -> (n: usize)
        ensures
            n == self.entries().len(),
    {
        self.keys.len()
    }

    /// The outputs of the entry at the place.
    pub fn outputs(&self, at: usize) -> (out: &Vec<Lit>)
        requires
            self.wf(),
            at < self.entries().len(),
        ensures
            lit_views(out@) == self.entries()[at as int].0,
    {
        &self.keys[at]
    }

    /// The space of the entry at the place.
    pub fn space(&self, at: usize) -> (out: &Rc<VSA>)
        requires
            self.wf(),
            at < self.entries().len(),
        ensures
            out@ == self.entries()[at as int].1,
    {
        &self.spaces[at]
    }

    /// The place of the entry for the outputs; the number of entries where there
    /// is none.
    pub fn place(&self, outs: &Vec<Lit>) -> (at: usize)
        requires
            self.wf(),
        ensures
            at as int == place_of(self.entries(), lit_views(outs@)),
            first_place(self.entries(), lit_views(outs@), at as int),
    {
        let mut i: usize = 0;
        while i < self.keys.len()
            invariant
                i <= self.keys.len(),
                self.wf(),
                forall|j: int| 0 <= j < i ==> (#[trigger] self.entries()[j]).0 != lit_views(outs@),
            decreases self.keys.len() - i,
        {
            if same_lits(&self.keys[i], outs) {
                proof {
                    assert(self.entries()[i as int].0 == lit_views(outs@));
                    lemma_place_of(self.entries(), lit_views(outs@), i as int);
                }
                return i;
            }
            assert(self.entries()[i as int].0 != lit_views(outs@));
            i += 1;
        }
        proof {
            lemma_place_of(self.entries(), lit_views(outs@), i as int);
        }
        i
    }

    /// Stores the space for the outputs, in place of an older space for them
    /// where there is one.
    pub fn insert(&mut self, outs: Vec<Lit>, space: Rc<VSA>)
        requires
            old(self).wf(),
        ensures
            final(self).wf(),
            final(self).entries() == stored(old(self).entries(), lit_views(outs@), space@),
    {
        let ghost before = self.entries();
        let at = self.place(&outs);
        if at < self.spaces.len() {
            self.spaces[at] = space;
            proof {
                assert(self.entries() =~= before.update(at as int, (lit_views(outs@), space@)));
                lemma_update_keeps_keys(before, at as int, space@);
            }
        } else {
            self.keys.push(outs);
            self.spaces.push(space);
            proof {
                assert(self.entries() =~= before.push((lit_views(outs@), space@)));
                lemma_push_keeps_keys(before, lit_views(outs@), space@);
            }
        }
    }

    /// Takes in a program that gives the outputs: the space stored for them
    /// grows by it, and `false` is returned; where there is none, the space of
    /// this program is stored for them, and `true` is returned.
    pub fn absorb(&mut self, outs: Vec<Lit>, program: AST) -> (fresh: bool)
        requires
            old(self).wf(),
        ensures
            final(self).wf(),
            final(self).entries() == absorbed(old(self).entries(), lit_views(outs@), program@),
            fresh == is_new(old(self).entries(), lit_views(outs@)),
    {
        let ghost before = self.entries();
        let at = self.place(&outs);
        let one = Rc::new(VSA::singleton(program));
        if at < self.spaces.len() {
            let grown = Rc::new(VSA::unify(share(&self.spaces[at]), one));
            self.spaces[at] = grown;
            proof {
                assert(self.entries() =~= before.update(
                    at as int,
                    (lit_views(outs@), unified(before[at as int].1, VsaV::Leaf(seq![program@]))),
                ));
                lemma_update_keeps_keys(
                    before,
                    at as int,
                    unified(before[at as int].1, VsaV::Leaf(seq![program@])),
                );
            }
            false
        } else {
            self.keys.push(outs);
            self.spaces.push(one);
            proof {
                assert(self.entries() =~= before.push((lit_views(outs@), VsaV::Leaf(seq![program@]))));
                lemma_push_keeps_keys(before, lit_views(outs@), VsaV::Leaf(seq![program@]));
            }
            true
        }
    }
}

/// The spaces known for single goals: what a learner may use for a goal
/// without working it out.
pub struct GoalCache {
    goals: Vec<Lit>,
    spaces: Vec<Rc<VSA>>,
}

impl GoalCache {
    /// The entries in the order in which their goals were first stored.
    pub closed spec fn entries(&self) -> Seq<(LitV, VsaV)> {
        Seq::new(self.goals@.len(), |i: int| (self.goals@[i]@, self.spaces@[i]@))
    }

    /// Whether the cache is built as it should be: no goal is stored twice.
    pub closed spec fn wf(&self) -> bool {
        &&& self.goals@.len() == self.spaces@.len()
        &&& distinct_keys(self.entries())
    }

    /// In a cache that is built as it should be no two entries are for the same
    /// goal.
    pub proof fn lemma_distinct(&self)
        requires
            self.wf(),
        ensures
            distinct_keys(self.entries()),
    {
    }

    /// A cache without entries.
    pub fn new() -> (out: GoalCache)
        ensures
            out.wf(),
            out.entries() == Seq::<(LitV, VsaV)>::empty(),
    {
        let out = GoalCache { goals: Vec::new(), spaces: Vec::new() };
        assert(out.entries() =~= Seq::empty());
        out
    }

    /// The number of entries.
    pub fn len(&self) -> (n: usize)
        ensures
            n == self.entries().len(),
    {
        self.goals.len()
    }

    /// The goal of the entry at the place.
    pub fn goal(&self, at: usize) -> (out: &Lit)
        requires
            self.wf(),
            at < self.entries().len(),
        ensures
            out@ == self.entries()[at as int].0,
    {
        &self.goals[at]
    }

    /// The space of the entry at the place.
    pub fn space(&self, at: usize) -> (out: &Rc<VSA>)
        requires
            self.wf(),
            at < self.entries().len(),
        ensures
            out@ == self.entries()[at as int].1,
    {
        &self.spaces[at]
    }

    /// The place of the entry for the goal; the number of entries where there is
    /// none.
    pub fn place(&self, goal: &Lit) -> (at: usize)
        requires
            self.wf(),
        ensures
            at as int == place_of(self.entries(), goal@),
            first_place(self.entries(), goal@, at as int),
    {
        let mut i: usize = 0;
        while i < self.goals.len()
            invariant
                i <= self.goals.len(),
                self.wf(),
                forall|j: int| 0 <= j < i ==> (#[trigger] self.entries()[j]).0 != goal@,
            decreases self.goals.len() - i,
        {
            if self.goals[i] == *goal {
                proof {
                    assert(self.entries()[i as int].0 == goal@);
                    lemma_place_of(self.entries(), goal@, i as int);
                }
                return i;
            }
            assert(self.entries()[i as int].0 != goal@);
            i += 1;
        }
        proof {
            lemma_place_of(self.entries(), goal@, i as int);
        }
        i
    }

    /// The space stored for the goal, where there is one.
    pub fn get(&self, goal: &Lit) -> (out: Option<Rc<VSA>>)
        requires
            self.wf(),
        ensures
            match out {
                Some(space) => place_of(self.entries(), goal@) < self.entries().len() && space@
                    == self.entries()[place_of(self.entries(), goal@)].1,
                None => place_of(self.entries(), goal@) >= self.entries().len(),
            },
    {
        let at = self.place(goal);
        if at < self.spaces.len() {
            Some(share(&self.spaces[at]))
        } else {
            None
        }
    }

    /// Stores the space for the goal, in place of an older space for it where
    /// there is one.
    pub fn insert(&mut self, goal: Lit, space: Rc<VSA>)
        requires
            old(self).wf(),
        ensures
            final(self).wf(),
            final(self).entries() == stored(old(self).entries(), goal@, space@),
    {
        let ghost before = self.entries();
        let at = self.place(&goal);
        if at < self.spaces.len() {
            self.spaces[at] = space;
            proof {
                assert(self.entries() =~= before.update(at as int, (goal@, space@)));
                lemma_update_keeps_keys(before, at as int, space@);
            }
        } else {
            self.goals.push(goal);
            self.spaces.push(space);
            proof {
                assert(self.entries() =~= before.push((goal@, space@)));
                lemma_push_keeps_keys(before, goal@, space@);
            }
        }
    }

    /// Stores the space for the goal; where an older space is stored for it, the
    /// union of the new space and the older one takes its place.
    pub fn merge(&mut self, goal: Lit, space: Rc<VSA>)
        requires
            old(self).wf(),
        ensures
            final(self).wf(),
            final(self).entries() == merged(old(self).entries(), goal@, space@),
    {
        let ghost before = self.entries();
        let at = self.place(&goal);
        if at < self.spaces.len() {
            let both = Rc::new(VSA::unify(space, share(&self.spaces[at])));
            self.spaces[at] = both;
            proof {
                assert(self.entries() =~= before.update(
                    at as int,
                    (goal@, unified(space@, before[at as int].1)),
                ));
                lemma_update_keeps_keys(before, at as int, unified(space@, before[at as int].1));
            }
        } else {
            self.goals.push(goal);
            self.spaces.push(space);
            proof {
                assert(self.entries() =~= before.push((goal@, space@)));
                lemma_push_keeps_keys(before, goal@, space@);
            }
        }
    }
}

} // verus!
