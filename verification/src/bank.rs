use vstd::prelude::*;
use crate::ast::ast_views;
use crate::ast::nodes;
use crate::ast::AstV;
use crate::ast::AST;

verus! {

/// The programs found so far, kept by their number of nodes in the order in
/// which they were found.
#[derive(Debug)]
pub struct Bank {
    pub entries: Vec<Vec<AST>>,
}

/// The views of the buckets of a bank: the bucket for size `k` stands at `k - 1`.
pub open spec fn bucket_views(entries: Seq<Vec<AST>>) -> Seq<Seq<AstV>> {
    Seq::new(entries.len(), |k: int| ast_views(entries[k]@))
}

/// The programs of the bucket for the size; none where the bank has no such
/// bucket.
pub open spec fn bucket(buckets: Seq<Seq<AstV>>, size: int) -> Seq<AstV> {
    if 1 <= size <= buckets.len() {
        buckets[size - 1]
    } else {
        Seq::empty()
    }
}

/// Whether every program stands in the bucket for its number of nodes.
pub open spec fn sized(buckets: Seq<Seq<AstV>>) -> bool {
    forall|k: int, i: int|
        0 <= k < buckets.len() && 0 <= i < buckets[k].len() ==> nodes(
            #[trigger] buckets[k][i],
        ) == k + 1
}

impl View for Bank {
    type V = Seq<Seq<AstV>>;

    open spec fn view(&self) -> Seq<Seq<AstV>> {
        bucket_views(self.entries@)
    }
}

impl Bank {
    /// A bank without buckets.
    pub fn new() -> (out: Bank)
        ensures
            out@ == Seq::<Seq<AstV>>::empty(),
    {
        let out = Bank { entries: Vec::new() };
        assert(out@ =~= Seq::empty());
        out
    }

    /// The number of buckets: the largest size for which there is one.
    pub fn len(&self) -> (n: usize)
        ensures
            n == self@.len(),
    {
        self.entries.len()
    }

    /// Adds empty buckets until there is one for each size up to `size`. A bank
    /// that has them already is left as it is.
    pub fn grow_to(&mut self, size: usize)
        ensures
            final(self)@.len() == if size >= old(self)@.len() {
                size as nat
            } else {
                old(self)@.len()
            },
            forall|k: int| 0 <= k < old(self)@.len() ==> final(self)@[k] == old(self)@[k],
            forall|k: int|
                old(self)@.len() <= k < final(self)@.len() ==> final(self)@[k] == Seq::<
                    AstV,
                >::empty(),
    {
        while self.entries.len() < size
            invariant
                self@.len() >= old(self)@.len(),
                self@.len() <= size || self@.len() == old(self)@.len(),
                forall|k: int| 0 <= k < old(self)@.len() ==> self@[k] == old(self)@[k],
                forall|k: int|
                    old(self)@.len() <= k < self@.len() ==> self@[k] == Seq::<AstV>::empty(),
            decreases size - self.entries.len(),
        {
            let ghost before = self@;
            self.entries.push(Vec::new());
            proof {
                assert forall|k: int| 0 <= k < before.len() implies #[trigger] self@[k]
                    == before[k] by {}
                assert(self@[before.len() as int] =~= Seq::<AstV>::empty());
                assert forall|k: int| old(self)@.len() <= k < self@.len() implies #[trigger] self@[k]
                    == Seq::<AstV>::empty() by {
                    if k < before.len() {
                        assert(self@[k] == before[k]);
                    }
                }
            }
        }
    }

    /// The programs of the given size, in the order in which they were found.
    pub fn size(&self, size: usize) -> (out: &Vec<AST>)
        requires
            1 <= size <= self@.len(),
        ensures
            ast_views(out@) == bucket(self@, size as int),
    {
        &self.entries[size - 1]
    }

    /// The bucket for the given size, to add programs to.
    pub fn size_mut(&mut self, size: usize) -> (out: &mut Vec<AST>)
        requires
            1 <= size <= old(self)@.len(),
        ensures
            ast_views(out@) == old(self)@[size - 1],
            final(self)@ == old(self)@.update(size - 1, ast_views(final(out)@)),
    {
        &mut self.entries[size - 1]
    }

    /// Adds a program to the bucket for the given size.
    pub fn push(&mut self, size: usize, program: AST)
        requires
            1 <= size <= old(self)@.len(),
        ensures
            final(self)@ == old(self)@.update(
                size - 1,
                old(self)@[size - 1].push(program@),
            ),
    {
        let ghost before = self@;
        let mut taken: Vec<AST> = Vec::new();
        std::mem::swap(&mut taken, &mut self.entries[size - 1]);
        taken.push(program);
        self.entries[size - 1] = taken;
        proof {
            assert(self@ =~= before.update(size - 1, before[size - 1].push(program@))) by {
                assert forall|k: int| 0 <= k < before.len() implies self@[k] == before.update(
                    size - 1,
                    before[size - 1].push(program@),
                )[k] by {
                    if k == size - 1 {
                        assert(self@[k] =~= before[size - 1].push(program@));
                    } else {
                        assert(self@[k] == before[k]);
                    }
                }
            }
        }
    }

    /// The number of programs in all buckets together; the largest `usize`
    /// where that cannot hold it.
    pub fn total_entries(&self) -> (n: usize)
        ensures
            n == crate::lit::clipped(total_len(self@)),
    {
        let mut total: usize = 0;
        let mut k: usize = 0;
        proof {
            assert(self@.take(0) =~= Seq::empty());
        }
        while k < self.entries.len()
            invariant
                k <= self.entries.len(),
                total == crate::lit::clipped(total_len(self@.take(k as int))),
            decreases self.entries.len() - k,
        {
            proof {
                assert(self@.take(k + 1).drop_last() =~= self@.take(k as int));
                assert(self@.take(k + 1).last() == self@[k as int]);
            }
            total = total.saturating_add(self.entries[k].len());
            k += 1;
        }
        proof {
            assert(self@.take(k as int) =~= self@);
        }
        total
    }
}

/// The number of programs in the buckets together.
pub open spec fn total_len(buckets: Seq<Seq<AstV>>) -> nat
    decreases buckets.len(),
{
    if buckets.len() == 0 {
        0
    } else {
        total_len(buckets.drop_last()) + buckets.last().len()
    }
}

} // verus!
