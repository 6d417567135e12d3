//! The merge phase's state machine: a k-way merge of block-sorted streams.
//!
//! The merger holds one head block per still-active intermediate file and
//! hands blocks out in globally sorted order. The file reads themselves
//! happen outside the library; the driver feeds each block read into
//! `push_head` and takes the next output block from `pop_min`. Ghost state
//! records every block pushed and every block handed out, so the contracts
//! carry the merge's correctness: the output is sorted, and when the last
//! head is consumed it is exactly the multiset of blocks that were pushed.
use crate::error::SortError;
use crate::order::{
    bytes_le, copy_range, lemma_lex_le_reflexive, lemma_lex_le_total, lemma_lex_le_transitive,
    lemma_lex_sorted_unique, lex_le, lex_sorted,
};
use crate::BLOCK_SIZE;
use vstd::multiset::Multiset;
use vstd::prelude::*;
use vstd::seq_lib::group_to_multiset_ensures;

verus! {

broadcast use group_to_multiset_ensures;

/// One block in flight through the merge: the bytes read, tagged with the
/// index of the intermediate file they came from, so the merge knows which
/// stream to refill after this block is written out.
pub struct Block {
    pub file_idx: usize,
    pub block: Vec<u8>,
}

impl Block {
    /// The merge unit is always a whole block.
    pub open spec fn wf(self) -> bool {
        self.block@.len() == BLOCK_SIZE
    }

    /// The bytes by which the block compares; origin plays no part.
    pub open spec fn key(self) -> Seq<u8> {
        self.block@
    }

    /// Blocks order by their content alone, byte-wise lexicographically:
    /// two blocks with identical bytes are equal regardless of origin.
    pub fn le(&self, other: &Block) -> (r: bool)
        ensures
            r == lex_le(self.key(), other.key()),
    {
        bytes_le(&self.block, &other.block)
    }
}

/// The keys of a sequence of in-flight blocks.
pub open spec fn head_keys(s: Seq<Block>) -> Seq<Seq<u8>> {
    s.map_values(|b: Block| b.block@)
}

/// The k-way merge state. `heads` holds the current head block of each
/// still-active file, in no particular order; `last` a copy of the last
/// block handed out. `written` and `pushed` are ghost: the keys handed out
/// so far in order, and the multiset of all keys ever accepted.
pub struct Merger {
    pub heads: Vec<Block>,
    pub last: Option<Vec<u8>>,
    pub written: Ghost<Seq<Seq<u8>>>,
    pub pushed: Ghost<Multiset<Seq<u8>>>,
}

impl Merger {
    /// The k-way merge invariant: what was handed out is sorted and ends at
    /// `last`; every waiting head is at least `last`, so no block handed out
    /// later can undercut one already written; and the blocks handed out
    /// plus the blocks still waiting are exactly the blocks accepted.
    pub open spec fn wf(self) -> bool {
        &&& lex_sorted(self.written@)
        &&& match self.last {
            Option::None => self.written@.len() == 0,
            Option::Some(l) => self.written@.len() > 0 && l@ == self.written@.last(),
        }
        &&& forall|i: int| 0 <= i < self.heads@.len() ==> (#[trigger] self.heads@[i]).wf()
        &&& forall|i: int|
            0 <= i < self.heads@.len() && self.written@.len() > 0 ==> lex_le(
                self.written@.last(),
                (#[trigger] self.heads@[i]).key(),
            )
        &&& self.written@.to_multiset().add(head_keys(self.heads@).to_multiset()) == self.pushed@
    }

    /// A block that may enter the merge without breaking sortedness: nothing
    /// has been written yet, or it is at least the last block written. The
    /// head of a sorted stream whose previous block was written always fits.
    pub open spec fn fits(self, k: Seq<u8>) -> bool {
        match self.last {
            Option::None => true,
            Option::Some(l) => lex_le(l@, k),
        }
    }

    /// An empty merge: no heads, nothing written, nothing accepted.
    pub fn new() -> (m: Merger)
        ensures
            m.wf(),
            m.heads@.len() == 0,
            m.last is None,
            m.written@ == Seq::<Seq<u8>>::empty(),
            m.pushed@ == Multiset::<Seq<u8>>::empty(),
    {
        let m = Merger {
            heads: Vec::new(),
            last: None,
            written: Ghost(Seq::empty()),
            pushed: Ghost(Multiset::empty()),
        };
        proof {
            assert(head_keys(m.heads@) =~= Seq::<Seq<u8>>::empty());
            assert(head_keys(m.heads@).to_multiset() =~= Multiset::<Seq<u8>>::empty());
            assert(m.written@.to_multiset().add(head_keys(m.heads@).to_multiset())
                =~= Multiset::<Seq<u8>>::empty());
        }
        m
    }

    /// Offers a block to the merge: the head just read from one file.
    /// Accepted exactly when it fits; a block below the last written block
    /// can only come from a stream that is not sorted, and is refused
    /// unchanged. A refill read from the file whose block was just handed
    /// out always fits when the file is block-sorted.
    pub fn push_head(&mut self, b: Block) -> (ok: bool)
        requires
            old(self).wf(),
            b.wf(),
        ensures
            final(self).wf(),
            ok == old(self).fits(b.key()),
            ok ==> final(self).heads@ == old(self).heads@.push(b),
            ok ==> final(self).pushed@ == old(self).pushed@.insert(b.key()),
            ok ==> final(self).written == old(self).written && final(self).last == old(self).last,
            !ok ==> *final(self) == *old(self),
    {
        let ok = match &self.last {
            None => true,
            Some(l) => bytes_le(l, &b.block),
        };
        if ok {
            let ghost bs = b;
            let ghost old_heads = self.heads@;
            self.pushed = Ghost(self.pushed@.insert(b.block@));
            self.heads.push(b);
            proof {
                assert(head_keys(self.heads@) =~= head_keys(old_heads).push(bs.block@));
                assert(head_keys(self.heads@).to_multiset() =~= head_keys(
                    old_heads,
                ).to_multiset().insert(bs.block@));
                assert(self.written@.to_multiset().add(head_keys(self.heads@).to_multiset())
                    =~= self.pushed@) by {
                    let w = self.written@.to_multiset();
                    let h = head_keys(old_heads).to_multiset();
                    assert forall|y: Seq<u8>|
                        w.add(h.insert(bs.block@)).count(y) == w.add(h).insert(bs.block@).count(
                            y,
                        ) by {}
                }
            }
        }
        ok
    }

    /// Takes the least waiting block out of the merge: the next block of the
    /// output. Returns `None` exactly when no head is waiting — the merge is
    /// complete. The block handed out is one of the waiting heads, no
    /// smaller than any of them and no smaller than the last block handed
    /// out; once removed, its file contributes nothing further until a new
    /// head is pushed for it.
    pub fn pop_min(&mut self) -> (r: Option<Block>)
        requires
            old(self).wf(),
        ensures
            final(self).wf(),
            final(self).pushed == old(self).pushed,
            (r is None) <==> old(self).heads@.len() == 0,
            r is None ==> *final(self) == *old(self),
            r matches Some(b) ==> {
                &&& b.wf()
                &&& old(self).fits(b.key())
                &&& exists|m: int|
                    0 <= m < old(self).heads@.len() && old(self).heads@[m] == b && final(self).heads@
                        == old(self).heads@.remove(m)
                &&& forall|i: int|
                    0 <= i < old(self).heads@.len() ==> lex_le(
                        b.key(),
                        (#[trigger] old(self).heads@[i]).key(),
                    )
                &&& final(self).written@ == old(self).written@.push(b.key())
                &&& final(self).last matches Some(l) && l@ == b.key()
            },
    {
        if self.heads.len() == 0 {
            return None;
        }
        let mut m: usize = 0;
        let mut j: usize = 1;
        proof {
            lemma_lex_le_reflexive(self.heads@[0].block@);
        }
        while j < self.heads.len()
            invariant
                0 <= m < j <= self.heads@.len(),
                forall|k: int|
                    0 <= k < j ==> lex_le(
                        self.heads@[m as int].key(),
                        (#[trigger] self.heads@[k]).key(),
                    ),
            decreases self.heads@.len() - j,
        {
            if bytes_le(&self.heads[j].block, &self.heads[m].block) {
                proof {
                    lemma_lex_le_reflexive(self.heads@[j as int].block@);
                    assert forall|k: int| 0 <= k < j implies lex_le(
                        self.heads@[j as int].key(),
                        (#[trigger] self.heads@[k]).key(),
                    ) by {
                        lemma_lex_le_transitive(
                            self.heads@[j as int].block@,
                            self.heads@[m as int].block@,
                            self.heads@[k].block@,
                        );
                    }
                }
                m = j;
            } else {
                proof {
                    lemma_lex_le_total(self.heads@[j as int].block@, self.heads@[m as int].block@);
                }
            }
            j += 1;
        }
        let ghost old_self = *self;
        let b = self.heads.remove(m);
        let ghost bk = b.block@;
        let blen = b.block.len();
        let lastcopy = copy_range(&b.block, 0, blen);
        proof {
            assert(lastcopy@ =~= bk);
        }
        self.last = Some(lastcopy);
        self.written = Ghost(self.written@.push(bk));
        proof {
            let ow = old_self.written@;
            let oh = old_self.heads@;
            // The popped block follows everything already written.
            if ow.len() > 0 {
                assert(lex_le(ow.last(), bk));
                assert forall|i: int| 0 <= i < self.written@.len() - 1 implies lex_le(
                    #[trigger] self.written@[i],
                    bk,
                ) by {
                    if i < ow.len() - 1 {
                        assert(lex_le(ow[i], ow.last()));
                        lemma_lex_le_transitive(ow[i], ow.last(), bk);
                    }
                }
            }
            assert(lex_sorted(self.written@)) by {
                assert forall|i: int, j2: int|
                    0 <= i < j2 < self.written@.len() implies lex_le(
                    #[trigger] self.written@[i],
                    #[trigger] self.written@[j2],
                ) by {
                    if j2 < ow.len() {
                        assert(lex_le(ow[i], ow[j2]));
                    }
                }
            }
            // Remaining heads still follow the (new) last written block.
            assert forall|i: int|
                0 <= i < self.heads@.len() && self.written@.len() > 0 implies lex_le(
                self.written@.last(),
                (#[trigger] self.heads@[i]).key(),
            ) by {
                let src = if i < m { i } else { i + 1 };
                assert(self.heads@[i] == oh[src]);
                assert(lex_le(bk, oh[src].key()));
            }
            // Conservation: written gains the key that heads lose.
            assert(head_keys(oh.remove(m as int)) =~= head_keys(oh).remove(m as int));
            assert(head_keys(self.heads@).to_multiset() =~= head_keys(oh).to_multiset().remove(
                bk,
            )) by {
                assert(head_keys(oh)[m as int] == bk);
            }
            assert(self.written@.to_multiset() =~= ow.to_multiset().insert(bk));
            assert(self.written@.to_multiset().add(head_keys(self.heads@).to_multiset())
                =~= self.pushed@) by {
                let w = ow.to_multiset();
                let h = head_keys(oh).to_multiset();
                assert(h.count(bk) > 0) by {
                    assert(head_keys(oh)[m as int] == bk);
                }
                assert forall|y: Seq<u8>|
                    w.insert(bk).add(h.remove(bk)).count(y) == w.add(h).count(y) by {}
            }
            assert(final(self).heads@ == old(self).heads@.remove(m as int));
        }
        Some(b)
    }
}

/// A completed merge hands out exactly what it accepted: when no head is
/// waiting, the output is sorted and holds precisely the multiset of blocks
/// pushed — the same blocks, and as many bytes as came in.
pub proof fn lemma_merge_complete(m: Merger)
    requires
        m.wf(),
        m.heads@.len() == 0,
    ensures
        lex_sorted(m.written@),
        m.written@.to_multiset() == m.pushed@,
        m.written@.len() == m.pushed@.len(),
{
    assert(head_keys(m.heads@) =~= Seq::<Seq<u8>>::empty());
    assert(head_keys(m.heads@).to_multiset() =~= Multiset::<Seq<u8>>::empty());
    assert(m.written@.to_multiset().add(head_keys(m.heads@).to_multiset()) =~= m.written@.to_multiset());
}

/// A complete merge is determined by the blocks pushed, however the pushes
/// and pops interleaved: two complete merges of the same multiset of blocks
/// hand out identical output.
pub proof fn lemma_merge_deterministic(m1: Merger, m2: Merger)
    requires
        m1.wf(),
        m2.wf(),
        m1.heads@.len() == 0,
        m2.heads@.len() == 0,
        m1.pushed@ == m2.pushed@,
    ensures
        m1.written@ == m2.written@,
{
    lemma_merge_complete(m1);
    lemma_merge_complete(m2);
    lemma_lex_sorted_unique(m1.written@, m2.written@);
}

/// What a refill read may legally return.
#[derive(Clone, Copy, Debug, PartialEq, Eq, Structural)]
pub enum ReadStatus {
    /// A whole block: it goes back into the merge.
    Full,
    /// Zero bytes: the file is exhausted and leaves the working set.
    Eof,
}

/// Judges the very first read from an intermediate file, which must return
/// a whole block: a fully written intermediate file holds at least one
/// block, and a shorter first read marks a short or corrupt file.
pub fn check_initial_read(n: usize) -> (r: Result<(), SortError>)
    ensures
        r is Ok <==> n == BLOCK_SIZE,
        n != BLOCK_SIZE ==> r == Result::<(), SortError>::Err(
            SortError::UnexpectedEof { expected: BLOCK_SIZE, got: n },
        ),
{
    if n == BLOCK_SIZE {
        Ok(())
    } else {
        Err(SortError::UnexpectedEof { expected: BLOCK_SIZE, got: n })
    }
}

/// Judges a mid-merge refill read of `n` bytes: a whole block continues the
/// stream, zero bytes is a clean end of file, and anything in between
/// breaks the block alignment a well-formed intermediate file guarantees.
pub fn classify_refill_read(n: usize) -> (r: Result<ReadStatus, SortError>)
    requires
        n <= BLOCK_SIZE,
    ensures
        n == BLOCK_SIZE ==> r == Result::<ReadStatus, SortError>::Ok(ReadStatus::Full),
        n == 0 ==> r == Result::<ReadStatus, SortError>::Ok(ReadStatus::Eof),
        0 < n < BLOCK_SIZE ==> r == Result::<ReadStatus, SortError>::Err(
            SortError::UnexpectedEof { expected: BLOCK_SIZE, got: n },
        ),
{
    if n == BLOCK_SIZE {
        Ok(ReadStatus::Full)
    } else if n == 0 {
        Ok(ReadStatus::Eof)
    } else {
        Err(SortError::UnexpectedEof { expected: BLOCK_SIZE, got: n })
    }
}

} // verus!
