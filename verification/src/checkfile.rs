//! The integrity check's computation: given the bytes of one intermediate
//! file, decide whether its blocks stand in non-decreasing order. Reading
//! the directory and the files stays outside the library; the verdict on
//! the bytes is decided here.
use crate::order::{bytes_le, copy_range, lemma_adjacent_implies_lex_sorted, lex_le, lex_sorted};
use crate::BLOCK_SIZE;
use vstd::prelude::*;

verus! {

/// All `BLOCK_SIZE`-byte strides of `s`, in order, the trailing partial
/// stride included when the length is not block-aligned.
pub open spec fn chunks_of(s: Seq<u8>) -> Seq<Seq<u8>> {
    Seq::new(
        if s.len() % (BLOCK_SIZE as nat) == 0 {
            s.len() / (BLOCK_SIZE as nat)
        } else {
            s.len() / (BLOCK_SIZE as nat) + 1
        },
        |i: int|
            if (i + 1) * (BLOCK_SIZE as int) <= s.len() {
                s.subrange(i * (BLOCK_SIZE as int), (i + 1) * (BLOCK_SIZE as int))
            } else {
                s.subrange(i * (BLOCK_SIZE as int), s.len() as int)
            },
    )
}

/// Whether the file bytes `data` pass the integrity check: every block is
/// at least the one before it, the trailing partial block judged like any
/// other.
pub fn blocks_nondecreasing(data: &Vec<u8>) -> (r: bool)
    ensures
        r == lex_sorted(chunks_of(data@)),
{
    let len = data.len();
    let ghost n = chunks_of(data@).len() as int;
    if len == 0 {
        return true;
    }
    let first_end = if len < BLOCK_SIZE {
        len
    } else {
        BLOCK_SIZE
    };
    let mut prev = copy_range(data, 0, first_end);
    let mut pos = first_end;
    let ghost mut i: int = 1;
    proof {
        assert(n >= 1);
        assert(prev@ == chunks_of(data@)[0]);
        assert(pos < len ==> pos == i * (BLOCK_SIZE as int) && i < n) by (nonlinear_arith)
            requires
                BLOCK_SIZE == 4096,
                len == data@.len(),
                len > 0,
                pos == if len < BLOCK_SIZE {
                    len as int
                } else {
                    BLOCK_SIZE as int
                },
                i == 1,
                n == if len % BLOCK_SIZE == 0 {
                    (len / BLOCK_SIZE) as int
                } else {
                    (len / BLOCK_SIZE) as int + 1
                },
        ;
        assert(pos >= len ==> pos == len && i == n) by (nonlinear_arith)
            requires
                BLOCK_SIZE == 4096,
                len == data@.len(),
                len > 0,
                pos == if len < BLOCK_SIZE {
                    len as int
                } else {
                    BLOCK_SIZE as int
                },
                i == 1,
                n == if len % BLOCK_SIZE == 0 {
                    (len / BLOCK_SIZE) as int
                } else {
                    (len / BLOCK_SIZE) as int + 1
                },
        ;
    }
    while pos < len
        invariant
            len == data@.len(),
            len > 0,
            n == chunks_of(data@).len(),
            1 <= i <= n,
            pos <= len,
            pos < len ==> pos == i * (BLOCK_SIZE as int) && i < n,
            pos >= len ==> pos == len && i == n,
            prev@ == chunks_of(data@)[i - 1],
            forall|k: int| 0 <= k < i - 1 ==> lex_le(
                #[trigger] chunks_of(data@)[k],
                chunks_of(data@)[k + 1],
            ),
        decreases len - pos,
    {
        let end = if len - pos > BLOCK_SIZE {
            pos + BLOCK_SIZE
        } else {
            len
        };
        proof {
            assert((i + 1) * (BLOCK_SIZE as int) == i * (BLOCK_SIZE as int) + (BLOCK_SIZE as int))
                by (nonlinear_arith);
            assert(chunks_of(data@)[i as int] == data@.subrange(pos as int, end as int));
        }
        let cur = copy_range(data, pos, end);
        if !bytes_le(&prev, &cur) {
            proof {
                assert(!lex_sorted(chunks_of(data@))) by {
                    if lex_sorted(chunks_of(data@)) {
                        assert(lex_le(chunks_of(data@)[i - 1], chunks_of(data@)[i as int]));
                    }
                }
            }
            return false;
        }
        proof {
            assert(end < len ==> end == (i + 1) * (BLOCK_SIZE as int) && i + 1 < n)
                by (nonlinear_arith)
                requires
                    BLOCK_SIZE == 4096,
                    len > 0,
                    1 <= i < n,
                    pos == i * (BLOCK_SIZE as int),
                    pos < len,
                    end == if len - pos > BLOCK_SIZE {
                        pos + BLOCK_SIZE
                    } else {
                        len as int
                    },
                    n == if len % BLOCK_SIZE == 0 {
                        (len / BLOCK_SIZE) as int
                    } else {
                        (len / BLOCK_SIZE) as int + 1
                    },
            ;
            assert(end >= len ==> end == len && i + 1 == n) by (nonlinear_arith)
                requires
                    BLOCK_SIZE == 4096,
                    len > 0,
                    1 <= i < n,
                    pos == i * (BLOCK_SIZE as int),
                    pos < len,
                    end == if len - pos > BLOCK_SIZE {
                        pos + BLOCK_SIZE
                    } else {
                        len as int
                    },
                    n == if len % BLOCK_SIZE == 0 {
                        (len / BLOCK_SIZE) as int
                    } else {
                        (len / BLOCK_SIZE) as int + 1
                    },
            ;
        }
        prev = cur;
        pos = end;
        proof {
            i = i + 1;
        }
    }
    proof {
        lemma_adjacent_implies_lex_sorted(chunks_of(data@));
    }
    true
}

} // verus!
