//! The split phase's computation: partitioning a chunk buffer into whole
//! blocks, sorting the blocks, and concatenating them into the bytes of one
//! intermediate file. The surrounding file I/O (seek, read, write) and the
//! worker fan-out stay outside the library; every byte transformation is
//! here.
use crate::order::{
    bytes_le, copy_range, lemma_lex_le_reflexive, lemma_lex_le_total, lemma_lex_le_transitive,
    lemma_lex_sorted_unique, lex_le, lex_sorted,
};
use vstd::arithmetic::div_mod::lemma_fundamental_div_mod;
use crate::BLOCK_SIZE;
use vstd::prelude::*;
use vstd::multiset::Multiset;
use vstd::seq_lib::group_to_multiset_ensures;

verus! {

broadcast use group_to_multiset_ensures;

/// The whole `BLOCK_SIZE`-byte blocks at the front of `s`; trailing bytes
/// that do not fill a block are not represented.
pub open spec fn full_blocks(s: Seq<u8>) -> Seq<Seq<u8>> {
    Seq::new(
        s.len() / (BLOCK_SIZE as nat),
        |i: int| s.subrange(i * (BLOCK_SIZE as int), (i + 1) * (BLOCK_SIZE as int)),
    )
}

/// The byte sequences held by a sequence of byte vectors.
pub open spec fn keys_of(blocks: Seq<Vec<u8>>) -> Seq<Seq<u8>> {
    blocks.map_values(|b: Vec<u8>| b@)
}

/// How many intermediate chunk files a source of `source_size` bytes is
/// partitioned into: one per whole `chunk_size` bytes, trailing bytes beyond
/// the last whole chunk not counted.
pub fn num_chunks(source_size: u64, chunk_size: u64) -> (n: u64)
    requires
        chunk_size > 0,
    ensures
        n == source_size as int / chunk_size as int,
{
    source_size / chunk_size
}

/// The byte offset in the source file at which chunk `i` starts.
pub fn chunk_offset(i: u64, chunk_size: u64) -> (off: u64)
    requires
        i * chunk_size <= u64::MAX,
    ensures
        off == i * chunk_size,
{
    i * chunk_size
}

/// The decimal digits of `n`, most significant first, as ASCII bytes.
pub open spec fn dec_digits(n: nat) -> Seq<u8>
    decreases n,
{
    if n < 10 {
        seq![(48 + n) as u8]
    } else {
        dec_digits(n / 10).push((48 + n % 10) as u8)
    }
}

/// Writes `n` in decimal, most significant digit first.
pub fn u64_to_decimal(n: u64) -> (s: Vec<u8>)
    ensures
        s@ == dec_digits(n as nat),
{
    let mut x = n;
    let mut rev: Vec<u8> = Vec::new();
    while x >= 10
        invariant
            dec_digits(n as nat) == dec_digits(x as nat) + rev@.reverse(),
        decreases x,
    {
        let ghost old_rev = rev@;
        let d = (x % 10) as u8 + 48;
        rev.push(d);
        x = x / 10;
        proof {
            assert(rev@.reverse() =~= seq![d] + old_rev.reverse());
            assert(dec_digits((10 * (x as nat) + (d - 48) as nat) as nat) == dec_digits(
                x as nat,
            ).push(d));
            assert(dec_digits(x as nat) + rev@.reverse() =~= (dec_digits(x as nat).push(d))
                + old_rev.reverse());
        }
    }
    let ghost old_rev = rev@;
    let d = x as u8 + 48;
    rev.push(d);
    proof {
        assert(dec_digits(x as nat) == seq![d]);
        assert(rev@.reverse() =~= seq![d] + old_rev.reverse());
        assert(dec_digits(n as nat) =~= rev@.reverse());
    }
    let len = rev.len();
    let mut s: Vec<u8> = Vec::new();
    let mut k: usize = 0;
    while k < len
        invariant
            0 <= k <= len,
            len == rev@.len(),
            s@.len() == k,
            forall|idx: int| 0 <= idx < k ==> s@[idx] == rev@[len - 1 - idx],
        decreases len - k,
    {
        s.push(rev[len - 1 - k]);
        k += 1;
    }
    proof {
        assert(s@ =~= rev@.reverse());
    }
    s
}

/// The path of intermediate chunk file `index`, as bytes: the configured
/// directory, a path separator, the chunk index in decimal, and a `.txt`
/// suffix.
pub open spec fn int_file_path_spec(dir: Seq<u8>, index: nat) -> Seq<u8> {
    dir + seq![47u8] + dec_digits(index) + seq![46u8, 116u8, 120u8, 116u8]
}

/// Builds the intermediate file path for one chunk.
pub fn int_file_path(dir: &Vec<u8>, index: u64) -> (p: Vec<u8>)
    ensures
        p@ == int_file_path_spec(dir@, index as nat),
{
    let mut p = copy_range(dir, 0, dir.len());
    proof {
        assert(p@ =~= dir@);
    }
    p.push(47);
    let digits = u64_to_decimal(index);
    let mut k: usize = 0;
    let dlen = digits.len();
    while k < dlen
        invariant
            0 <= k <= dlen,
            dlen == digits@.len(),
            p@ == dir@ + seq![47u8] + digits@.subrange(0, k as int),
        decreases dlen - k,
    {
        p.push(digits[k]);
        proof {
            assert(digits@.subrange(0, k + 1 as int) =~= digits@.subrange(0, k as int).push(
                digits@[k as int],
            ));
            assert(p@ =~= dir@ + seq![47u8] + digits@.subrange(0, k + 1 as int));
        }
        k += 1;
    }
    proof {
        assert(digits@.subrange(0, dlen as int) =~= digits@);
    }
    p.push(46);
    p.push(116);
    p.push(120);
    p.push(116);
    proof {
        assert(p@ =~= int_file_path_spec(dir@, index as nat));
    }
    p
}

/// Cuts the buffer one chunk worker read into its whole blocks, in order of
/// appearance; trailing bytes short of a full block are discarded.
pub fn split_into_blocks(buf: &Vec<u8>) -> (blocks: Vec<Vec<u8>>)
    ensures
        keys_of(blocks@) == full_blocks(buf@),
{
    let len = buf.len();
    let n = len / BLOCK_SIZE;
    proof {
        assert(n * (BLOCK_SIZE as int) <= buf@.len()) by (nonlinear_arith)
            requires
                n == buf@.len() as int / (BLOCK_SIZE as int),
                BLOCK_SIZE == 4096,
        ;
    }
    let mut blocks: Vec<Vec<u8>> = Vec::new();
    let mut i: usize = 0;
    let mut start: usize = 0;
    while i < n
        invariant
            0 <= i <= n,
            n == buf@.len() as int / (BLOCK_SIZE as int),
            n * (BLOCK_SIZE as int) <= buf@.len(),
            buf@.len() <= usize::MAX,
            start == i * (BLOCK_SIZE as int),
            blocks@.len() == i,
            forall|k: int|
                0 <= k < i ==> keys_of(blocks@)[k] == buf@.subrange(
                    k * (BLOCK_SIZE as int),
                    (k + 1) * (BLOCK_SIZE as int),
                ),
        decreases n - i,
    {
        proof {
            assert((i + 1) * (BLOCK_SIZE as int) <= n * (BLOCK_SIZE as int)) by (nonlinear_arith)
                requires
                    i + 1 <= n,
                    BLOCK_SIZE == 4096,
            ;
            assert(i * (BLOCK_SIZE as int) + (BLOCK_SIZE as int) == (i + 1) * (BLOCK_SIZE as int))
                by (nonlinear_arith);
        }
        let block = copy_range(buf, start, start + BLOCK_SIZE);
        let ghost old_blocks = blocks@;
        let ghost bk = block@;
        blocks.push(block);
        proof {
            assert(keys_of(old_blocks.push(block)) =~= keys_of(old_blocks).push(bk));
            assert forall|k: int| 0 <= k < i + 1 implies keys_of(blocks@)[k] == buf@.subrange(
                k * (BLOCK_SIZE as int),
                (k + 1) * (BLOCK_SIZE as int),
            ) by {
                if k < i {
                    assert(keys_of(blocks@)[k] == keys_of(old_blocks)[k]);
                } else {
                    assert(keys_of(blocks@)[k] == bk);
                }
            }
        }
        start += BLOCK_SIZE;
        i += 1;
    }
    proof {
        assert(keys_of(blocks@) =~= full_blocks(buf@));
    }
    blocks
}

/// Sorts a vector of blocks ascending by lexicographic order, keeping
/// exactly the blocks it was given: the result is a permutation. Equal
/// blocks are interchangeable, so which of two equal blocks comes first is
/// not specified.
pub fn sort_blocks(v: Vec<Vec<u8>>) -> (out: Vec<Vec<u8>>)
    ensures
        lex_sorted(keys_of(out@)),
        keys_of(out@).to_multiset() == keys_of(v@).to_multiset(),
        out@.len() == v@.len(),
{
    let ghost orig = keys_of(v@);
    let mut src = v;
    let mut out: Vec<Vec<u8>> = Vec::new();
    while src.len() > 0
        invariant
            lex_sorted(keys_of(out@)),
            keys_of(out@).to_multiset().add(keys_of(src@).to_multiset()) == orig.to_multiset(),
            out@.len() + src@.len() == orig.len(),
            forall|a: int, b: int|
                0 <= a < out@.len() && 0 <= b < src@.len() ==> lex_le(
                    #[trigger] keys_of(out@)[a],
                    #[trigger] keys_of(src@)[b],
                ),
        decreases src@.len(),
    {
        let mut m: usize = 0;
        let mut j: usize = 1;
        proof {
            lemma_lex_le_reflexive(src@[0]@);
        }
        while j < src.len()
            invariant
                0 <= m < j <= src@.len(),
                forall|k: int| 0 <= k < j ==> lex_le(keys_of(src@)[m as int], keys_of(src@)[k]),
            decreases src@.len() - j,
        {
            if bytes_le(&src[j], &src[m]) {
                proof {
                    lemma_lex_le_reflexive(src@[j as int]@);
                    assert forall|k: int| 0 <= k < j implies lex_le(
                        keys_of(src@)[j as int],
                        keys_of(src@)[k],
                    ) by {
                        assert(lex_le(keys_of(src@)[m as int], keys_of(src@)[k]));
                        lemma_lex_le_transitive(src@[j as int]@, src@[m as int]@, src@[k]@);
                    }
                }
                m = j;
            } else {
                proof {
                    lemma_lex_le_total(src@[j as int]@, src@[m as int]@);
                }
            }
            j += 1;
        }
        let ghost old_src = src@;
        let ghost old_out = out@;
        let x = src.remove(m);
        out.push(x);
        proof {
            assert(keys_of(old_src.remove(m as int)) =~= keys_of(old_src).remove(m as int));
            assert(keys_of(old_out.push(x)) =~= keys_of(old_out).push(x@));
            assert(keys_of(out@).to_multiset() =~= keys_of(old_out).to_multiset().insert(x@));
            assert(keys_of(src@).to_multiset() =~= keys_of(old_src).to_multiset().remove(x@));
            assert(keys_of(out@).to_multiset().add(keys_of(src@).to_multiset())
                =~= orig.to_multiset()) by {
                let k = x@;
                let o = keys_of(old_out).to_multiset();
                let s = keys_of(old_src).to_multiset();
                assert(s.count(k) > 0) by {
                    assert(keys_of(old_src)[m as int] == k);
                }
                assert forall|y: Seq<u8>|
                    o.insert(k).add(s.remove(k)).count(y) == o.add(s).count(y) by {}
            }
            assert forall|a: int, b: int|
                0 <= a < out@.len() && 0 <= b < src@.len() implies lex_le(
                #[trigger] keys_of(out@)[a],
                #[trigger] keys_of(src@)[b],
            ) by {
                let bk = if b < m { b } else { b + 1 };
                assert(keys_of(src@)[b] == keys_of(old_src)[bk]);
                if a < old_out.len() {
                    assert(lex_le(keys_of(old_out)[a], keys_of(old_src)[bk]));
                } else {
                    assert(keys_of(out@)[a] == x@);
                    assert(lex_le(keys_of(old_src)[m as int], keys_of(old_src)[bk]));
                }
            }
            assert(lex_sorted(keys_of(out@))) by {
                assert forall|a: int, b: int| 0 <= a < b < keys_of(out@).len() implies lex_le(
                    keys_of(out@)[a],
                    keys_of(out@)[b],
                ) by {
                    if b < old_out.len() {
                        assert(lex_le(keys_of(old_out)[a], keys_of(old_out)[b]));
                    } else {
                        assert(keys_of(out@)[b] == x@);
                        assert(lex_le(keys_of(old_out)[a], keys_of(old_src)[m as int]));
                    }
                }
            }
        }
    }
    proof {
        assert(keys_of(src@).to_multiset() =~= Multiset::<Seq<u8>>::empty()) by {
            assert(keys_of(src@).len() == 0);
        }
        assert(keys_of(out@).to_multiset() =~= orig.to_multiset());
    }
    out
}

/// Block-aligned bytes are determined by their blocks: two block-aligned
/// byte sequences that cut into the same blocks are the same bytes.
pub proof fn lemma_blocks_determine_bytes(a: Seq<u8>, b: Seq<u8>)
    requires
        a.len() % (BLOCK_SIZE as nat) == 0,
        b.len() % (BLOCK_SIZE as nat) == 0,
        full_blocks(a) == full_blocks(b),
    ensures
        a == b,
{
    let bs = BLOCK_SIZE as int;
    let n = full_blocks(a).len() as int;
    lemma_fundamental_div_mod(a.len() as int, bs);
    lemma_fundamental_div_mod(b.len() as int, bs);
    assert(a.len() == n * bs);
    assert(b.len() == n * bs);
    assert forall|x: int| 0 <= x < a.len() implies a[x] == b[x] by {
        let q = x / bs;
        let r = x % bs;
        lemma_fundamental_div_mod(x, bs);
        assert(0 <= r < bs && 0 <= q) by (nonlinear_arith)
            requires
                bs == 4096,
                x >= 0,
                q == x / bs,
                r == x % bs,
        ;
        assert(q < n) by (nonlinear_arith)
            requires
                x < n * bs,
                x == bs * q + r,
                0 <= r < bs,
                bs == 4096,
        ;
        assert((q + 1) * bs == q * bs + bs) by (nonlinear_arith);
        assert(q * bs >= 0 && q * bs <= x) by (nonlinear_arith)
            requires
                x == bs * q + r,
                0 <= r < bs,
                q >= 0,
                bs == 4096,
        ;
        assert(full_blocks(a)[q][r] == a[q * bs + r]);
        assert(full_blocks(b)[q][r] == b[q * bs + r]);
    }
    assert(a =~= b);
}

/// Sorting leaves already-sorted data untouched: on a block-aligned input
/// whose blocks are sorted, any output that a chunk sort may produce — the
/// same blocks, sorted — is the input itself, byte for byte. Sorting a
/// chunk twice therefore gives the same bytes as sorting it once.
pub proof fn lemma_resort_byte_identical(a: Seq<u8>, b: Seq<u8>)
    requires
        a.len() % (BLOCK_SIZE as nat) == 0,
        lex_sorted(full_blocks(a)),
        lex_sorted(full_blocks(b)),
        b.len() == full_blocks(a).len() * BLOCK_SIZE,
        full_blocks(b).to_multiset() == full_blocks(a).to_multiset(),
    ensures
        b == a,
{
    let bs = BLOCK_SIZE as int;
    lemma_lex_sorted_unique(full_blocks(a), full_blocks(b));
    assert(b.len() % (BLOCK_SIZE as nat) == 0) by (nonlinear_arith)
        requires
            b.len() == full_blocks(a).len() * (BLOCK_SIZE as nat),
            BLOCK_SIZE == 4096,
    ;
    lemma_blocks_determine_bytes(a, b);
}

/// The split-phase computation for one chunk: the bytes of the intermediate
/// file a worker writes, given the bytes it read. The buffer's whole blocks
/// come back sorted ascending and concatenated; trailing bytes short of a
/// full block are discarded, so the result's length is the buffer's rounded
/// down to a multiple of `BLOCK_SIZE`.
pub fn sort_chunk(buf: &Vec<u8>) -> (out: Vec<u8>)
    ensures
        out@.len() == full_blocks(buf@).len() * BLOCK_SIZE,
        lex_sorted(full_blocks(out@)),
        full_blocks(out@).to_multiset() == full_blocks(buf@).to_multiset(),
{
    let blocks = split_into_blocks(buf);
    let sorted = sort_blocks(blocks);
    let ghost keys = keys_of(sorted@);
    proof {
        assert forall|i: int| 0 <= i < keys.len() implies keys[i].len() == BLOCK_SIZE by {
            assert(keys.to_multiset().contains(keys[i]));
            assert(full_blocks(buf@).to_multiset().contains(keys[i]));
            assert(full_blocks(buf@).contains(keys[i]));
        }
    }
    let mut out: Vec<u8> = Vec::new();
    let mut i: usize = 0;
    while i < sorted.len()
        invariant
            0 <= i <= sorted@.len(),
            keys == keys_of(sorted@),
            forall|k: int| 0 <= k < keys.len() ==> keys[k].len() == BLOCK_SIZE,
            out@.len() == i * BLOCK_SIZE,
            forall|k: int|
                0 <= k < i ==> out@.subrange(k * (BLOCK_SIZE as int), (k + 1) * (BLOCK_SIZE as int))
                    == keys[k],
        decreases sorted@.len() - i,
    {
        let ghost old_out = out@;
        proof {
            assert(keys.len() == sorted@.len());
            assert(keys[i as int] == sorted@[i as int]@);
            assert(keys[i as int].len() == BLOCK_SIZE);
        }
        let blk = &sorted[i];
        let mut j: usize = 0;
        while j < blk.len()
            invariant
                0 <= j <= blk@.len(),
                blk@ == keys[i as int],
                blk@.len() == BLOCK_SIZE,
                out@ == old_out + blk@.subrange(0, j as int),
            decreases blk@.len() - j,
        {
            out.push(blk[j]);
            proof {
                assert(old_out + blk@.subrange(0, j + 1 as int) =~= (old_out + blk@.subrange(
                    0,
                    j as int,
                )).push(blk@[j as int]));
            }
            j += 1;
        }
        proof {
            assert(blk@.subrange(0, BLOCK_SIZE as int) =~= blk@);
            assert(out@ == old_out + keys[i as int]);
            assert((i + 1) * (BLOCK_SIZE as int) == i * (BLOCK_SIZE as int) + (BLOCK_SIZE as int))
                by (nonlinear_arith);
            assert forall|k: int| 0 <= k < i + 1 implies out@.subrange(
                k * (BLOCK_SIZE as int),
                (k + 1) * (BLOCK_SIZE as int),
            ) == keys[k] by {
                assert((k + 1) * (BLOCK_SIZE as int) == k * (BLOCK_SIZE as int) + (
                BLOCK_SIZE as int)) by (nonlinear_arith);
                assert(k * (BLOCK_SIZE as int) >= 0) by (nonlinear_arith)
                    requires
                        k >= 0,
                ;
                if k < i {
                    assert((k + 1) * (BLOCK_SIZE as int) <= i * (BLOCK_SIZE as int))
                        by (nonlinear_arith)
                        requires
                            k + 1 <= i,
                            BLOCK_SIZE == 4096,
                    ;
                    assert(out@.subrange(k * (BLOCK_SIZE as int), (k + 1) * (BLOCK_SIZE as int))
                        =~= old_out.subrange(
                        k * (BLOCK_SIZE as int),
                        (k + 1) * (BLOCK_SIZE as int),
                    ));
                } else {
                    assert(out@.subrange(i * (BLOCK_SIZE as int), (i + 1) * (BLOCK_SIZE as int))
                        =~= keys[i as int]);
                }
            }
        }
        i += 1;
    }
    proof {
        let n = keys.len() as int;
        assert(out@.len() == n * (BLOCK_SIZE as int));
        assert(out@.len() as int / (BLOCK_SIZE as int) == n) by (nonlinear_arith)
            requires
                out@.len() == n * (BLOCK_SIZE as int),
                n >= 0,
                BLOCK_SIZE == 4096,
        ;
        assert(full_blocks(out@) =~= keys);
        assert(full_blocks(buf@).len() == keys.len()) by {
            assert(keys.to_multiset().len() == full_blocks(buf@).to_multiset().len());
        }
    }
    out
}

} // verus!
