use vstd::prelude::*;
use vstd::arithmetic::div_mod::lemma_fundamental_div_mod_converse;

verus! {

/// Number of blocks covered by one log query.
pub const CHUNK_SIZE: u64 = 5000;

/// How many chunks `[from, to]` splits into: none when the range is empty.
pub open spec fn chunk_count(from: u64, to: u64) -> nat {
    if from > to {
        0
    } else {
        ((to - from) as nat / CHUNK_SIZE as nat) + 1
    }
}

/// The `i`-th chunk of `[from, to]`: it starts `i` chunk sizes after `from` and
/// ends a chunk size later, or at `to` if that comes first.
pub open spec fn chunk_at(from: u64, to: u64, i: int) -> (u64, u64) {
    let start = from + i * CHUNK_SIZE;
    let end = if start + CHUNK_SIZE - 1 <= to { start + CHUNK_SIZE - 1 } else { to as int };
    (start as u64, end as u64)
}

/// All chunks of `[from, to]`, in block order.
pub open spec fn chunk_seq(from: u64, to: u64) -> Seq<(u64, u64)> {
    Seq::new(chunk_count(from, to), |i: int| chunk_at(from, to, i))
}

/// Splits the inclusive block range `[from_block, to_block]` into consecutive
/// inclusive ranges of at most `CHUNK_SIZE` blocks, the last possibly shorter.
/// An empty range (`from_block > to_block`) gives no chunks.
pub fn block_number_chunks(from_block: u64, to_block: u64) -> (r: Vec<(u64, u64)>)
    ensures
        r@ == chunk_seq(from_block, to_block),
{
    let mut block_range: Vec<(u64, u64)> = Vec::new();
    if from_block > to_block {
        assert(block_range@ =~= chunk_seq(from_block, to_block));
        return block_range;
    }
    let mut current_block: u64 = from_block;
    loop
        invariant_except_break
            from_block <= current_block <= to_block,
            current_block == from_block + block_range@.len() * CHUNK_SIZE,
            forall|j: int|
                0 <= j < block_range@.len() ==> block_range@[j] == chunk_at(
                    from_block,
                    to_block,
                    j,
                ),
        ensures
            block_range@ =~= chunk_seq(from_block, to_block),
        decreases to_block - current_block,
    {
        let ghost k = block_range@.len();
        if to_block - current_block < CHUNK_SIZE {
            block_range.push((current_block, to_block));
            proof {
                lemma_fundamental_div_mod_converse(
                    (to_block - from_block) as int,
                    CHUNK_SIZE as int,
                    k as int,
                    (to_block - current_block) as int,
                );
            }
            break;
        }
        block_range.push((current_block, current_block + (CHUNK_SIZE - 1)));
        current_block = current_block + CHUNK_SIZE;
    }
    block_range
}

/// Whether block `b` lies in one of the ranges of `s`.
pub open spec fn covered_by(s: Seq<(u64, u64)>, b: u64) -> bool {
    exists|i: int| 0 <= i < s.len() && s[i].0 <= b <= #[trigger] s[i].1
}

/// For a non-empty range, the chunks start at `from`, end at `to`, follow one
/// another with no gap and no overlap, each holds between one and `CHUNK_SIZE`
/// blocks, and every block of the range lies in exactly one chunk.
pub proof fn lemma_chunks_partition(from: u64, to: u64)
    requires
        from <= to,
    ensures
        chunk_seq(from, to).len() >= 1,
        chunk_seq(from, to)[0].0 == from,
        chunk_seq(from, to).last().1 == to,
        forall|i: int|
            0 <= i < chunk_seq(from, to).len() ==> {
                let c = #[trigger] chunk_seq(from, to)[i];
                &&& from <= c.0 <= c.1 <= to
                &&& c.1 - c.0 + 1 <= CHUNK_SIZE
            },
        forall|i: int|
            0 <= i < chunk_seq(from, to).len() - 1 ==> #[trigger] chunk_seq(from, to)[i + 1].0
                == chunk_seq(from, to)[i].1 + 1,
        forall|i: int, j: int|
            0 <= i < j < chunk_seq(from, to).len() ==> #[trigger] chunk_seq(from, to)[i].1
                < #[trigger] chunk_seq(from, to)[j].0,
        forall|b: u64| from <= b <= to ==> #[trigger] covered_by(chunk_seq(from, to), b),
{
    let n = chunk_count(from, to);
    let s = chunk_seq(from, to);
    let q = (to - from) / (CHUNK_SIZE as int);
    assert(q * CHUNK_SIZE <= to - from) by (nonlinear_arith)
        requires
            q == (to - from) / (CHUNK_SIZE as int),
            to - from >= 0,
    ;
    assert(to - from < (q + 1) * CHUNK_SIZE) by (nonlinear_arith)
        requires
            q == (to - from) / (CHUNK_SIZE as int),
            to - from >= 0,
    ;
    assert forall|i: int| 0 <= i < n implies from + i * CHUNK_SIZE <= to && #[trigger] s[i] == chunk_at(
        from,
        to,
        i,
    ) by {
        assert(i * CHUNK_SIZE <= q * CHUNK_SIZE) by (nonlinear_arith)
            requires
                i <= q,
        ;
    }
    assert forall|i: int, j: int| 0 <= i < j < n implies #[trigger] s[i].1 < #[trigger] s[j].0 by {
        assert(i * CHUNK_SIZE + CHUNK_SIZE <= j * CHUNK_SIZE) by (nonlinear_arith)
            requires
                i < j,
        ;
    }
    assert forall|b: u64| from <= b <= to implies #[trigger] covered_by(s, b) by {
        let i = (b - from) / (CHUNK_SIZE as int);
        assert(i * CHUNK_SIZE <= b - from < (i + 1) * CHUNK_SIZE) by (nonlinear_arith)
            requires
                i == (b - from) / (CHUNK_SIZE as int),
                b - from >= 0,
        ;
        assert(i <= q) by (nonlinear_arith)
            requires
                i == (b - from) / (CHUNK_SIZE as int),
                q == (to - from) / (CHUNK_SIZE as int),
                b - from <= to - from,
                b - from >= 0,
        ;
        assert(s[i].0 <= b <= s[i].1);
    }
}

} // verus!
