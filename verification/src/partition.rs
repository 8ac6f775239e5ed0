//! Dividing the range `[0, max]` among a fixed number of workers.

use vstd::prelude::*;
use vstd::arithmetic::div_mod::lemma_fundamental_div_mod;

verus! {

/// A contiguous stretch of the number line: `size` numbers from `offset` on.
#[derive(Clone, Copy, Debug)]
pub struct Chunk {
    pub offset: usize,
    pub size: usize,
}

/// Where chunk `index` starts when `len` numbers are divided among `parts`
/// workers: every chunk holds `len / parts` numbers and the first one holds
/// the remainder as well. For `index == parts` this is `len`, the end of the
/// last chunk.
pub open spec fn chunk_start(len: int, parts: int, index: int) -> int {
    if index <= 0 {
        0
    } else {
        (len / parts) * index + len % parts
    }
}

/// One past the last number of chunk `index`.
pub open spec fn chunk_end(len: int, parts: int, index: int) -> int {
    chunk_start(len, parts, index + 1)
}

/// The chunks follow one another without gap or overlap, none is of
/// negative size, and together they cover `[0, len)`.
pub proof fn lemma_chunks_tile(len: int, parts: int, index: int)
    requires
        0 <= len,
        1 <= parts,
        0 <= index < parts,
    ensures
        0 <= chunk_start(len, parts, index) <= chunk_end(len, parts, index) <= len,
        chunk_start(len, parts, 0) == 0,
        chunk_start(len, parts, parts) == len,
        chunk_end(len, parts, index) - chunk_start(len, parts, index) == if index == 0 {
            len / parts + len % parts
        } else {
            len / parts
        },
{
    let q = len / parts;
    let r = len % parts;
    lemma_fundamental_div_mod(len, parts);
    assert(q >= 0 && q * parts + r == len && q * (index + 1) == q * index + q && q * index >= 0
        && q * (index + 1) <= q * parts) by (nonlinear_arith)
        requires
            len == parts * q + r,
            0 <= r < parts,
            0 <= len,
            0 <= index < parts,
    ;
}

/// Every number of `[0, len)` lies in exactly one chunk; this returns its
/// index.
pub proof fn lemma_chunk_of(len: int, parts: int, k: int) -> (index: int)
    requires
        1 <= parts,
        0 <= k < len,
    ensures
        0 <= index < parts,
        chunk_start(len, parts, index) <= k < chunk_end(len, parts, index),
{
    lemma_chunks_tile(len, parts, parts - 1);
    lemma_chunk_before(len, parts, k, parts)
}

proof fn lemma_chunk_before(len: int, parts: int, k: int, bound: int) -> (index: int)
    requires
        1 <= parts,
        0 <= k < len,
        1 <= bound <= parts,
        k < chunk_start(len, parts, bound),
    ensures
        0 <= index < bound,
        chunk_start(len, parts, index) <= k < chunk_end(len, parts, index),
    decreases bound,
{
    if chunk_start(len, parts, bound - 1) <= k {
        bound - 1
    } else {
        lemma_chunk_before(len, parts, k, bound - 1)
    }
}

/// The chunks of `[0, max]` for `num_threads` workers, in ascending order.
///
/// All chunks are of one size but the first, which is larger by the
/// remainder of the division. With more workers than numbers, every chunk
/// after the first is empty.
pub fn partition(max: usize, num_threads: u8) -> (chunks: Vec<Chunk>)
    requires
        num_threads >= 1,
        max < usize::MAX,
    ensures
        chunks@.len() == num_threads,
        forall|i: int|
            0 <= i < num_threads ==> (#[trigger] chunks@[i]).offset == chunk_start(
                max + 1,
                num_threads as int,
                i,
            ) && chunks@[i].offset + chunks@[i].size == chunk_end(
                max + 1,
                num_threads as int,
                i,
            ),
{
    let len = max + 1;
    let parts = num_threads as usize;
    let remainder = len % parts;
    let chunk_size = len / parts;
    let mut chunks: Vec<Chunk> = Vec::new();
    let mut id: usize = 0;
    while id < parts
        invariant
            len == max + 1,
            parts == num_threads,
            1 <= parts,
            remainder == len % parts,
            chunk_size == len / parts,
            id <= parts,
            chunks@.len() == id,
            forall|i: int|
                0 <= i < id ==> (#[trigger] chunks@[i]).offset == chunk_start(
                    len as int,
                    parts as int,
                    i,
                ) && chunks@[i].offset + chunks@[i].size == chunk_end(len as int, parts as int, i),
        decreases parts - id,
    {
        proof {
            lemma_chunks_tile(len as int, parts as int, id as int);
        }
        let chunk = if id == 0 {
            Chunk { offset: 0, size: chunk_size + remainder }
        } else {
            Chunk { offset: chunk_size * id + remainder, size: chunk_size }
        };
        chunks.push(chunk);
        id += 1;
    }
    chunks
}

} // verus!
