//! Splitting a list of symbols into chunks that are coded apart.
use crate::coder::{decoding, encodable, encoding, Tables};
use crate::coder_laws::{decoding_undoes_encoding, separable};
use vstd::prelude::*;

verus! {

/// The least size at which at most `n_chunks` chunks hold `n` elements.
pub open spec fn chunk_size_of(n: int, n_chunks: int) -> int {
    (n + n_chunks - 1) / n_chunks
}

/// The number of chunks of the given size that hold `n` elements.
pub open spec fn chunk_count(n: int, size: int) -> int {
    (n + size - 1) / size
}

/// The end of chunk `i`: all chunks have the given size, but the last one may be shorter.
pub open spec fn chunk_end(n: int, size: int, i: int) -> int {
    if i * size + size < n {
        i * size + size
    } else {
        n
    }
}

/// Chunk `i` of `s`.
pub open spec fn chunk<T>(s: Seq<T>, size: int, i: int) -> Seq<T> {
    s.subrange(i * size, chunk_end(s.len() as int, size, i))
}

/// The first `k` chunks of `s`, put together.
pub open spec fn chunks_joined<T>(s: Seq<T>, size: int, k: int) -> Seq<T>
    decreases k,
{
    if k <= 0 {
        Seq::empty()
    } else {
        chunks_joined(s, size, k - 1) + chunk(s, size, k - 1)
    }
}

/// A chunk begins inside the elements.
pub proof fn lemma_chunk_inside(n: int, size: int, i: int)
    requires
        0 <= n,
        0 < size,
        0 <= i < chunk_count(n, size),
    ensures
        0 <= i * size < n,
        i * size < chunk_end(n, size, i) <= n,
{
    assert(0 <= i * size < n) by (nonlinear_arith)
        requires
            0 <= n,
            0 < size,
            0 <= i < (n + size - 1) / size,
    ;
}

/// The chunk after the last one would begin at or behind the end.
pub proof fn lemma_chunk_count(n: int, size: int)
    requires
        0 <= n,
        0 < size,
    ensures
        0 <= chunk_count(n, size),
        n == 0 <==> chunk_count(n, size) == 0,
        n <= chunk_count(n, size) * size,
{
    assert(0 <= (n + size - 1) / size && (n == 0 <==> (n + size - 1) / size == 0) && n <= ((n + size - 1) / size) * size) by (nonlinear_arith)
        requires
            0 <= n,
            0 < size,
    ;
}

/// The size of the chunks when `n` elements go to `n_chunks` workers.
pub fn chunk_size(n: usize, n_chunks: usize) -> (size: usize)
    requires
        0 < n_chunks <= n,
    ensures
        size == chunk_size_of(n as int, n_chunks as int),
        0 < size <= n,
        n_chunks * (size - 1) < n <= n_chunks * size,
{
    proof {
        chunk_size_is_the_least(n as int, n_chunks as int);
    }
    assert((n + n_chunks - 1) / (n_chunks as int) == (n - 1) / (n_chunks as int) + 1
        && 0 <= (n - 1) / (n_chunks as int) <= n - 1) by (nonlinear_arith)
        requires
            0 < n_chunks <= n,
    ;
    (n - 1) / n_chunks + 1
}

/// The bounds of the chunks of the given size.
pub fn chunk_bounds(n: usize, size: usize) -> (bounds: Vec<(usize, usize)>)
    requires
        0 < size,
    ensures
        bounds@.len() == chunk_count(n as int, size as int),
        forall|i: int|
            0 <= i < bounds@.len() ==> (#[trigger] bounds@[i]).0 == i * size && bounds@[i].1
                == chunk_end(n as int, size as int, i),
        n == 0 <==> bounds@.len() == 0,
        n > 0 ==> bounds@[0].0 == 0 && bounds@.last().1 == n,
        forall|i: int|
            0 <= i < bounds@.len() - 1 ==> (#[trigger] bounds@[i]).1 - bounds@[i].0 == size
                && bounds@[i].1 == bounds@[i + 1].0,
        n > 0 ==> bounds@.last().0 < bounds@.last().1 <= bounds@.last().0 + size,
{
    let mut bounds: Vec<(usize, usize)> = Vec::new();
    let mut first: usize = 0;
    let ghost count = chunk_count(n as int, size as int);
    proof {
        lemma_chunk_count(n as int, size as int);
    }
    while first < n
        invariant
            0 < size,
            count == chunk_count(n as int, size as int),
            bounds@.len() <= count,
            first < n ==> first == bounds@.len() * size,
            first >= n ==> bounds@.len() == count,
            first < n ==> bounds@.len() < count,
            forall|i: int|
                0 <= i < bounds@.len() ==> (#[trigger] bounds@[i]).0 == i * size && bounds@[i].1
                    == chunk_end(n as int, size as int, i),
        decreases n - first,
    {
        let ghost k = bounds@.len() as int;
        let end: usize = if n - first > size {
            first + size
        } else {
            n
        };
        proof {
            assert((k + 1) * size == k * size + size) by (nonlinear_arith);
            lemma_next_chunk(n as int, size as int, k);
        }
        bounds.push((first, end));
        first = end;
    }
    proof {
        let k = bounds@.len() as int;
        if n > 0 {
            assert(0 * size == 0) by (nonlinear_arith);
            assert(bounds@[0].0 == 0 * size);
            chunks_are_full_but_the_last(n as int, size as int, k - 1);
            assert(bounds@[k - 1] == bounds@.last());
        }
        assert forall|i: int| 0 <= i < k - 1 implies (#[trigger] bounds@[i]).1 - bounds@[i].0 == size
            && bounds@[i].1 == bounds@[i + 1].0 by {
            chunks_are_full_but_the_last(n as int, size as int, i);
            assert((i + 1) * size == i * size + size) by (nonlinear_arith);
        }
    }
    bounds
}

/// The size of the chunks is the least at which the chunks asked for hold all elements.
pub proof fn chunk_size_is_the_least(n: int, n_chunks: int)
    requires
        0 < n,
        0 < n_chunks,
    ensures
        n <= n_chunks * chunk_size_of(n, n_chunks),
        n_chunks * (chunk_size_of(n, n_chunks) - 1) < n,
{
    let size = chunk_size_of(n, n_chunks);
    assert(n <= n_chunks * size && n_chunks * (size - 1) < n) by (nonlinear_arith)
        requires
            0 < n,
            0 < n_chunks,
            size == (n + n_chunks - 1) / n_chunks,
    ;
}

/// Chunk `i` begins `i` times the size behind the first element. All chunks but the last
/// have the given size; the last one has at most that, is not empty, and ends where the
/// elements end.
pub proof fn chunks_are_full_but_the_last(n: int, size: int, i: int)
    requires
        0 <= n,
        0 < size,
        0 <= i < chunk_count(n, size),
    ensures
        i < chunk_count(n, size) - 1 ==> chunk_end(n, size, i) == i * size + size,
        i == chunk_count(n, size) - 1 ==> chunk_end(n, size, i) == n && i * size < n <= i * size
            + size,
{
    lemma_chunk_inside(n, size, i);
    lemma_next_chunk(n, size, i);
}

/// Chunk `i` holds the elements from `i` times the size on, in order.
pub proof fn chunk_holds_its_stretch<T>(s: Seq<T>, size: int, i: int, k: int)
    requires
        0 < size,
        0 <= i < chunk_count(s.len() as int, size),
        0 <= k < chunk(s, size, i).len(),
    ensures
        i * size + k < s.len(),
        k < size,
        chunk(s, size, i)[k] == s[i * size + k],
{
    lemma_chunk_inside(s.len() as int, size, i);
    chunks_are_full_but_the_last(s.len() as int, size, i);
}

/// There is a chunk after chunk `k` exactly where chunk `k` does not reach the end.
proof fn lemma_next_chunk(n: int, size: int, k: int)
    requires
        0 < size,
        0 <= k,
        k * size < n,
    ensures
        k * size + size < n ==> k + 1 < chunk_count(n, size),
        k * size + size >= n ==> k + 1 == chunk_count(n, size),
{
    if k * size + size < n {
        assert(k + 1 < (n + size - 1) / size) by (nonlinear_arith)
            requires
                0 < size,
                0 <= k,
                k * size + size < n,
        ;
    } else {
        assert(k + 1 == (n + size - 1) / size) by (nonlinear_arith)
            requires
                0 < size,
                0 <= k,
                k * size < n,
                k * size + size >= n,
        ;
    }
}

/// No more chunks are made than were asked for.
pub proof fn chunks_are_as_many_as_asked(n: int, n_chunks: int)
    requires
        0 < n_chunks <= n,
    ensures
        0 < chunk_count(n, chunk_size_of(n, n_chunks)) <= n_chunks,
{
    let size = chunk_size_of(n, n_chunks);
    assert(0 < size && n <= n_chunks * size) by (nonlinear_arith)
        requires
            0 < n_chunks <= n,
            size == (n + n_chunks - 1) / n_chunks,
    ;
    assert(0 < (n + size - 1) / size <= n_chunks) by (nonlinear_arith)
        requires
            0 < n,
            0 < size,
            n <= n_chunks * size,
    ;
}

/// The first chunks put together are the beginning of the elements.
proof fn lemma_chunks_joined<T>(s: Seq<T>, size: int, k: int)
    requires
        0 < size,
        0 <= k <= chunk_count(s.len() as int, size),
    ensures
        chunks_joined(s, size, k) == if k * size < s.len() {
            s.take(k * size)
        } else {
            s
        },
    decreases k,
{
    let n = s.len() as int;
    if k == 0 {
        assert(k * size == 0) by (nonlinear_arith)
            requires
                k == 0,
        ;
        assert(chunks_joined(s, size, k) =~= s.take(0));
        if n == 0 {
            assert(s =~= s.take(0));
        }
    } else {
        lemma_chunks_joined(s, size, k - 1);
        lemma_chunk_inside(n, size, k - 1);
        assert(k * size == (k - 1) * size + size) by (nonlinear_arith);
        if k * size < n {
            assert(chunks_joined(s, size, k) =~= s.take(k * size));
        } else {
            assert(chunks_joined(s, size, k) =~= s);
        }
    }
}

/// The chunks put together are the elements that were split.
pub proof fn chunks_make_up_the_whole<T>(s: Seq<T>, size: int)
    requires
        0 < size,
    ensures
        chunks_joined(s, size, chunk_count(s.len() as int, size)) == s,
{
    lemma_chunk_count(s.len() as int, size);
    lemma_chunks_joined(s, size, chunk_count(s.len() as int, size));
}

/// Chunks can be coded apart: a chunk of symbols that can be coded can be coded by itself,
/// with its chunk of the indexes alone, and decoding it gives the chunk back.
pub proof fn chunk_is_coded_apart(
    symbols: Seq<i32>,
    indexes: Seq<i32>,
    t: Tables,
    size: int,
    i: int,
)
    requires
        symbols.len() == indexes.len(),
        encodable(symbols, indexes, t),
        separable(symbols, indexes, t),
        0 < size,
        0 <= i < chunk_count(symbols.len() as int, size),
    ensures
        encodable(chunk(symbols, size, i), chunk(indexes, size, i), t),
        separable(chunk(symbols, size, i), chunk(indexes, size, i), t),
        decoding(
            encoding(chunk(symbols, size, i), chunk(indexes, size, i), t),
            chunk(indexes, size, i),
            t,
        ) == Some(chunk(symbols, size, i)),
{
    lemma_chunk_inside(symbols.len() as int, size, i);
    let part = chunk(symbols, size, i);
    let names = chunk(indexes, size, i);
    assert forall|j: int| 0 <= j < part.len() implies t.has(#[trigger] names[j]) && t.row(
        names[j],
    ).encodable(part[j]) && t.row(names[j]).separates(t.row(names[j]).slot(part[j])) by {
        assert(names[j] == indexes[i * size + j]);
        assert(part[j] == symbols[i * size + j]);
    }
    decoding_undoes_encoding(part, names, t);
    assert(names.take(part.len() as int) =~= names);
}

} // verus!
