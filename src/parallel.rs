use rayon::iter::{IndexedParallelIterator, ParallelIterator};
use rayon::slice::ParallelSlice;
use vstd::prelude::*;

use crate::laws::{lemma_merged_summary, lemma_summary_seq};
use crate::numeric::Numeric;
use crate::pair::{compare_pair, max2_result, summary, Max2Error, Pair, PairOption};
use crate::strategies::{finish, fold_slice};

verus! {

/// The `i`-th chunk when `s` is cut into consecutive chunks of `size` values;
/// the last chunk may be shorter.
spec fn chunk<T>(s: Seq<T>, size: nat, i: int) -> Seq<T> {
    let lo = i * size;
    let hi = if lo + size <= s.len() {
        lo + size
    } else {
        s.len() as int
    };
    s.subrange(lo, hi)
}

/// Relies on `rayon::current_num_threads`: the number of threads of the pool
/// that the work will run on, used only to size the chunks.
#[verifier::external_body]
fn worker_count() -> (r: usize) {
    rayon::current_num_threads()
}

/// Relies on rayon's `par_chunks`, `map` and `collect_into_vec`: the slice is
/// cut into consecutive chunks of `size` values (only the last may be
/// shorter), each chunk is folded by `fold_slice` on the thread pool, and the
/// states are collected in chunk order. `par_chunks` panics on a zero size.
#[verifier::external_body]
fn fold_chunks<T: Numeric + Send + Sync>(input: &[T], size: usize) -> (parts: Vec<PairOption<T>>)
    requires
        size > 0,
    ensures
        parts@.len() == (input@.len() + size - 1) / (size as int),
        forall|i: int|
            0 <= i < parts@.len() ==> #[trigger] parts@[i] == summary(
                chunk(input@, size as nat, i).to_multiset(),
            ),
{
    let mut parts = Vec::new();
    input.par_chunks(size).map(|c| fold_slice(c)).collect_into_vec(&mut parts);
    parts
}

/// Where the chunks stop: before the `i`-th chunk when it exists, and at the end
/// of the values once all chunks are taken.
proof fn lemma_chunk_count(n: int, size: int, i: int)
    requires
        n >= 0,
        size > 0,
        0 <= i,
    ensures
        i < (n + size - 1) / size <==> i * size < n,
        i == (n + size - 1) / size ==> i * size >= n,
{
    let q = (n + size - 1) / size;
    assert(q * size <= n + size - 1 < q * size + size) by (nonlinear_arith)
        requires
            q == (n + size - 1) / size,
            size > 0,
            n >= 0,
    ;
    if i < q {
        assert(i * size < n) by (nonlinear_arith)
            requires
                i <= q - 1,
                size > 0,
                q * size <= n + size - 1,
        ;
    } else {
        assert(i * size >= n) by (nonlinear_arith)
            requires
                i >= q,
                size > 0,
                n + size - 1 < q * size + size,
        ;
    }
}

/// Top two by folding chunks of the values on rayon's thread pool and merging
/// the states of the chunks in order.
pub fn par_max2<T: Numeric + Send + Sync>(input: &[T]) -> (r: Result<Pair<T>, Max2Error>)
    ensures
        max2_result(input@, r),
{
    let n = input.len();
    let threads = worker_count();
    let workers = if threads == 0 {
        1
    } else {
        threads
    };
    let size = if n == 0 {
        1
    } else {
        (n - 1) / workers + 1
    };
    let parts = fold_chunks(input, size);
    let mut current = PairOption::Empty;
    let mut i: usize = 0;
    let mut lo: usize = 0;
    proof {
        lemma_summary_seq(input@.subrange(0, 0));
        lemma_chunk_count(n as int, size as int, 0);
    }
    while i < parts.len()
        invariant
            n == input@.len(),
            size > 0,
            parts@.len() == (n + size - 1) / (size as int),
            forall|k: int|
                0 <= k < parts@.len() ==> #[trigger] parts@[k] == summary(
                    chunk(input@, size as nat, k).to_multiset(),
                ),
            i <= parts@.len(),
            i < parts@.len() ==> lo == i * size,
            i == parts@.len() ==> lo == n,
            lo <= n,
            current == summary(input@.subrange(0, lo as int).to_multiset()),
            current.wf(),
        decreases parts@.len() - i,
    {
        proof {
            lemma_chunk_count(n as int, size as int, i as int);
        }
        let hi = if size <= n - lo {
            lo + size
        } else {
            n
        };
        let part = parts[i];
        proof {
            let piece = chunk(input@, size as nat, i as int);
            assert(piece =~= input@.subrange(lo as int, hi as int));
            lemma_summary_seq(piece);
            lemma_merged_summary(input@.subrange(0, lo as int), piece);
            assert(input@.subrange(0, lo as int) + piece =~= input@.subrange(0, hi as int));
            lemma_summary_seq(input@.subrange(0, hi as int));
        }
        current = compare_pair(current, part);
        proof {
            lemma_chunk_count(n as int, size as int, i + 1);
            assert((i + 1) * size == i * size + size) by (nonlinear_arith);
        }
        i = i + 1;
        lo = hi;
    }
    proof {
        assert(input@.subrange(0, lo as int) =~= input@);
    }
    finish(current, Ghost(input@))
}

} // verus!
