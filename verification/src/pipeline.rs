//! The fork/merge pipeline: partition the token list into one contiguous
//! chunk per worker, count each chunk into a local table, and merge the local
//! tables into the master table by summing counts per word.

use vstd::prelude::*;
use vstd::arithmetic::div_mod::lemma_fundamental_div_mod;
use vstd::arithmetic::div_mod::lemma_mod_division_less_than_divisor;
use vstd::arithmetic::mul::lemma_mul_inequality;
use crate::freq::FreqTable;
use crate::norm::normalize;
use crate::norm::normalize_spec;
use crate::tokenizer::tokenize;
use crate::tokenizer::tokens_spec;

verus! {

/// The number of tokens whose normalized form is `w`.
pub open spec fn count_in(toks: Seq<Seq<char>>, w: Seq<char>) -> nat
    decreases toks.len(),
{
    if toks.len() == 0 {
        0
    } else {
        count_in(toks.drop_last(), w) + if normalize_spec(toks.last()) == w {
            1nat
        } else {
            0nat
        }
    }
}

/// A word occurs at most once per token.
pub proof fn lemma_count_in_le_len(toks: Seq<Seq<char>>, w: Seq<char>)
    ensures
        count_in(toks, w) <= toks.len(),
    decreases toks.len(),
{
    if toks.len() > 0 {
        lemma_count_in_le_len(toks.drop_last(), w);
    }
}

/// Occurrence counts add up over concatenation.
pub proof fn lemma_count_in_concat(a: Seq<Seq<char>>, b: Seq<Seq<char>>, w: Seq<char>)
    ensures
        count_in(a + b, w) == count_in(a, w) + count_in(b, w),
    decreases b.len(),
{
    if b.len() == 0 {
        assert(a + b =~= a);
    } else {
        lemma_count_in_concat(a, b.drop_last(), w);
        assert((a + b).drop_last() =~= a + b.drop_last());
        assert((a + b).last() == b.last());
    }
}

/// Tokens per worker: the total token count divided by the worker count
/// (integer division).
pub open spec fn chunk_len(toks: Seq<Seq<char>>, workers: int) -> int {
    toks.len() as int / workers
}

/// Worker `i`'s contiguous chunk: the tokens from `i * chunk_len` up to but
/// not including `(i + 1) * chunk_len`.
pub open spec fn worker_chunk(toks: Seq<Seq<char>>, workers: int, i: int) -> Seq<Seq<char>> {
    toks.subrange(i * chunk_len(toks, workers), (i + 1) * chunk_len(toks, workers))
}

/// The tokens the workers cover between them: the first
/// `workers * chunk_len` tokens. When the token count is not divisible by the
/// worker count, the remainder tokens at the tail are not covered: the
/// pipeline assigns every worker exactly `chunk_len` tokens and drops the
/// tail, a deliberate simplification that the contracts state explicitly.
pub open spec fn covered_tokens(toks: Seq<Seq<char>>, workers: int) -> Seq<Seq<char>> {
    toks.take(workers * chunk_len(toks, workers))
}

/// The chunks of workers 0 up to `k`, concatenated in worker order.
pub open spec fn concat_chunks(toks: Seq<Seq<char>>, workers: int, k: int) -> Seq<Seq<char>>
    decreases k,
{
    if k <= 0 {
        Seq::empty()
    } else {
        concat_chunks(toks, workers, k - 1) + worker_chunk(toks, workers, k - 1)
    }
}

/// The sum over workers 0 up to `k` of the occurrences of `w` that the
/// worker's chunk yields after normalization.
pub open spec fn sum_chunk_counts(toks: Seq<Seq<char>>, workers: int, k: int, w: Seq<char>) -> nat
    decreases k,
{
    if k <= 0 {
        0
    } else {
        sum_chunk_counts(toks, workers, k - 1, w) + count_in(worker_chunk(toks, workers, k - 1), w)
    }
}

proof fn lemma_chunk_arith(toks: Seq<Seq<char>>, workers: int, k: int)
    requires
        workers >= 1,
        0 <= k <= workers,
    ensures
        0 <= k * chunk_len(toks, workers) <= workers * chunk_len(toks, workers) <= toks.len(),
        k >= 1 ==> (k - 1) * chunk_len(toks, workers) == k * chunk_len(toks, workers) - chunk_len(
            toks,
            workers,
        ),
{
    let c = chunk_len(toks, workers);
    let n = toks.len() as int;
    lemma_fundamental_div_mod(n, workers);
    lemma_mod_division_less_than_divisor(n, workers);
    assert(c >= 0) by (nonlinear_arith)
        requires
            n >= 0,
            workers >= 1,
            n == workers * c + n % workers,
            n % workers < workers,
    ;
    lemma_mul_inequality(0, k, c);
    lemma_mul_inequality(k, workers, c);
    assert(0 * c == 0) by (nonlinear_arith);
    if k >= 1 {
        assert((k - 1) * c == k * c - c) by (nonlinear_arith);
    }
}

proof fn lemma_chunks_cover_prefix(toks: Seq<Seq<char>>, workers: int, k: int)
    requires
        workers >= 1,
        0 <= k <= workers,
    ensures
        concat_chunks(toks, workers, k) == toks.take(k * chunk_len(toks, workers)),
    decreases k,
{
    let c = chunk_len(toks, workers);
    lemma_chunk_arith(toks, workers, k);
    if k == 0 {
        assert(concat_chunks(toks, workers, 0) =~= toks.take(0 * c));
    } else {
        lemma_chunks_cover_prefix(toks, workers, k - 1);
        lemma_chunk_arith(toks, workers, k - 1);
        assert(concat_chunks(toks, workers, k) =~= toks.take(k * c));
    }
}

proof fn lemma_sum_over_prefix(toks: Seq<Seq<char>>, workers: int, k: int, w: Seq<char>)
    requires
        workers >= 1,
        0 <= k <= workers,
    ensures
        sum_chunk_counts(toks, workers, k, w) == count_in(
            toks.take(k * chunk_len(toks, workers)),
            w,
        ),
    decreases k,
{
    let c = chunk_len(toks, workers);
    lemma_chunk_arith(toks, workers, k);
    if k == 0 {
        assert(toks.take(0 * c) =~= Seq::<Seq<char>>::empty());
    } else {
        lemma_sum_over_prefix(toks, workers, k - 1, w);
        lemma_chunk_arith(toks, workers, k - 1);
        lemma_count_in_concat(toks.take((k - 1) * c), worker_chunk(toks, workers, k - 1), w);
        assert(toks.take(k * c) =~= toks.take((k - 1) * c) + worker_chunk(toks, workers, k - 1));
    }
}

/// Partition completeness: when the token count is exactly divisible by the
/// worker count, the workers' chunks, concatenated in worker order, are
/// exactly the full token sequence — every token in exactly one chunk, no
/// duplication, no gap.
pub proof fn lemma_partition_complete(toks: Seq<Seq<char>>, workers: int)
    requires
        workers >= 1,
        toks.len() as int % workers == 0,
    ensures
        concat_chunks(toks, workers, workers) == toks,
        covered_tokens(toks, workers) == toks,
{
    let c = chunk_len(toks, workers);
    lemma_chunks_cover_prefix(toks, workers, workers);
    lemma_fundamental_div_mod(toks.len() as int, workers);
    assert(workers * c == toks.len());
    assert(toks.take(workers * c) =~= toks);
}

/// Merge correctness: for every word, the count over the covered tokens —
/// what the merged master table holds — equals the sum over all workers of
/// the occurrences of that word that the worker's normalization produces.
pub proof fn lemma_merge_correct(toks: Seq<Seq<char>>, workers: int, w: Seq<char>)
    requires
        workers >= 1,
    ensures
        count_in(covered_tokens(toks, workers), w) == sum_chunk_counts(toks, workers, workers, w),
{
    lemma_sum_over_prefix(toks, workers, workers, w);
}

/// Determinism of the counts regardless of the worker count: when the token
/// count is divisible by both worker counts, both cover the full token
/// sequence, so every merged count comes out the same.
pub proof fn lemma_worker_count_irrelevant(toks: Seq<Seq<char>>, n1: int, n2: int)
    requires
        n1 >= 1,
        n2 >= 1,
        toks.len() as int % n1 == 0,
        toks.len() as int % n2 == 0,
    ensures
        forall|w: Seq<char>|
            count_in(covered_tokens(toks, n1), w) == count_in(covered_tokens(toks, n2), w),
{
    lemma_partition_complete(toks, n1);
    lemma_partition_complete(toks, n2);
}

/// Count one contiguous token range, the whole of a worker's job: normalize
/// each token in [start, end) and count one occurrence of each normalized
/// word, into a fresh local table.
pub fn count_tokens(tokens: &Vec<String>, start: usize, end: usize) -> (t: FreqTable)
    requires
        start <= end <= tokens@.len(),
    ensures
        forall|w: Seq<char>|
            t.count_of(w) == count_in(
                tokens.deep_view().subrange(start as int, end as int),
                w,
            ),
{
    let ghost toks = tokens.deep_view();
    let mut t = FreqTable::new();
    let mut j = start;
    while j < end
        invariant
            start <= j <= end <= tokens@.len(),
            toks == tokens.deep_view(),
            toks.len() == tokens@.len(),
            forall|w: Seq<char>|
                t.count_of(w) == count_in(toks.subrange(start as int, j as int), w),
        decreases end - j,
    {
        let word = normalize(tokens[j].as_str());
        proof {
            let pre = toks.subrange(start as int, j as int);
            let cur = toks.subrange(start as int, j as int + 1);
            assert(cur.drop_last() =~= pre);
            assert(cur.last() == toks[j as int]);
            assert(toks[j as int] == tokens@[j as int]@);
            lemma_count_in_le_len(pre, word@);
            assert(t.count_of(word@) <= j - start < u64::MAX);
        }
        t.increment(word);
        j += 1;
    }
    t
}

/// The whole pipeline, run in one thread of control: split the text into
/// tokens, give each worker one contiguous chunk of `len / workers` tokens
/// (any remainder tokens at the tail are dropped, see [`covered_tokens`]),
/// count each chunk into a local table, and merge every local table into the
/// master table.
pub fn count_words(text: &str, workers: usize) -> (master: FreqTable)
    requires
        1 <= workers,
    ensures
        forall|w: Seq<char>|
            master.count_of(w) == count_in(
                covered_tokens(tokens_spec(text@), workers as int),
                w,
            ),
{
    let tokens = tokenize(text);
    let ghost toks = tokens.deep_view();
    let total = tokens.len();
    let chunk = total / workers;
    proof {
        assert(chunk == chunk_len(toks, workers as int));
        lemma_chunk_arith(toks, workers as int, workers as int);
    }
    let mut master = FreqTable::new();
    let mut i: usize = 0;
    proof {
        assert(toks.take(0) =~= Seq::<Seq<char>>::empty());
    }
    while i < workers
        invariant
            1 <= workers,
            i <= workers,
            toks == tokens.deep_view(),
            toks == tokens_spec(text@),
            total == tokens@.len(),
            total == toks.len(),
            chunk == chunk_len(toks, workers as int),
            workers * chunk <= total,
            forall|w: Seq<char>|
                master.count_of(w) == count_in(toks.take(i as int * chunk as int), w),
        decreases workers - i,
    {
        proof {
            lemma_mul_inequality(i as int, workers as int, chunk as int);
            lemma_mul_inequality(i as int + 1, workers as int, chunk as int);
            assert((i as int + 1) * chunk as int == i as int * chunk as int + chunk as int)
                by (nonlinear_arith);
        }
        let lo = i * chunk;
        let hi = lo + chunk;
        let local = count_tokens(&tokens, lo, hi);
        proof {
            assert forall|w: Seq<char>|
                master.count_of(w) + local.count_of(w) <= u64::MAX by {
                lemma_count_in_concat(
                    toks.take(lo as int),
                    toks.subrange(lo as int, hi as int),
                    w,
                );
                assert(toks.take(hi as int) =~= toks.take(lo as int) + toks.subrange(
                    lo as int,
                    hi as int,
                ));
                lemma_count_in_le_len(toks.take(hi as int), w);
            }
        }
        let ok = master.try_merge_from(&local);
        proof {
            assert(ok);
            assert forall|w: Seq<char>|
                master.count_of(w) == count_in(toks.take((i + 1) as int * chunk as int), w) by {
                lemma_count_in_concat(
                    toks.take(lo as int),
                    toks.subrange(lo as int, hi as int),
                    w,
                );
                assert(toks.take(hi as int) =~= toks.take(lo as int) + toks.subrange(
                    lo as int,
                    hi as int,
                ));
            }
        }
        i += 1;
    }
    master
}

} // verus!
