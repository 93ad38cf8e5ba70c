//! The vocabulary-learning loop and the chunked corpus scan that feeds it.

use crate::segment::{
    le_opt, lemma_add_token_non_regression, lemma_min_cost_congruent, lemma_min_cost_some,
    lemma_slice_stats_congruent, min_cost, slice_stats, Tokenizer,
};
use crate::stats::{lemma_stats_plus_associates, stats_plus, StatsModel, TokenStats};
use crate::tokens::{
    bytes_eq, copy_bytes, lemma_pushed_sets, lemma_removed_sets, lemma_same_mandatory_trans,
    same_mandatory, same_strings, TokenSet, VocabModel,
};
use vstd::prelude::*;

verus! {

/// Bytes handed to one segmentation job.
pub const CHUNK_SIZE: usize = 16 * 1024 * 1024;

/// The total cost of scanning `bytes` in fixed-size chunks, each segmented
/// optimally on its own; chunk boundaries may cost more than one global
/// segmentation, which the training objective accepts.
pub open spec fn chunked_cost(vm: VocabModel, bytes: Seq<u8>, chunk: int) -> int
    decreases bytes.len(),
    when chunk >= 1
{
    if bytes.len() == 0 {
        0
    } else if bytes.len() <= chunk {
        match min_cost(vm, bytes, bytes.len() as int) {
            Some(c) => c,
            None => 0,
        }
    } else {
        (match min_cost(vm, bytes.subrange(0, chunk), chunk) {
            Some(c) => c,
            None => 0,
        }) + chunked_cost(vm, bytes.subrange(chunk, bytes.len() as int), chunk)
    }
}

/// All-zero statistics shaped for `n` tokens.
pub open spec fn zero_stats(n: int) -> StatsModel {
    StatsModel {
        counts: Seq::new(n as nat, |t: int| 0int),
        pairs: Seq::new((n * n) as nat, |p: int| 0int),
        cost: 0,
        scanned: 0,
    }
}

/// The complete statistics of scanning `bytes` in fixed-size chunks: the
/// element-wise sum of every chunk's per-pass statistics.
pub open spec fn chunked_stats(vm: VocabModel, bytes: Seq<u8>, chunk: int) -> StatsModel
    decreases bytes.len(),
    when chunk >= 1
{
    if bytes.len() == 0 {
        zero_stats(vm.n())
    } else if bytes.len() <= chunk {
        slice_stats(vm, bytes)
    } else {
        stats_plus(
            slice_stats(vm, bytes.subrange(0, chunk)),
            chunked_stats(vm, bytes.subrange(chunk, bytes.len() as int), chunk),
        )
    }
}

/// A corpus no longer than one chunk scans as a single pass: the chunked
/// statistics equal the per-pass statistics in every field.
pub proof fn lemma_single_chunk_stats(vm: VocabModel, bytes: Seq<u8>, chunk: int)
    requires
        chunk >= 1,
        bytes.len() <= chunk,
    ensures
        chunked_stats(vm, bytes, chunk) == slice_stats(vm, bytes),
{
    if bytes.len() == 0 {
        assert(zero_stats(vm.n()) =~= slice_stats(vm, bytes));
    }
}

/// Chunked statistics are shaped for the catalog, and their cost and length
/// fields agree with the chunked cost and the bytes scanned.
pub proof fn lemma_chunked_stats_shape(vm: VocabModel, bytes: Seq<u8>, chunk: int)
    requires
        chunk >= 1,
    ensures
        chunked_stats(vm, bytes, chunk).wf_for(vm.n()),
        chunked_stats(vm, bytes, chunk).cost == chunked_cost(vm, bytes, chunk),
        chunked_stats(vm, bytes, chunk).scanned == bytes.len(),
    decreases bytes.len(),
{
    if bytes.len() > chunk {
        lemma_chunked_stats_shape(vm, bytes.subrange(chunk, bytes.len() as int), chunk);
    }
}

/// Adding zeros on the right changes nothing.
pub proof fn lemma_stats_plus_zero_right(a: StatsModel, n: int)
    requires
        a.wf_for(n),
    ensures
        stats_plus(a, zero_stats(n)) == a,
{
    assert(stats_plus(a, zero_stats(n)) =~= a);
}

/// Adding zeros on the left changes nothing.
pub proof fn lemma_stats_plus_zero_left(a: StatsModel, z: StatsModel, n: int)
    requires
        a.wf_for(n),
        z.wf_for(n),
        z.is_zero(),
    ensures
        stats_plus(z, a) == a,
{
    assert(stats_plus(z, a) =~= a);
}

/// The chunked cost is bounded by the all-literals cost, and depends only on
/// the token strings and the literal cost.
pub proof fn lemma_chunked_cost_bound(vm: VocabModel, bytes: Seq<u8>, chunk: int)
    requires
        vm.wf(),
        chunk >= 1,
    ensures
        0 <= chunked_cost(vm, bytes, chunk) <= bytes.len() * vm.literal_cost,
    decreases bytes.len(),
{
    if bytes.len() == 0 {
        assert(bytes.len() * vm.literal_cost == 0) by (nonlinear_arith)
            requires
                bytes.len() == 0,
        ;
    } else if bytes.len() <= chunk {
        lemma_min_cost_some(vm, bytes, bytes.len() as int);
    } else {
        let head = bytes.subrange(0, chunk);
        let tail = bytes.subrange(chunk, bytes.len() as int);
        lemma_min_cost_some(vm, head, chunk);
        lemma_chunked_cost_bound(vm, tail, chunk);
        assert(chunk * vm.literal_cost + tail.len() * vm.literal_cost == bytes.len()
            * vm.literal_cost) by (nonlinear_arith)
            requires
                chunk + tail.len() == bytes.len(),
        ;
    }
}

/// Chunked costs agree across catalogs with the same strings and literal
/// cost.
pub proof fn lemma_chunked_cost_congruent(a: VocabModel, b: VocabModel, bytes: Seq<u8>, chunk: int)
    requires
        same_strings(a, b),
        a.literal_cost == b.literal_cost,
        chunk >= 1,
    ensures
        chunked_cost(a, bytes, chunk) == chunked_cost(b, bytes, chunk),
    decreases bytes.len(),
{
    if bytes.len() == 0 {
    } else if bytes.len() <= chunk {
        lemma_min_cost_congruent(a, b, bytes, bytes.len() as int);
    } else {
        lemma_min_cost_congruent(a, b, bytes.subrange(0, chunk), chunk);
        lemma_chunked_cost_congruent(a, b, bytes.subrange(chunk, bytes.len() as int), chunk);
    }
}

/// Catalogs with the same non-literal strings and the same literal cost
/// have the same chunked cost.
pub proof fn lemma_chunked_same_nonlit(a: VocabModel, b: VocabModel, bytes: Seq<u8>, chunk: int)
    requires
        a.wf(),
        b.wf(),
        a.literal_cost == b.literal_cost,
        forall|s: Seq<u8>| #[trigger] a.has_nonliteral(s) == b.has_nonliteral(s),
        chunk >= 1,
    ensures
        chunked_cost(a, bytes, chunk) == chunked_cost(b, bytes, chunk),
    decreases bytes.len(),
{
    if bytes.len() == 0 {
    } else if bytes.len() <= chunk {
        crate::segment::lemma_min_cost_same_nonlit(a, b, bytes, bytes.len() as int);
    } else {
        crate::segment::lemma_min_cost_same_nonlit(a, b, bytes.subrange(0, chunk), chunk);
        lemma_chunked_same_nonlit(a, b, bytes.subrange(chunk, bytes.len() as int), chunk);
    }
}

/// Scans a corpus in fixed-size chunks with one segmenter, summing the
/// per-chunk statistics: the result is exactly `chunked_stats`, the
/// element-wise sum of every chunk's per-pass statistics.  A chunk size at
/// least the corpus length gives the single-chunk mode, equal to one
/// `process_slice` pass in every field.
#[verifier::loop_isolation(false)]
#[verifier::rlimit(60)]
#[verifier::spinoff_prover]
pub fn scan_corpus(token_set: &TokenSet, corpus: &[u8], chunk_size: usize) -> (r: TokenStats)
    requires
        token_set@.wf(),
        chunk_size >= 1,
        corpus@.len() * token_set@.literal_cost <= usize::MAX,
        token_set@.n() * token_set@.n() <= usize::MAX,
    ensures
        r.scanned_bytes == corpus@.len(),
        r.cost as int == chunked_cost(token_set@, corpus@, chunk_size as int),
        r@ == chunked_stats(token_set@, corpus@, chunk_size as int),
        r@.wf_for(token_set@.n()),
        r@.bounded(token_set@.literal_cost),
{
    let ghost vm = token_set@;
    let mut tokenizer = Tokenizer::new(token_set.duplicate());
    let ghost vmi = tokenizer.token_set@;
    let mut total = TokenStats::new(token_set);
    let len = corpus.len();
    let mut off: usize = 0;
    proof {
        assert(corpus@.subrange(0, len as int) =~= corpus@);
        assert(chunked_cost(vm, corpus@.subrange(off as int, len as int), chunk_size as int)
            == chunked_cost(vm, corpus@, chunk_size as int));
        lemma_chunked_stats_shape(vm, corpus@, chunk_size as int);
        lemma_stats_plus_zero_left(
            chunked_stats(vm, corpus@, chunk_size as int),
            total@,
            vm.n(),
        );
        assert(chunked_stats(vm, corpus@.subrange(off as int, len as int), chunk_size as int)
            == chunked_stats(vm, corpus@, chunk_size as int));
    }
    while off < len
        invariant
            off <= len,
            len == corpus@.len(),
            tokenizer.wf(),
            same_strings(vm, vmi),
            vmi == tokenizer.token_set@,
            vmi.literal_cost == vm.literal_cost,
            vmi.n() == vm.n(),
            total.scanned_bytes == off,
            total@.wf_for(vm.n()),
            total@.bounded(vm.literal_cost),
            total.cost as int + chunked_cost(
                vm,
                corpus@.subrange(off as int, len as int),
                chunk_size as int,
            ) == chunked_cost(vm, corpus@, chunk_size as int),
            stats_plus(
                total@,
                chunked_stats(vm, corpus@.subrange(off as int, len as int), chunk_size as int),
            ) == chunked_stats(vm, corpus@, chunk_size as int),
        decreases len - off,
    {
        let rem = len - off;
        let take = if chunk_size < rem {
            chunk_size
        } else {
            rem
        };
        let end = off + take;
        let part = &corpus[off..end];
        proof {
            assert(part@ =~= corpus@.subrange(off as int, end as int));
            assert(part@.len() * vmi.literal_cost <= corpus@.len() * vm.literal_cost)
                by (nonlinear_arith)
                requires
                    part@.len() <= corpus@.len(),
                    vmi.literal_cost == vm.literal_cost,
                    vm.literal_cost >= 0,
            ;
        }
        let st = tokenizer.process_slice(part);
        proof {
            // the chunk's minimum relates the remaining chunked cost
            let remseq = corpus@.subrange(off as int, len as int);
            assert(remseq.subrange(0, take as int) =~= part@);
            assert(remseq.subrange(take as int, remseq.len() as int) =~= corpus@.subrange(
                end as int,
                len as int,
            ));
            lemma_min_cost_congruent(vmi, vm, part@, part@.len() as int);
            lemma_min_cost_some(vm, part@, part@.len() as int);
            if take < rem {
                assert(chunked_cost(vm, remseq, chunk_size as int) == (match min_cost(
                    vm,
                    part@,
                    take as int,
                ) {
                    Some(c) => c,
                    None => 0,
                }) + chunked_cost(vm, corpus@.subrange(end as int, len as int), chunk_size as int));
            } else {
                assert(remseq =~= part@);
                assert(corpus@.subrange(end as int, len as int) =~= Seq::<u8>::empty());
            }
            // the chunk's statistics relate the remaining chunked statistics
            lemma_slice_stats_congruent(vmi, vm, part@);
            assert(st@ == slice_stats(vm, part@));
            lemma_chunked_stats_shape(vm, corpus@.subrange(end as int, len as int), chunk_size as int);
            lemma_chunked_stats_shape(vm, corpus@.subrange(off as int, len as int), chunk_size as int);
            if take < rem {
                assert(chunked_stats(vm, remseq, chunk_size as int) == stats_plus(
                    slice_stats(vm, part@),
                    chunked_stats(vm, corpus@.subrange(end as int, len as int), chunk_size as int),
                ));
            } else {
                assert(chunked_stats(vm, remseq, chunk_size as int) == slice_stats(vm, part@));
                lemma_stats_plus_zero_right(slice_stats(vm, part@), vm.n());
                assert(chunked_stats(vm, remseq, chunk_size as int) == stats_plus(
                    slice_stats(vm, part@),
                    chunked_stats(vm, corpus@.subrange(end as int, len as int), chunk_size as int),
                ));
            }
            lemma_stats_plus_associates(
                total@,
                slice_stats(vm, part@),
                chunked_stats(vm, corpus@.subrange(end as int, len as int), chunk_size as int),
            );
            // overflow bounds for the addition
            lemma_chunked_cost_bound(vm, corpus@.subrange(end as int, len as int), chunk_size as int);
            assert(off * vm.literal_cost + take * vm.literal_cost + (len - end) * vm.literal_cost
                == len * vm.literal_cost) by (nonlinear_arith)
                requires
                    off + take == end,
                    end <= len,
            ;
            assert(total.cost as int <= off * vm.literal_cost) by (nonlinear_arith)
                requires
                    total.cost as int <= total.scanned_bytes * vm.literal_cost,
                    total.scanned_bytes == off,
            ;
            assert(st.cost as int <= take * vm.literal_cost) by (nonlinear_arith)
                requires
                    st.cost as int <= st.scanned_bytes * vm.literal_cost,
                    st.scanned_bytes == take,
            ;
            assert forall|k: int|
                0 <= k < total.token_count@.len() implies #[trigger] total.token_count@[k]
                + st.token_count@[k] <= usize::MAX by {
                assert(total@.counts[k] <= total@.scanned);
                assert(st@.counts[k] <= st@.scanned);
            }
            assert forall|k: int|
                0 <= k < total.pair_count@.len() implies #[trigger] total.pair_count@[k]
                + st.pair_count@[k] <= usize::MAX by {
                assert(total@.pairs[k] <= total@.scanned);
                assert(st@.pairs[k] <= st@.scanned);
            }
        }
        let ghost pre = total@;
        total.add(&st);
        off = end;
        proof {
            assert(total@ == stats_plus(pre, st@));
            assert forall|k: int|
                0 <= k < total@.counts.len() implies 0 <= #[trigger] total@.counts[k]
                <= total@.scanned by {
                assert(total@.counts[k] == pre.counts[k] + st@.counts[k]);
                assert(pre.counts[k] <= pre.scanned);
                assert(st@.counts[k] <= st@.scanned);
            }
            assert forall|k: int|
                0 <= k < total@.pairs.len() implies 0 <= #[trigger] total@.pairs[k]
                <= total@.scanned by {
                assert(total@.pairs[k] == pre.pairs[k] + st@.pairs[k]);
                assert(pre.pairs[k] <= pre.scanned);
                assert(st@.pairs[k] <= st@.scanned);
            }
            assert(total@.cost <= total@.scanned * vm.literal_cost) by (nonlinear_arith)
                requires
                    total@.cost == pre.cost + st@.cost,
                    total@.scanned == pre.scanned + st@.scanned,
                    pre.cost <= pre.scanned * vm.literal_cost,
                    st@.cost <= st@.scanned * vm.literal_cost,
                    pre.scanned >= 0,
                    st@.scanned >= 0,
                    vm.literal_cost >= 0,
            ;
            assert(total@.bounded(vm.literal_cost));
        }
    }
    proof {
        assert(corpus@.subrange(len as int, len as int) =~= Seq::<u8>::empty());
        lemma_stats_plus_zero_right(total@, vm.n());
    }
    total
}


/// The running argmax after scanning the first `m` entries of `counts`: the
/// first index whose value strictly exceeds every earlier one, starting from
/// index 0 with value 0.
pub open spec fn fold_top(counts: Seq<int>, m: int) -> (int, int)
    decreases m,
{
    if m <= 0 {
        (0int, 0int)
    } else {
        let prev = fold_top(counts, m - 1);
        if counts[m - 1] > prev.1 {
            (m - 1, counts[m - 1])
        } else {
            prev
        }
    }
}

/// The argmax index stays in range and its value stays non-negative.
pub proof fn lemma_fold_top_bounds(counts: Seq<int>, m: int)
    ensures
        0 <= fold_top(counts, m).0,
        fold_top(counts, m).0 < if m >= 1 {
            m
        } else {
            1
        },
        fold_top(counts, m).1 >= 0,
    decreases m,
{
    if m > 0 {
        lemma_fold_top_bounds(counts, m - 1);
    }
}

/// The candidate string the trainer adds next: the most frequent literal
/// when its count beats the most frequent adjacent pair's, else the pair's
/// concatenation.
pub open spec fn candidate_spec(sm: crate::stats::StatsModel, vm: VocabModel) -> Seq<u8> {
    let tl = fold_top(sm.counts, 256);
    let tp = fold_top(sm.pairs, sm.pairs.len() as int);
    if tl.1 > tp.1 {
        seq![tl.0 as u8]
    } else {
        vm.str_at(tp.0 / vm.n()) + vm.str_at(tp.0 % vm.n())
    }
}

/// Scans the literal block of the counts for its first strict maximum.
fn top_literal(stats: &TokenStats) -> (r: (usize, usize))
    requires
        stats.token_count@.len() >= 256,
    ensures
        r.0 as int == fold_top(stats@.counts, 256).0,
        r.1 as int == fold_top(stats@.counts, 256).1,
        r.0 < 256,
{
    let mut top: usize = 0;
    let mut top_count: usize = 0;
    let mut i: usize = 0;
    while i < 256
        invariant
            i <= 256,
            stats.token_count@.len() >= 256,
            top as int == fold_top(stats@.counts, i as int).0,
            top_count as int == fold_top(stats@.counts, i as int).1,
            top < 256,
        decreases 256 - i,
    {
        if stats.token_count[i] > top_count {
            top = i;
            top_count = stats.token_count[i];
        }
        i = i + 1;
    }
    (top, top_count)
}

/// Scans the flat pair table for its first strict maximum.
fn top_pair(stats: &TokenStats) -> (r: (usize, usize))
    ensures
        r.0 as int == fold_top(stats@.pairs, stats.pair_count@.len() as int).0,
        r.1 as int == fold_top(stats@.pairs, stats.pair_count@.len() as int).1,
        r.0 < stats.pair_count@.len() || r.0 == 0,
{
    let m = stats.pair_count.len();
    let mut top: usize = 0;
    let mut top_count: usize = 0;
    let mut i: usize = 0;
    while i < m
        invariant
            i <= m,
            m == stats.pair_count@.len(),
            top as int == fold_top(stats@.pairs, i as int).0,
            top_count as int == fold_top(stats@.pairs, i as int).1,
            top < m || top == 0,
        decreases m - i,
    {
        if stats.pair_count[i] > top_count {
            top = i;
            top_count = stats.pair_count[i];
        }
        i = i + 1;
    }
    (top, top_count)
}

/// Picks the next token to add: the most frequent literal when it beats the
/// most frequent adjacent pair, else the two paired token strings
/// concatenated.
#[verifier::spinoff_prover]
pub fn select_candidate(stats: &TokenStats, token_set: &TokenSet) -> (r: Vec<u8>)
    requires
        token_set@.wf(),
        stats@.wf_for(token_set@.n()),
    ensures
        r@ == candidate_spec(stats@, token_set@),
        r@.len() >= 1,
{
    let ghost vm = token_set@;
    let (tl_i, tl_c) = top_literal(stats);
    let (tp_i, tp_c) = top_pair(stats);
    let n = token_set.tokens.len();
    if tl_c > tp_c {
        let mut v: Vec<u8> = Vec::new();
        v.push(tl_i as u8);
        proof {
            assert(v@ =~= seq![fold_top(stats@.counts, 256).0 as u8]);
        }
        v
    } else {
        proof {
            lemma_fold_top_bounds(stats@.pairs, stats.pair_count@.len() as int);
            assert((tp_i as int) / (n as int) < n as int && (tp_i as int) % (n as int) < n as int
                && 0 <= (tp_i as int) / (n as int) && 0 <= (tp_i as int) % (n as int))
                by (nonlinear_arith)
                requires
                    0 <= tp_i as int,
                    (tp_i as int) < (n as int) * (n as int) || tp_i as int == 0,
                    n as int >= 256,
            ;
        }
        let a = tp_i / n;
        let b = tp_i % n;
        let mut v = crate::tokens::copy_bytes(token_set.tokens[a].string.as_slice());
        let second = token_set.tokens[b].string.as_slice();
        let mut k: usize = 0;
        while k < second.len()
            invariant
                k <= second@.len(),
                second@ == vm.str_at(b as int),
                v@ == vm.str_at(a as int) + second@.subrange(0, k as int),
                a as int == fold_top(stats@.pairs, stats@.pairs.len() as int).0 / vm.n(),
                b as int == fold_top(stats@.pairs, stats@.pairs.len() as int).0 % vm.n(),
            decreases second@.len() - k,
        {
            v.push(second[k]);
            k = k + 1;
            proof {
                assert(v@ =~= vm.str_at(a as int) + second@.subrange(0, k as int));
            }
        }
        proof {
            assert(second@.subrange(0, second@.len() as int) =~= second@);
            assert(v@ == vm.str_at(a as int) + vm.str_at(b as int));
            assert(vm.str_at(a as int).len() >= 1);
        }
        v
    }
}

/// One removal candidate: the token string and its count in the last pass.
struct RemovalCand {
    string: Vec<u8>,
    count: usize,
}

/// The strings of all removable tokens (non-literal, non-mandatory), paired
/// with their counts, in catalog order.
/// The strings of all removable tokens (non-literal, non-mandatory), paired
/// with their counts from the given statistics, in catalog order.
fn removal_candidates(token_set: &TokenSet, stats: &TokenStats) -> (r: Vec<RemovalCand>)
    requires
        token_set@.wf(),
        stats.token_count@.len() == token_set@.n(),
    ensures
        forall|k: int| 0 <= k < r@.len() ==> (#[trigger] r@[k]).string@.len() >= 1,
{
    let mut r: Vec<RemovalCand> = Vec::new();
    let n = token_set.tokens.len();
    let mut i: usize = 256;
    while i < n
        invariant
            256 <= i,
            n == token_set@.n(),
            token_set@.wf(),
            stats.token_count@.len() == n,
            forall|k: int| 0 <= k < r@.len() ==> (#[trigger] r@[k]).string@.len() >= 1,
        decreases n - i,
    {
        if !token_set.tokens[i].is_mandatory {
            proof {
                assert(token_set@.toks[i as int].string.len() >= 1);
            }
            let cand = RemovalCand {
                string: crate::tokens::copy_bytes(token_set.tokens[i].string.as_slice()),
                count: stats.token_count[i],
            };
            r.push(cand);
        }
        i = i + 1;
    }
    r
}

/// Selection sort by ascending count: repeatedly moves a minimum-count
/// candidate to the output, giving the order the removal search tries.
#[verifier::spinoff_prover]
fn sort_candidates(cands: Vec<RemovalCand>) -> (r: Vec<RemovalCand>)
    requires
        forall|k: int| 0 <= k < cands@.len() ==> (#[trigger] cands@[k]).string@.len() >= 1,
    ensures
        r@.len() == cands@.len(),
        forall|k: int| 0 <= k < r@.len() ==> (#[trigger] r@[k]).string@.len() >= 1,
        forall|k: int, l: int| 0 <= k < l < r@.len() ==> (#[trigger] r@[k]).count <= (
        #[trigger] r@[l]).count,
{
    let mut src = cands;
    let mut out: Vec<RemovalCand> = Vec::new();
    let total = src.len();
    while src.len() > 0
        invariant
            out@.len() + src@.len() == total,
            forall|k: int| 0 <= k < src@.len() ==> (#[trigger] src@[k]).string@.len() >= 1,
            forall|k: int| 0 <= k < out@.len() ==> (#[trigger] out@[k]).string@.len() >= 1,
            forall|k: int, l: int| 0 <= k < l < out@.len() ==> (#[trigger] out@[k]).count <= (
            #[trigger] out@[l]).count,
            forall|k: int, l: int|
                0 <= k < out@.len() && 0 <= l < src@.len() ==> (#[trigger] out@[k]).count <= (
                #[trigger] src@[l]).count,
        decreases src@.len(),
    {
        let mut arg: usize = 0;
        let mut j: usize = 1;
        while j < src.len()
            invariant
                arg < src@.len(),
                j <= src@.len(),
                forall|k: int| 0 <= k < j ==> (#[trigger] src@[k]).count >= src@[arg as int].count,
            decreases src@.len() - j,
        {
            if src[j].count < src[arg].count {
                arg = j;
            }
            j = j + 1;
        }
        let ghost pre_src = src@;
        let x = src.remove(arg);
        out.push(x);
        proof {
            assert forall|k: int, l: int|
                0 <= k < out@.len() && 0 <= l < src@.len() implies (#[trigger] out@[k]).count <= (
            #[trigger] src@[l]).count by {
                let l0 = if l < arg {
                    l
                } else {
                    l + 1
                };
                assert(src@[l] == pre_src[l0]);
                if k < out@.len() - 1 {
                } else {
                    assert(out@[k] == pre_src[arg as int]);
                }
            }
        }
    }
    out
}

/// The candidate strings in their tried order.
fn candidate_strings(cands: &Vec<RemovalCand>) -> (r: Vec<Vec<u8>>)
    requires
        forall|k: int| 0 <= k < cands@.len() ==> (#[trigger] cands@[k]).string@.len() >= 1,
    ensures
        r@.len() == cands@.len(),
        forall|k: int| 0 <= k < r@.len() ==> (#[trigger] r@[k])@ == cands@[k].string@,
        forall|k: int| 0 <= k < r@.len() ==> (#[trigger] r@[k])@.len() >= 1,
{
    let mut strs: Vec<Vec<u8>> = Vec::new();
    let total_out = cands.len();
    let mut q: usize = 0;
    while q < total_out
        invariant
            q <= total_out,
            total_out == cands@.len(),
            strs@.len() == q,
            forall|k: int| 0 <= k < cands@.len() ==> (#[trigger] cands@[k]).string@.len() >= 1,
            forall|k: int| 0 <= k < q ==> (#[trigger] strs@[k])@ == cands@[k].string@,
        decreases total_out - q,
    {
        strs.push(copy_bytes(cands[q].string.as_slice()));
        q = q + 1;
    }
    strs
}


/// Removing the string `s` from a catalog holding `vm0`'s strings was tried
/// against the corpus and did not qualify: for the catalog actually scanned
/// (same literal cost, `vm0`'s non-literal strings minus `s`), either the
/// cost did not drop strictly below `bound`, or the next add decision would
/// re-add `s` at once.
pub open spec fn removal_rejected(
    vm0: VocabModel,
    s: Seq<u8>,
    corpus: Seq<u8>,
    chunk: int,
    bound: int,
) -> bool {
    exists|m: VocabModel|
        {
            &&& #[trigger] m.wf()
            &&& m.literal_cost == vm0.literal_cost
            &&& forall|s2: Seq<u8>| #[trigger] m.has_nonliteral(s2) == (vm0.has_nonliteral(s2)
                && s2 != s)
            &&& !(chunked_cost(m, corpus, chunk) < bound && candidate_spec(
                chunked_stats(m, corpus, chunk),
                m,
            ) != s)
        }
}

/// Tries the removal candidates in order: removes one, re-scores the whole
/// corpus, and accepts the first removal that strictly lowers the cost below
/// `pre_add_cost` and that the next add decision would not immediately undo;
/// every rejected candidate is re-added.  On success the contract names the
/// removed candidate: exactly that string left the catalog, and the next add
/// decision over the returned statistics differs from it.  On failure every
/// genuinely removable candidate was tried and rejected, which
/// `removal_rejected` records.
#[verifier::loop_isolation(false)]
#[verifier::rlimit(60)]
#[verifier::spinoff_prover]
pub fn removal_sweep(
    token_set: &mut TokenSet,
    pre_add_cost: usize,
    corpus: &[u8],
    chunk_size: usize,
    cands: &Vec<Vec<u8>>,
) -> (r: Option<TokenStats>)
    requires
        old(token_set)@.wf(),
        chunk_size >= 1,
        forall|k: int| 0 <= k < cands@.len() ==> (#[trigger] cands@[k])@.len() >= 1,
        corpus@.len() * old(token_set)@.literal_cost <= usize::MAX,
        old(token_set)@.n() * old(token_set)@.n() <= usize::MAX,
    ensures
        final(token_set)@.wf(),
        final(token_set)@.literal_cost == old(token_set)@.literal_cost,
        final(token_set)@.fallback16 == old(token_set)@.fallback16,
        same_mandatory(old(token_set)@, final(token_set)@),
        match r {
            Some(st) => {
                &&& final(token_set)@.n() == old(token_set)@.n() - 1
                &&& (st.cost as int) < pre_add_cost as int
                &&& st.scanned_bytes == corpus@.len()
                &&& st.cost as int == chunked_cost(final(token_set)@, corpus@, chunk_size as int)
                &&& st@ == chunked_stats(final(token_set)@, corpus@, chunk_size as int)
                &&& st@.wf_for(final(token_set)@.n())
                &&& st@.bounded(final(token_set)@.literal_cost)
                &&& exists|kk: int|
                    0 <= kk < cands@.len() && {
                        let s = (#[trigger] cands@[kk])@;
                        &&& old(token_set)@.has_nonliteral(s)
                        &&& !old(token_set)@.has_mandatory(s)
                        &&& !final(token_set)@.has_nonliteral(s)
                        &&& (forall|s2: Seq<u8>|
                            s2 != s ==> #[trigger] final(token_set)@.has_nonliteral(s2) == old(
                                token_set,
                            )@.has_nonliteral(s2))
                        &&& candidate_spec(st@, final(token_set)@) != s
                    }
            },
            None => {
                &&& final(token_set)@.n() == old(token_set)@.n()
                &&& forall|s2: Seq<u8>| #[trigger] final(token_set)@.has_nonliteral(s2) == old(
                    token_set,
                )@.has_nonliteral(s2)
                &&& forall|kk: int|
                    0 <= kk < cands@.len() ==> ((old(token_set)@.has_nonliteral(
                        (#[trigger] cands@[kk])@,
                    ) && !old(token_set)@.has_mandatory(cands@[kk]@)) ==> removal_rejected(
                        old(token_set)@,
                        cands@[kk]@,
                        corpus@,
                        chunk_size as int,
                        pre_add_cost as int,
                    ))
            },
        },
{
    let ghost vm0 = old(token_set)@;
    let mut k: usize = 0;
    while k < cands.len()
        invariant
            k <= cands@.len(),
            token_set@.wf(),
            token_set@.literal_cost == vm0.literal_cost,
            token_set@.fallback16 == vm0.fallback16,
            token_set@.n() == vm0.n(),
            same_mandatory(vm0, token_set@),
            forall|s2: Seq<u8>| #[trigger] token_set@.has_nonliteral(s2) == vm0.has_nonliteral(
                s2,
            ),
            forall|kk: int|
                0 <= kk < k ==> ((vm0.has_nonliteral((#[trigger] cands@[kk])@)
                    && !vm0.has_mandatory(cands@[kk]@)) ==> removal_rejected(
                    vm0,
                    cands@[kk]@,
                    corpus@,
                    chunk_size as int,
                    pre_add_cost as int,
                )),
        decreases cands@.len() - k,
    {
        let cand_str = cands[k].as_slice();
        let ghost pre = token_set@;
        match token_set.remove_token(cand_str) {
            Err(_) => {
                proof {
                    crate::tokens::lemma_removable_char(pre, cand_str@);
                    if vm0.has_nonliteral(cand_str@) && !vm0.has_mandatory(cand_str@) {
                        assert(pre.has_nonliteral(cand_str@));
                        if pre.has_mandatory(cand_str@) {
                            assert(vm0.has_mandatory(cand_str@));
                        }
                        assert(crate::tokens::removable(pre, cand_str@));
                        let w = choose|w: int|
                            256 <= w < pre.n() && pre.str_at(w) == cand_str@;
                        assert(pre.has_str(cand_str@));
                        assert(false);
                    }
                }
            },
            Ok(()) => {
                proof {
                    lemma_removed_sets(pre, token_set@, cand_str@);
                    assert((token_set@.n()) * (token_set@.n()) <= vm0.n() * vm0.n())
                        by (nonlinear_arith)
                        requires
                            token_set@.n() == vm0.n() - 1,
                            vm0.n() >= 1,
                    ;
                    assert forall|s: Seq<u8>| #[trigger] vm0.has_mandatory(s) implies token_set@.has_mandatory(
                        s,
                    ) by {
                        assert(pre.has_mandatory(s));
                        assert(token_set@.has_mandatory(s) == pre.has_mandatory(s));
                    }
                    assert forall|s: Seq<u8>| #[trigger] token_set@.has_mandatory(s) implies vm0.has_mandatory(
                        s,
                    ) by {
                        assert(token_set@.has_mandatory(s) == pre.has_mandatory(s));
                    }
                }
                let ghost mid = token_set@;
                let st = scan_corpus(token_set, corpus, chunk_size);
                let ghost mut guard_hit = false;
                if st.cost < pre_add_cost {
                    let next = select_candidate(&st, token_set);
                    if !bytes_eq(next.as_slice(), cand_str) {
                        proof {
                            crate::tokens::lemma_removable_char(pre, cand_str@);
                            assert(vm0.has_nonliteral(cand_str@));
                            if vm0.has_mandatory(cand_str@) {
                                assert(pre.has_mandatory(cand_str@));
                            }
                            assert(!mid.has_nonliteral(cand_str@));
                            assert(candidate_spec(st@, mid) != cand_str@);
                            assert(0 <= k < cands@.len() && {
                                let s = cands@[k as int]@;
                                &&& vm0.has_nonliteral(s)
                                &&& !vm0.has_mandatory(s)
                                &&& !token_set@.has_nonliteral(s)
                                &&& (forall|s2: Seq<u8>|
                                    s2 != s ==> #[trigger] token_set@.has_nonliteral(s2)
                                        == vm0.has_nonliteral(s2))
                                &&& candidate_spec(st@, token_set@) != s
                            });
                        }
                        return Some(st);
                    }
                    proof {
                        guard_hit = true;
                        assert(candidate_spec(st@, mid) == cand_str@);
                    }
                }
                proof {
                    // this candidate was tried and did not qualify
                    assert(st.cost as int == chunked_cost(mid, corpus@, chunk_size as int));
                    assert(st@ == chunked_stats(mid, corpus@, chunk_size as int));
                    if guard_hit {
                        assert(candidate_spec(
                            chunked_stats(mid, corpus@, chunk_size as int),
                            mid,
                        ) == cand_str@);
                    } else {
                        assert(st.cost >= pre_add_cost);
                    }
                    assert forall|s2: Seq<u8>| #[trigger] mid.has_nonliteral(s2) == (
                    vm0.has_nonliteral(s2) && s2 != cand_str@) by {
                        assert(mid.has_nonliteral(s2) == (pre.has_nonliteral(s2) && s2
                            != cand_str@));
                    }
                    assert(mid.wf());
                    assert(removal_rejected(
                        vm0,
                        cand_str@,
                        corpus@,
                        chunk_size as int,
                        pre_add_cost as int,
                    ));
                }
                token_set.add_token(cand_str);
                proof {
                    assert(!mid.has_nonliteral(cand_str@));
                    lemma_pushed_sets(mid, token_set@, cand_str@, false);
                    assert(pre.has_nonliteral(cand_str@));
                    assert forall|s2: Seq<u8>| #[trigger] token_set@.has_nonliteral(s2)
                        == vm0.has_nonliteral(s2) by {
                        assert(token_set@.has_nonliteral(s2) == (mid.has_nonliteral(s2) || s2
                            == cand_str@));
                        assert(mid.has_nonliteral(s2) == (pre.has_nonliteral(s2) && s2
                            != cand_str@));
                    }
                    assert forall|s: Seq<u8>| #[trigger] vm0.has_mandatory(s) implies token_set@.has_mandatory(
                        s,
                    ) by {
                        assert(mid.has_mandatory(s));
                        assert(token_set@.has_mandatory(s) == (mid.has_mandatory(s) || (false && s
                            == cand_str@)));
                    }
                    assert forall|s: Seq<u8>| #[trigger] token_set@.has_mandatory(s) implies vm0.has_mandatory(
                        s,
                    ) by {
                        assert(token_set@.has_mandatory(s) == (mid.has_mandatory(s) || (false && s
                            == cand_str@)));
                        assert(mid.has_mandatory(s));
                    }
                }
            },
        }
        k = k + 1;
    }
    None
}

/// Grows the vocabulary greedily over a corpus held in memory.  Each epoch
/// adds the best literal-or-pair candidate; once over budget it searches for
/// a removal that strictly lowers the pre-add cost without being immediately
/// re-added, and stops when none qualifies.  Returns the final catalog with
/// exactly that catalog's own full-scan statistics; the cost never exceeds
/// the input catalog's scan cost, and when the input is under budget it also
/// never exceeds the cost after adding the input scan's pinned candidate,
/// so a trainer that learns nothing cannot meet this contract.
#[verifier::loop_isolation(false)]
#[verifier::rlimit(60)]
#[verifier::spinoff_prover]
pub fn optimize_bpe(token_set: &TokenSet, ntokens: usize, corpus: &[u8]) -> (r: (
    TokenSet,
    TokenStats,
))
    requires
        token_set@.wf(),
        corpus@.len() * token_set@.literal_cost <= usize::MAX,
        (token_set@.n() + ntokens as int + 2) * (token_set@.n() + ntokens as int + 2)
            <= usize::MAX,
    ensures
        r.0@.wf(),
        r.0@.literal_cost == token_set@.literal_cost,
        r.0@.fallback16 == token_set@.fallback16,
        same_mandatory(token_set@, r.0@),
        r.0@.n() <= if token_set@.n() >= 256 + ntokens as int {
            token_set@.n()
        } else {
            256 + ntokens as int
        },
        r.1.scanned_bytes == corpus@.len(),
        r.1.cost as int == chunked_cost(r.0@, corpus@, CHUNK_SIZE as int),
        r.1@ == chunked_stats(r.0@, corpus@, CHUNK_SIZE as int),
        r.1@.wf_for(r.0@.n()),
        r.1@.bounded(r.0@.literal_cost),
        r.1.cost as int <= chunked_cost(token_set@, corpus@, CHUNK_SIZE as int),
        token_set@.n() < 256 + ntokens as int ==> forall|m1: VocabModel|
            (m1.wf() && #[trigger] crate::tokens::pushed_token(
                token_set@,
                m1,
                candidate_spec(
                    chunked_stats(token_set@, corpus@, CHUNK_SIZE as int),
                    token_set@,
                ),
                false,
                false,
                1,
            )) ==> r.1.cost as int <= chunked_cost(m1, corpus@, CHUNK_SIZE as int),
{
    let ghost vm0 = token_set@;
    let ghost bound: int = vm0.n() + ntokens as int + 2;
    let ghost maxn: int = if vm0.n() >= 256 + ntokens as int {
        vm0.n()
    } else {
        256 + ntokens as int
    };
    proof {
        assert(bound <= bound * bound) by (nonlinear_arith)
            requires
                bound >= 1,
        ;
        assert(vm0.n() * vm0.n() <= bound * bound) by (nonlinear_arith)
            requires
                0 <= vm0.n() <= bound,
        ;
    }
    let mut ts = token_set.duplicate();
    let mut stats = scan_corpus(&ts, corpus, CHUNK_SIZE);
    let mut fuel: usize = usize::MAX;
    let mut done = false;
    while !done && fuel > 0
        invariant
            ts@.wf(),
            ts@.literal_cost == vm0.literal_cost,
            ts@.fallback16 == vm0.fallback16,
            same_mandatory(vm0, ts@),
            ts@.n() <= maxn,
            maxn + 1 <= bound,
            stats.scanned_bytes == corpus@.len(),
            stats.cost as int == chunked_cost(ts@, corpus@, CHUNK_SIZE as int),
            stats@ == chunked_stats(ts@, corpus@, CHUNK_SIZE as int),
            stats@.wf_for(ts@.n()),
            stats@.bounded(vm0.literal_cost),
            stats.cost as int <= chunked_cost(vm0, corpus@, CHUNK_SIZE as int),
            fuel == usize::MAX ==> ts@ == vm0,
            done ==> fuel < usize::MAX,
            (fuel < usize::MAX && vm0.n() < 256 + ntokens as int) ==> forall|m1: VocabModel|
                (m1.wf() && #[trigger] crate::tokens::pushed_token(
                    vm0,
                    m1,
                    candidate_spec(chunked_stats(vm0, corpus@, CHUNK_SIZE as int), vm0),
                    false,
                    false,
                    1,
                )) ==> stats.cost as int <= chunked_cost(m1, corpus@, CHUNK_SIZE as int),
        decreases fuel,
    {
        let ghost first_iter = fuel == usize::MAX;
        fuel = fuel - 1;
        let cand = select_candidate(&stats, &ts);
        let mut new_ts = ts.duplicate();
        new_ts.add_token(cand.as_slice());
        proof {
            if ts@.has_nonliteral(cand@) {
                assert(same_mandatory(ts@, new_ts@));
            } else {
                lemma_pushed_sets(ts@, new_ts@, cand@, false);
                assert forall|s: Seq<u8>| #[trigger] ts@.has_mandatory(s) implies new_ts@.has_mandatory(
                    s,
                ) by {
                    assert(new_ts@.has_mandatory(s) == (ts@.has_mandatory(s) || (false && s
                        == cand@)));
                }
                assert forall|s: Seq<u8>| #[trigger] new_ts@.has_mandatory(s) implies ts@.has_mandatory(
                    s,
                ) by {
                    assert(new_ts@.has_mandatory(s) == (ts@.has_mandatory(s) || (false && s
                        == cand@)));
                }
            }
            lemma_same_mandatory_trans(vm0, ts@, new_ts@);
            assert(new_ts@.n() <= maxn + 1);
            assert(new_ts@.n() * new_ts@.n() <= bound * bound) by (nonlinear_arith)
                requires
                    0 <= new_ts@.n() <= bound,
            ;
        }
        let budget = 256 + ntokens;
        if new_ts.ntokens() > budget {
            let enlarged = scan_corpus(&new_ts, corpus, CHUNK_SIZE);
            let cands = removal_candidates(&new_ts, &enlarged);
            let sorted = sort_candidates(cands);
            let cand_strs = candidate_strings(&sorted);
            let pre_add_cost = stats.cost;
            let ghost pre_sweep = new_ts@;
            match removal_sweep(&mut new_ts, pre_add_cost, corpus, CHUNK_SIZE, &cand_strs) {
                Some(st) => {
                    proof {
                        lemma_same_mandatory_trans(vm0, pre_sweep, new_ts@);
                    }
                    ts = new_ts;
                    stats = st;
                },
                None => {
                    done = true;
                },
            }
        } else {
            proof {
                if ts@.has_nonliteral(cand@) {
                    assert(new_ts@ == ts@);
                    assert(chunked_cost(new_ts@, corpus@, CHUNK_SIZE as int) == chunked_cost(
                        ts@,
                        corpus@,
                        CHUNK_SIZE as int,
                    ));
                } else {
                    lemma_epoch_non_regression(
                        ts@,
                        new_ts@,
                        cand@,
                        false,
                        corpus@,
                        CHUNK_SIZE as int,
                    );
                }
            }
            let ghost old_cost = stats.cost as int;
            ts = new_ts;
            stats = scan_corpus(&ts, corpus, CHUNK_SIZE);
            proof {
                assert(stats.cost as int <= old_cost);
                if first_iter && vm0.n() < 256 + ntokens as int {
                    // the first epoch's add is the pinned candidate of the
                    // input catalog's own scan
                    let c1 = candidate_spec(
                        chunked_stats(vm0, corpus@, CHUNK_SIZE as int),
                        vm0,
                    );
                    assert(cand@ == c1);
                    assert forall|m1: VocabModel|
                        (m1.wf() && #[trigger] crate::tokens::pushed_token(
                            vm0,
                            m1,
                            c1,
                            false,
                            false,
                            1,
                        )) implies stats.cost as int <= chunked_cost(
                        m1,
                        corpus@,
                        CHUNK_SIZE as int,
                    ) by {
                        if vm0.has_nonliteral(c1) {
                            lemma_pushed_sets(vm0, m1, c1, false);
                            assert forall|s2: Seq<u8>| #[trigger] m1.has_nonliteral(s2)
                                == vm0.has_nonliteral(s2) by {
                                assert(m1.has_nonliteral(s2) == (vm0.has_nonliteral(s2) || s2
                                    == c1));
                            }
                            lemma_chunked_same_nonlit(m1, vm0, corpus@, CHUNK_SIZE as int);
                        } else {
                            assert(ts@ =~= m1);
                        }
                    }
                }
            }
        }
    }
    (ts, stats)
}


/// An add-only epoch never worsens the training objective: adding a token
/// leaves the chunked scan cost the same or lower.
pub proof fn lemma_epoch_non_regression(
    old: VocabModel,
    new: VocabModel,
    s: Seq<u8>,
    mand: bool,
    bytes: Seq<u8>,
    chunk: int,
)
    requires
        old.wf(),
        new.wf(),
        chunk >= 1,
        crate::tokens::pushed_token(old, new, s, false, mand, 1),
    ensures
        chunked_cost(new, bytes, chunk) <= chunked_cost(old, bytes, chunk),
    decreases bytes.len(),
{
    if bytes.len() == 0 {
    } else if bytes.len() <= chunk {
        lemma_add_token_non_regression(old, new, s, mand, bytes, bytes.len() as int);
        lemma_min_cost_some(old, bytes, bytes.len() as int);
        assert(le_opt(min_cost(new, bytes, bytes.len() as int), min_cost(old, bytes, bytes.len() as int)));
    } else {
        let head = bytes.subrange(0, chunk);
        let tail = bytes.subrange(chunk, bytes.len() as int);
        lemma_add_token_non_regression(old, new, s, mand, head, chunk);
        lemma_min_cost_some(old, head, chunk);
        lemma_epoch_non_regression(old, new, s, mand, tail, chunk);
    }
}

} // verus!
